//! Tests of the board model builder: entity constructors, section getters,
//! and the whole-board loader.

use pcb_router::router::Footprint;
use pcb_router::router::KicadPcb;
use pcb_router::router::KicadPcbError;
use pcb_router::router::Pad;
use pcb_router::router::PcbLayer;
use pcb_router::router::PcbNet;
use pcb_router::router::Via;
use pcb_router::router::Wire;
use pcb_router::router::dropped_net_mentions;
use pcb_router::router::dropped_pads;
use pcb_router::router::get_footprints;
use pcb_router::router::get_general;
use pcb_router::router::get_layers;
use pcb_router::router::get_nets;
use pcb_router::router::get_vias;
use pcb_router::router::get_wires;
use pcb_router::router::LayerType;
use pcb_router::s_exp_parser::parse;
use pcb_router::value::Decimal;

fn dec(mantissa: i64, scale: u32) -> Decimal {
    Decimal { mantissa, scale }
}

const BOARD_SOURCE: &str = "(kicad_pcb \
  (general (thickness 1.6)) \
  (layers (0 \"F.Cu\" signal) (31 \"B.Cu\" signal) (36 \"B.SilkS\" user)) \
  (net 0 \"\") (net 1 \"GND\") \
  (footprint \"R1\" (layer \"F.Cu\") (at 1.0 1.0) \
    (pad \"1\" smd rect (at -0.5 0.0) (layers \"F.Cu\") (net 1 \"GND\")) \
    (pad \"2\" smd rect (at 0.5 0.0) (layers \"F.Cu\") (net 0 \"\"))) \
  (segment (start 0.0 0.0) (end 2.0 0.0) (net 1) (layer \"F.Cu\")) \
  (via (at 1.0 2.0) (size 0.8) (layers \"F.Cu\" \"B.Cu\") (net 1)) \
)";

#[test]
fn test_pcb_net_from_exp() {
    let test_string = "(net 1 \"GND\")";
    let exp = parse(&test_string).unwrap();
    let net = PcbNet::from_exp(&exp.get("net")[0]).unwrap();

    assert_eq!(net.id, 1);
    assert_eq!(net.name, "\"GND\"");
}

#[test]
fn test_pcb_net_errors() {
    // No values at all: unclassified.
    let empty = parse("(net)").unwrap();
    match PcbNet::from_exp(&empty.get("net")[0]) {
        Err(KicadPcbError::Other(_)) => {}
        other => panic!("unexpected: {:?}", other),
    }
    // A non-integer id fails the net.
    let bad = parse("(net x \"GND\")").unwrap();
    match PcbNet::from_exp(&bad.get("net")[0]) {
        Err(KicadPcbError::PcbNetFail) => {}
        other => panic!("unexpected: {:?}", other),
    }
}

#[test]
fn test_pad_from_exp() {
    let test_string = "(pad \"1\" smd roundrect (at -1.4 0) (size 1.25 2.65) (layers \"F.Cu\" \"F.Paste\" \"F.Mask\") (roundrect_rratio 0.2)
      (net 1 \"GND\") (pinfunction \"K\") (pintype \"passive\") (tstamp 2b94d621-c132-4657-b654-d69cf5549fbe))";

    let exp = parse(&test_string).unwrap();
    let pad = Pad::from_exp(&exp.get("pad")[0]).unwrap();

    assert_eq!(pad.at, [dec(-14, 1), dec(0, 0)]);
    assert_eq!(pad.net.id, 1);
    assert_eq!(
        pad.layer,
        vec![
            "\"F.Cu\"".to_string(),
            "\"F.Paste\"".to_string(),
            "\"F.Mask\"".to_string()
        ]
    );
}

#[test]
fn test_pad_errors() {
    // A pad without a position fails.
    let exp = parse("(pad \"1\" (layers \"F.Cu\"))").unwrap();
    match Pad::from_exp(&exp.get("pad")[0]) {
        Err(KicadPcbError::PadFail) => {}
        other => panic!("unexpected: {:?}", other),
    }
}

#[test]
fn test_layer_from_exp() {
    let exp = parse("(layers (0 \"F.Cu\" signal) (36 \"B.SilkS\" user))").unwrap();
    let subs = exp.get("layers")[0].sub_expressions();
    let copper = PcbLayer::from_exp(&subs[0]).unwrap();
    assert_eq!(copper.id, 0);
    assert_eq!(copper.name, "\"F.Cu\"");
    assert_eq!(copper.layer_type, LayerType::Signal);
    let silk = PcbLayer::from_exp(&subs[1]).unwrap();
    assert_eq!(silk.layer_type, LayerType::User);

    let bad = parse("(x 1)").unwrap();
    match PcbLayer::from_exp(&bad) {
        Err(KicadPcbError::NoLayer(_)) => {}
        other => panic!("unexpected: {:?}", other),
    }
}

#[test]
fn test_wire_from_exp() {
    let exp = parse("(segment (start 0.0 0.0) (end 2.5 0.0) (net 1) (layer \"F.Cu\"))").unwrap();
    let wire = Wire::from_exp(&exp.get("segment")[0]).unwrap();
    assert_eq!(wire.net_id, 1);
    assert_eq!(wire.layer_name, "\"F.Cu\"");
    assert_eq!(wire.start, [dec(0, 1), dec(0, 1)]);
    assert_eq!(wire.end, [dec(25, 1), dec(0, 1)]);

    // A missing start point fails the wire.
    let bad = parse("(segment (end 2.5 0.0) (net 1) (layer \"F.Cu\"))").unwrap();
    match Wire::from_exp(&bad.get("segment")[0]) {
        Err(KicadPcbError::WireFail) => {}
        other => panic!("unexpected: {:?}", other),
    }
}

#[test]
fn test_via_from_exp() {
    let exp = parse("(via (at 1.0 2.0) (layers \"F.Cu\" \"B.Cu\") (net 1))").unwrap();
    let via = Via::from_exp(&exp.get("via")[0]).unwrap();
    assert_eq!(via.net_id, 1);
    assert_eq!(via.at, [dec(10, 1), dec(20, 1)]);
    assert_eq!(via.layers, vec!["\"F.Cu\"".to_string(), "\"B.Cu\"".to_string()]);

    // A via without a net fails.
    let bad = parse("(via (at 1.0 2.0) (layers \"F.Cu\" \"B.Cu\"))").unwrap();
    match Via::from_exp(&bad.get("via")[0]) {
        Err(KicadPcbError::ViaFail) => {}
        other => panic!("unexpected: {:?}", other),
    }
    // A via spans at least two copper layers: fewer fail it.
    let one = parse("(via (at 1.0 2.0) (layers \"F.Cu\") (net 1))").unwrap();
    match Via::from_exp(&one.get("via")[0]) {
        Err(KicadPcbError::ViaFail) => {}
        other => panic!("unexpected: {:?}", other),
    }
    let none = parse("(via (at 1.0 2.0) (layers) (net 1))").unwrap();
    match Via::from_exp(&none.get("via")[0]) {
        Err(KicadPcbError::ViaFail) => {}
        other => panic!("unexpected: {:?}", other),
    }
}

#[test]
fn test_footprint_from_exp() {
    let exp = parse(
        "(footprint \"R1\" (layer \"F.Cu\") (at 1.0 1.0) \
         (pad \"1\" (at -0.5 0.0) (layers \"F.Cu\") (net 1 \"GND\")))",
    )
    .unwrap();
    let fp = Footprint::from_exp(&exp.get("footprint")[0]).unwrap();
    assert_eq!(fp.layer, "\"F.Cu\"");
    assert_eq!(fp.at, [dec(10, 1), dec(10, 1)]);
    assert_eq!(fp.pads.len(), 1);
    // The absolute position is the footprint origin plus the pad offset.
    assert_eq!(fp.pads[0].at, [dec(-5, 1), dec(0, 1)]);
    assert_eq!(fp.pads[0].abs_at, [dec(5, 1), dec(10, 1)]);
}

#[test]
fn test_footprint_drops_bad_pad() {
    // One malformed pad does not fail an otherwise-valid footprint.
    let exp = parse(
        "(footprint \"R1\" (layer \"F.Cu\") (at 0.0 0.0) \
         (pad \"1\" (at 1.0 1.0) (layers \"F.Cu\")) \
         (pad \"2\" (layers \"F.Cu\")))",
    )
    .unwrap();
    let fp = Footprint::from_exp(&exp.get("footprint")[0]).unwrap();
    assert_eq!(fp.pads.len(), 1);
}

#[test]
fn test_dropped_item_counts() {
    // The leniency policy drops malformed items, but how many were dropped
    // stays observable.
    let fp = parse(
        "(footprint \"R1\" (layer \"F.Cu\") (at 0.0 0.0) \
         (pad \"1\" (at 1.0 1.0) (layers \"F.Cu\")) \
         (pad \"2\" (layers \"F.Cu\")) \
         (pad \"3\" (at 2.0 2.0)))",
    )
    .unwrap();
    assert_eq!(dropped_pads(&fp.get("footprint")[0]), 2);

    let tree = parse("(board (net 1 \"GND\") (net x \"bad\") (net 2 \"VCC\"))").unwrap();
    assert_eq!(dropped_net_mentions(&tree), 1);
    assert_eq!(get_nets(&tree).unwrap().len(), 2);
}

#[test]
fn test_get_general() {
    let tree = parse(BOARD_SOURCE).unwrap();
    let general = get_general(&tree).unwrap();
    assert_eq!(general.thickness, dec(16, 1));

    match get_general(&parse("(board)").unwrap()) {
        Err(KicadPcbError::GeneralFail) => {}
        other => panic!("unexpected: {:?}", other),
    }
}

#[test]
fn test_get_layers() {
    let tree = parse(BOARD_SOURCE).unwrap();
    let layers = get_layers(&tree).unwrap();
    assert_eq!(layers.len(), 3);
    assert_eq!(layers[0].name, "\"F.Cu\"");
    assert_eq!(layers[2].layer_type, LayerType::User);
}

#[test]
fn test_get_nets() {
    let tree = parse(BOARD_SOURCE).unwrap();
    let nets = get_nets(&tree).unwrap();
    // Net 0, net 1, and the mentions inside the pads collapse to two.
    assert_eq!(nets.len(), 2);
    assert_eq!(nets[0].id, 0);
    assert_eq!(nets[1].id, 1);
    assert_eq!(nets[1].name, "\"GND\"");
}

#[test]
fn test_net_dedup() {
    // Three mentions of the same net collapse to exactly one entry.
    let tree = parse("(board (net 1 \"GND\") (net 1 \"GND\") (net 1 \"GND\"))").unwrap();
    let nets = get_nets(&tree).unwrap();
    assert_eq!(nets.len(), 1);
    assert_eq!(nets[0].id, 1);
    assert_eq!(nets[0].name, "\"GND\"");
}

#[test]
fn test_get_footprints() {
    let tree = parse(BOARD_SOURCE).unwrap();
    let footprints = get_footprints(&tree).unwrap();
    assert_eq!(footprints.len(), 1);
    assert_eq!(footprints[0].pads.len(), 2);
}

#[test]
fn test_get_wires() {
    let tree = parse(BOARD_SOURCE).unwrap();
    let wires = get_wires(&tree).unwrap();
    assert_eq!(wires.len(), 1);
    assert_eq!(wires[0].net_id, 1);
}

#[test]
fn test_get_vias() {
    let tree = parse(BOARD_SOURCE).unwrap();
    let vias = get_vias(&tree).unwrap();
    assert_eq!(vias.len(), 1);
    assert_eq!(vias[0].net_id, 1);
}

#[test]
fn test_pcb_load() {
    let tree = parse(BOARD_SOURCE).unwrap();
    let pcb = KicadPcb::load(&tree).unwrap();
    assert_eq!(pcb.layers.len(), 3);
    assert_eq!(pcb.nets.len(), 2);
    assert_eq!(pcb.footprints.len(), 1);
    assert_eq!(pcb.wires.len(), 1);
    assert_eq!(pcb.vias.len(), 1);
    assert_eq!(pcb.routable_layers(), 2);
    assert_eq!(pcb.get_layer_id("\"F.Cu\""), Some(0));
    assert_eq!(pcb.get_layer_id("\"B.Cu\""), Some(31));
    assert_eq!(pcb.get_layer_id("\"Nowhere\""), None);
}

#[test]
fn test_load_missing_sections() {
    // A board without a general section fails fast with that error.
    match KicadPcb::load(&parse("(board (layers (0 \"F.Cu\" signal)))").unwrap()) {
        Err(KicadPcbError::GeneralFail) => {}
        other => panic!("unexpected: {:?}", other),
    }
    // A board with a general section but no layers fails on the layers.
    match KicadPcb::load(&parse("(board (general (thickness 1.6)))").unwrap()) {
        Err(KicadPcbError::NoLayer(_)) => {}
        other => panic!("unexpected: {:?}", other),
    }
}

#[test]
fn test_load_strips_trivial_nesting() {
    let tree = parse("((board (general (thickness 1.6)) (layers (0 \"F.Cu\" signal))))").unwrap();
    let pcb = KicadPcb::load(&tree).unwrap();
    assert_eq!(pcb.layers.len(), 1);
}
