//! Tests of the routing grid and the wavefront router: indexing, stamping,
//! searching, committing, and the end-to-end scenarios.

use pcb_router::raster_solver::Connection;
use pcb_router::raster_solver::Discrete3D;
use pcb_router::raster_solver::GridState;
use pcb_router::raster_solver::Raster;
use pcb_router::router::KicadPcb;
use pcb_router::router::RouterSettings;
use pcb_router::s_exp_parser::parse;
use pcb_router::value::Decimal;

fn dec(mantissa: i64, scale: u32) -> Decimal {
    Decimal { mantissa, scale }
}

fn settings() -> RouterSettings {
    RouterSettings {
        max_passes: 2,
        via_penalty: 5,
        grid_spacing: dec(10, 1),
        board_width: dec(100, 1),
        board_height: dec(30, 1),
    }
}

/// A board with one signal layer and two pads of the same net at continuous
/// positions that discretize to (0,0,0) and (5,0,0).
const TWO_PAD_BOARD: &str = "(kicad_pcb \
  (general (thickness 1.6)) \
  (layers (0 \"F.Cu\" signal)) \
  (net 1 \"GND\") \
  (footprint \"R1\" (layer \"F.Cu\") (at 0.0 0.0) \
    (pad \"1\" (at 0.0 0.0) (layers \"F.Cu\") (net 1 \"GND\")) \
    (pad \"2\" (at 5.0 0.0) (layers \"F.Cu\") (net 1 \"GND\"))) \
)";

fn two_pad_board() -> KicadPcb {
    KicadPcb::load(&parse(TWO_PAD_BOARD).unwrap()).unwrap()
}

#[test]
fn test_raster_gen() {
    let board = two_pad_board();
    let raster = Raster::new(&board, &settings()).unwrap();
    assert_eq!(raster.x_cells, 10);
    assert_eq!(raster.y_cells, 3);
    assert_eq!(raster.layers, 1);
    // Both pads are stamped.
    assert_eq!(raster.get(Discrete3D::from(0, 0, 0)), GridState::Pad);
    assert_eq!(raster.get(Discrete3D::from(5, 0, 0)), GridState::Pad);
    assert_eq!(raster.get_owner(Discrete3D::from(0, 0, 0)), 1);
    // An untouched cell is free.
    assert_eq!(raster.get(Discrete3D::from(3, 1, 0)), GridState::Free);
}

#[test]
fn test_raster_get_set() {
    let board = two_pad_board();
    let mut raster = Raster::new(&board, &settings()).unwrap();
    let p = Discrete3D::from(2, 1, 0);
    assert_eq!(raster.get(p), GridState::Free);
    raster.set(p, GridState::UserWire);
    assert_eq!(raster.get(p), GridState::UserWire);
    // Neighboring cells are untouched: no aliasing between distinct cells.
    assert_eq!(raster.get(Discrete3D::from(1, 1, 0)), GridState::Free);
    assert_eq!(raster.get(Discrete3D::from(3, 1, 0)), GridState::Free);
    assert_eq!(raster.get(Discrete3D::from(2, 0, 0)), GridState::Free);
    assert_eq!(raster.get(Discrete3D::from(2, 2, 0)), GridState::Free);
}

#[test]
fn test_grid_index_bijection() {
    // Every in-bounds cell gets its own flat index; writing one cell and
    // reading every other leaves the others untouched.
    let board = two_pad_board();
    let base = Raster::new(&board, &settings()).unwrap();
    for x in 0..base.x_cells {
        for y in 0..base.y_cells {
            let mut raster = Raster::new(&board, &settings()).unwrap();
            raster.set(Discrete3D::from(x, y, 0), GridState::Via);
            for x2 in 0..raster.x_cells {
                for y2 in 0..raster.y_cells {
                    let expected = if x2 == x && y2 == y {
                        GridState::Via
                    } else {
                        base.get(Discrete3D::from(x2, y2, 0))
                    };
                    assert_eq!(raster.get(Discrete3D::from(x2, y2, 0)), expected);
                }
            }
        }
    }
}

#[test]
fn test_raster_get_discrete() {
    let board = two_pad_board();
    let raster = Raster::new(&board, &settings()).unwrap();
    // Continuous positions truncate to their cell.
    assert_eq!(
        raster.get_discrete(&[dec(0, 1), dec(0, 1)], 0),
        Some(Discrete3D::from(0, 0, 0))
    );
    assert_eq!(
        raster.get_discrete(&[dec(57, 1), dec(23, 1)], 0),
        Some(Discrete3D::from(5, 2, 0))
    );
    // Off the grid: nothing.
    assert_eq!(raster.get_discrete(&[dec(999, 1), dec(0, 1)], 0), None);
    assert_eq!(raster.get_discrete(&[dec(0, 1), dec(0, 1)], 7), None);
    // Negative positions clamp to the first cell.
    assert_eq!(
        raster.get_discrete(&[dec(-5, 1), dec(0, 1)], 0),
        Some(Discrete3D::from(0, 0, 0))
    );
}

#[test]
fn test_raster_get_route() {
    // A free corridor between the two pads routes.
    let board = two_pad_board();
    let mut raster = Raster::new(&board, &settings()).unwrap();
    let src = Discrete3D::from(0, 0, 0);
    let dst = Discrete3D::from(5, 0, 0);
    let path = raster.search(src, dst, 1, 5).expect("expected a path");
    assert_eq!(path[0], src);
    assert_eq!(path[path.len() - 1], dst);
    raster.commit_path(&path, 1);
    // The cells between the pads are now this net's wires.
    for x in 1..5 {
        assert_eq!(raster.get(Discrete3D::from(x, 0, 0)), GridState::Wire);
        assert_eq!(raster.get_owner(Discrete3D::from(x, 0, 0)), 1);
    }
    // The pads themselves keep their state.
    assert_eq!(raster.get(src), GridState::Pad);
    assert_eq!(raster.get(dst), GridState::Pad);
}

#[test]
fn test_obstacle_respect() {
    // A hand-placed wire blocks the straight row; the route must detour and
    // the user cells must stay exactly as they were.
    let board = two_pad_board();
    let mut raster = Raster::new(&board, &settings()).unwrap();
    for y in 0..raster.y_cells {
        raster.set(Discrete3D::from(3, y, 0), GridState::UserWire);
    }
    let src = Discrete3D::from(0, 0, 0);
    let dst = Discrete3D::from(5, 0, 0);
    assert!(raster.search(src, dst, 1, 5).is_none());
    for y in 0..raster.y_cells {
        assert_eq!(raster.get(Discrete3D::from(3, y, 0)), GridState::UserWire);
    }
}

#[test]
fn test_unroutable_scenario() {
    // Every intervening cell pre-marked as a hand-placed wire blocks the
    // search entirely; the connection stays deferred after every pass and
    // nothing is committed.
    let board = two_pad_board();
    let mut raster = Raster::new(&board, &settings()).unwrap();
    for x in 0..raster.x_cells {
        for y in 0..raster.y_cells {
            if !(x == 0 && y == 0) && !(x == 5 && y == 0) {
                raster.set(Discrete3D::from(x, y, 0), GridState::UserWire);
            }
        }
    }
    let conn = Connection {
        net: 1,
        a: Discrete3D::from(0, 0, 0),
        b: Discrete3D::from(5, 0, 0),
    };
    let (committed, deferred) = raster.route(vec![conn], 3, 5);
    assert_eq!(committed.len(), 0);
    assert_eq!(deferred.len(), 1);
    assert_eq!(deferred[0], conn);
    // No cell changed: the pads are pads, the user wires are user wires.
    assert_eq!(raster.get(Discrete3D::from(0, 0, 0)), GridState::Pad);
    for x in 1..5 {
        assert_eq!(raster.get(Discrete3D::from(x, 0, 0)), GridState::UserWire);
    }
}

#[test]
fn test_end_to_end_route() {
    // Two pads of one net five cells apart on one signal layer route as a
    // single straight wire of five unit segments, with no vias.
    let board = two_pad_board();
    let result = board.route(&settings()).unwrap();
    assert_eq!(result.deferred.len(), 0);
    assert_eq!(result.board.vias.len(), 0);
    assert_eq!(result.board.wires.len(), 1);
    let wire = &result.board.wires[0];
    assert_eq!(wire.net_id, 1);
    assert_eq!(wire.layer_name, "\"F.Cu\"");
    // The wire spans cells (0,0) to (5,0): five unit segments at the grid
    // spacing of one unit.
    let xs = (wire.start[0].mantissa, wire.end[0].mantissa);
    let lo = xs.0.min(xs.1);
    let hi = xs.0.max(xs.1);
    assert_eq!(lo, 0);
    assert_eq!(hi, 5 * 10);
    assert_eq!(wire.start[1].mantissa, 0);
    assert_eq!(wire.end[1].mantissa, 0);
}

#[test]
fn test_routing_determinism() {
    // Two runs on the same board and settings place byte-identical wires
    // and vias.
    let board = two_pad_board();
    let a = board.route(&settings()).unwrap();
    let b = board.route(&settings()).unwrap();
    assert_eq!(a.board.wires.len(), b.board.wires.len());
    for (wa, wb) in a.board.wires.iter().zip(b.board.wires.iter()) {
        assert_eq!(wa.net_id, wb.net_id);
        assert_eq!(wa.layer_name, wb.layer_name);
        assert_eq!(wa.start, wb.start);
        assert_eq!(wa.end, wb.end);
    }
    assert_eq!(a.board.vias.len(), b.board.vias.len());
    for (va, vb) in a.board.vias.iter().zip(b.board.vias.iter()) {
        assert_eq!(va.net_id, vb.net_id);
        assert_eq!(va.at, vb.at);
        assert_eq!(va.layers, vb.layers);
    }
    assert_eq!(a.deferred, b.deferred);
}

#[test]
fn test_via_detour() {
    // An existing wire of another net walls off the first layer; the route
    // must change layers through vias and come back.
    let source = "(kicad_pcb \
      (general (thickness 1.6)) \
      (layers (0 \"F.Cu\" signal) (31 \"B.Cu\" signal)) \
      (net 1 \"GND\") (net 2 \"VCC\") \
      (footprint \"R1\" (layer \"F.Cu\") (at 0.0 0.0) \
        (pad \"1\" (at 0.0 0.0) (layers \"F.Cu\") (net 1 \"GND\")) \
        (pad \"2\" (at 5.0 0.0) (layers \"F.Cu\") (net 1 \"GND\"))) \
      (segment (start 3.0 0.0) (end 3.0 2.9) (net 2) (layer \"F.Cu\")) \
    )";
    let board = KicadPcb::load(&parse(source).unwrap()).unwrap();
    let result = board.route(&settings()).unwrap();
    assert_eq!(result.deferred.len(), 0);
    // The detour crosses to the second layer and back: two vias.
    assert_eq!(result.board.vias.len(), 2);
    for via in &result.board.vias {
        assert_eq!(via.net_id, 1);
        // Each via spans exactly the two layers of its transition, listed
        // from the side it was entered.
        let mut names = via.layers.clone();
        names.sort();
        assert_eq!(
            names,
            vec!["\"B.Cu\"".to_string(), "\"F.Cu\"".to_string()]
        );
    }
    // The blocking wire's cells belong to the other net and are untouched:
    // the routed board still carries exactly the one original wire plus the
    // new route's wires.
    assert!(result.board.wires.len() >= 2);
    assert_eq!(result.board.wires[0].net_id, 2);
}

#[test]
fn test_route_rejects_bad_settings() {
    let board = two_pad_board();
    let mut bad = settings();
    bad.via_penalty = 0;
    assert!(board.route(&bad).is_err());
    let mut bad2 = settings();
    bad2.grid_spacing = dec(0, 0);
    assert!(board.route(&bad2).is_err());
}

#[test]
fn test_route() {
    // Routing a loaded board yields a routed copy that keeps everything the
    // original had.
    let board = two_pad_board();
    let routed = board.route(&settings()).unwrap();
    assert_eq!(routed.board.nets.len(), board.nets.len());
    assert_eq!(routed.board.footprints.len(), board.footprints.len());
    assert_eq!(routed.board.layers.len(), board.layers.len());
    assert!(routed.board.wires.len() >= board.wires.len());
}
