//! The typed board model: layers, nets, footprints, pads, wires and vias,
//! each built from a fragment of the parsed tree by a fallible constructor,
//! and the board-level loader that assembles them.

use crate::s_exp_parser::ElemV;
use crate::s_exp_parser::SExpr;
use crate::s_exp_parser::TreeV;
use crate::s_exp_parser::get_spec;
use crate::s_exp_parser::get_value_spec;
use crate::s_exp_parser::name_of;
use crate::s_exp_parser::remove_trivial_spec;
use crate::s_exp_parser::values_of;
use crate::s_exp_parser::subs_of;
use crate::s_exp_parser::view_trees;
use crate::s_exp_parser::view_values;
use crate::value::Decimal;
use crate::value::Value;
use crate::value::ValueV;
use crate::value::value_to_dec;
use crate::value::value_to_int;
use crate::value::value_to_string;
use vstd::prelude::*;

verus! {

pub type NetId = usize;

pub type LayerId = usize;

/// A two-dimensional point in board coordinates.
pub type V2 = [Decimal; 2];

/// Why a board failed to load; flat, one kind per entity.
#[derive(Debug)]
pub enum KicadPcbError {
    IoError(String),
    FileType,
    ParseFail,
    PcbNetFail,
    GeneralFail,
    FootprintFail,
    PadFail,
    WireFail,
    ViaFail,
    NoLayer(String),
    Other(String),
}

/// Whether a layer carries copper the router may use.
#[derive(Debug, Copy, Clone, PartialEq, Eq, Structural)]
pub enum LayerType {
    User,
    Signal,
}

pub open spec fn v2_view(a: V2) -> (Decimal, Decimal) {
    (a[0], a[1])
}

// ---------------------------------------------------------------------------
// Projections from values and fragments.
// ---------------------------------------------------------------------------

pub open spec fn dec_of_value(v: ValueV) -> Option<Decimal> {
    match v {
        ValueV::Int(n) => Some(Decimal { mantissa: n as i64, scale: 0 }),
        ValueV::Dec(m, s) => Some(Decimal { mantissa: m as i64, scale: s as u32 }),
        _ => None,
    }
}

pub open spec fn int_of_value(v: ValueV) -> Option<int> {
    match v {
        ValueV::Int(n) => Some(n),
        _ => None,
    }
}

pub open spec fn text_of_value(v: ValueV) -> Option<Seq<char>> {
    match v {
        ValueV::Text(t) => Some(t),
        _ => None,
    }
}

/// The first fragment tagged `tag`, anywhere in the tree.
pub open spec fn first_frag(t: TreeV, tag: Seq<char>) -> Option<TreeV> {
    let rs = get_spec(t, tag);
    if rs.len() == 0 {
        None
    } else {
        Some(rs[0])
    }
}

/// A 2-D point under `tag`: exactly two numeric values, in order.
pub open spec fn point_spec(t: TreeV, tag: Seq<char>) -> Option<(Decimal, Decimal)> {
    match first_frag(t, tag) {
        None => None,
        Some(f) => {
            let vs = values_of(f.elems);
            if vs.len() != 2 {
                None
            } else {
                match (dec_of_value(vs[0]), dec_of_value(vs[1])) {
                    (Some(a), Some(b)) => Some((a, b)),
                    _ => None,
                }
            }
        },
    }
}

/// The first value under `tag`, read as an integer.
pub open spec fn first_value_int_spec(t: TreeV, tag: Seq<char>) -> Option<int> {
    match first_frag(t, tag) {
        None => None,
        Some(f) => {
            let vs = values_of(f.elems);
            if vs.len() == 0 {
                None
            } else {
                int_of_value(vs[0])
            }
        },
    }
}

/// The first value under `tag`, read as a string.
pub open spec fn first_value_text_spec(t: TreeV, tag: Seq<char>) -> Option<Seq<char>> {
    match first_frag(t, tag) {
        None => None,
        Some(f) => {
            let vs = values_of(f.elems);
            if vs.len() == 0 {
                None
            } else {
                text_of_value(vs[0])
            }
        },
    }
}

/// The string values among `vs`, others skipped.
pub open spec fn texts_of(vs: Seq<ValueV>) -> Seq<Seq<char>>
    decreases vs.len(),
{
    if vs.len() == 0 {
        Seq::empty()
    } else {
        (match vs[0] {
            ValueV::Text(t) => seq![t],
            _ => Seq::<Seq<char>>::empty(),
        }) + texts_of(vs.skip(1))
    }
}

/// All of `vs` as strings, or nothing if any value is not one.
pub open spec fn all_texts_spec(vs: Seq<ValueV>) -> Option<Seq<Seq<char>>>
    decreases vs.len(),
{
    if vs.len() == 0 {
        Some(Seq::<Seq<char>>::empty())
    } else {
        match vs[0] {
            ValueV::Text(t) => match all_texts_spec(vs.skip(1)) {
                Some(r) => Some(seq![t] + r),
                None => None,
            },
            _ => None,
        }
    }
}

pub open spec fn view_strs(ss: Seq<String>) -> Seq<Seq<char>> {
    Seq::new(ss.len(), |i: int| ss[i]@)
}

// ---------------------------------------------------------------------------
// Executable helpers, each pinned to its projection.
// ---------------------------------------------------------------------------

fn get_point(exp: &SExpr, tag: &str) -> (r: Option<(Decimal, Decimal)>)
    ensures
        r == point_spec(exp@, tag@),
{
    let frs = exp.get(tag);
    if frs.len() == 0 {
        proof {
            assert(view_trees(frs@).len() == 0);
        }
        return None;
    }
    proof {
        assert(view_trees(frs@)[0] == frs@[0]@);
    }
    let vs = frs[0].values();
    proof {
        assert(view_values(vs@).len() == vs@.len());
    }
    if vs.len() != 2 {
        return None;
    }
    proof {
        assert(view_values(vs@)[0] == vs@[0]@);
        assert(view_values(vs@)[1] == vs@[1]@);
    }
    let a = value_to_dec(&vs[0]);
    let b = value_to_dec(&vs[1]);
    match (a, b) {
        (Some(x), Some(y)) => Some((x, y)),
        _ => None,
    }
}

fn first_int(exp: &SExpr, tag: &str) -> (r: Option<i64>)
    ensures
        (match r {
            Some(n) => first_value_int_spec(exp@, tag@) == Some(n as int),
            None => first_value_int_spec(exp@, tag@) is None,
        }),
{
    let frs = exp.get(tag);
    if frs.len() == 0 {
        proof {
            assert(view_trees(frs@).len() == 0);
        }
        return None;
    }
    proof {
        assert(view_trees(frs@)[0] == frs@[0]@);
    }
    let vs = frs[0].values();
    proof {
        assert(view_values(vs@).len() == vs@.len());
    }
    if vs.len() == 0 {
        return None;
    }
    proof {
        assert(view_values(vs@)[0] == vs@[0]@);
    }
    value_to_int(&vs[0])
}

fn first_text(exp: &SExpr, tag: &str) -> (r: Option<String>)
    ensures
        (match r {
            Some(s) => first_value_text_spec(exp@, tag@) == Some(s@),
            None => first_value_text_spec(exp@, tag@) is None,
        }),
{
    let frs = exp.get(tag);
    if frs.len() == 0 {
        proof {
            assert(view_trees(frs@).len() == 0);
        }
        return None;
    }
    proof {
        assert(view_trees(frs@)[0] == frs@[0]@);
    }
    let vs = frs[0].values();
    proof {
        assert(view_values(vs@).len() == vs@.len());
    }
    if vs.len() == 0 {
        return None;
    }
    proof {
        assert(view_values(vs@)[0] == vs@[0]@);
    }
    value_to_string(&vs[0])
}

fn all_texts(vals: &Vec<Value>) -> (r: Option<Vec<String>>)
    ensures
        (match r {
            Some(ss) => all_texts_spec(view_values(vals@)) == Some(view_strs(ss@)),
            None => all_texts_spec(view_values(vals@)) is None,
        }),
{
    let ghost vs = view_values(vals@);
    let mut out: Vec<String> = Vec::new();
    let mut i: usize = 0;
    proof {
        assert(vs.skip(0) =~= vs);
        assert(view_strs(out@) =~= Seq::<Seq<char>>::empty());
    }
    while i < vals.len()
        invariant
            i <= vals@.len(),
            vs == view_values(vals@),
            vs.len() == vals@.len(),
            (match all_texts_spec(vs.skip(i as int)) {
                Some(r) => all_texts_spec(vs) == Some(view_strs(out@) + r),
                None => all_texts_spec(vs) is None,
            }),
        decreases vals@.len() - i,
    {
        proof {
            assert(vs.skip(i as int)[0] == vs[i as int]);
            assert(vs[i as int] == vals@[i as int]@);
            assert(vs.skip(i as int).skip(1) =~= vs.skip(i + 1));
        }
        match value_to_string(&vals[i]) {
            Some(s) => {
                let ghost before = out@;
                out.push(s);
                proof {
                    assert forall|k: int| 0 <= k < out@.len() implies view_strs(out@)[k]
                        == (view_strs(before) + seq![vs[i as int]->Text_0])[k] by {
                        assert(view_strs(out@)[k] == out@[k]@);
                        if k < before.len() {
                            assert(out@[k] == before[k]);
                            assert(view_strs(before)[k] == before[k]@);
                        }
                    }
                    assert(view_strs(out@) =~= view_strs(before) + seq![vs[i as int]->Text_0]);
                    if all_texts_spec(vs.skip(i + 1)) is Some {
                        assert((view_strs(before) + seq![vs[i as int]->Text_0]) + all_texts_spec(
                            vs.skip(i + 1),
                        )->Some_0 =~= view_strs(before) + (seq![vs[i as int]->Text_0]
                            + all_texts_spec(vs.skip(i + 1))->Some_0));
                    }
                }
            },
            None => {
                return None;
            },
        }
        i += 1;
    }
    proof {
        assert(vs.skip(vs.len() as int) =~= Seq::<ValueV>::empty());
        assert(view_strs(out@) + Seq::<Seq<char>>::empty() =~= view_strs(out@));
    }
    Some(out)
}

fn filter_texts(vals: &Vec<Value>) -> (r: Vec<String>)
    ensures
        view_strs(r@) == texts_of(view_values(vals@)),
{
    let ghost vs = view_values(vals@);
    let mut out: Vec<String> = Vec::new();
    let mut i: usize = 0;
    proof {
        assert(vs.skip(0) =~= vs);
        assert(view_strs(out@) =~= Seq::<Seq<char>>::empty());
    }
    while i < vals.len()
        invariant
            i <= vals@.len(),
            vs == view_values(vals@),
            vs.len() == vals@.len(),
            view_strs(out@) + texts_of(vs.skip(i as int)) == texts_of(vs),
        decreases vals@.len() - i,
    {
        proof {
            assert(vs.skip(i as int)[0] == vs[i as int]);
            assert(vs[i as int] == vals@[i as int]@);
            assert(vs.skip(i as int).skip(1) =~= vs.skip(i + 1));
        }
        match value_to_string(&vals[i]) {
            Some(s) => {
                let ghost before = out@;
                out.push(s);
                proof {
                    assert forall|k: int| 0 <= k < out@.len() implies view_strs(out@)[k]
                        == (view_strs(before) + seq![vs[i as int]->Text_0])[k] by {
                        assert(view_strs(out@)[k] == out@[k]@);
                        if k < before.len() {
                            assert(out@[k] == before[k]);
                            assert(view_strs(before)[k] == before[k]@);
                        }
                    }
                    assert(view_strs(out@) =~= view_strs(before) + seq![vs[i as int]->Text_0]);
                }
            },
            None => {
                proof {
                    assert(view_strs(out@) + Seq::<Seq<char>>::empty() =~= view_strs(out@));
                }
            },
        }
        i += 1;
    }
    proof {
        assert(vs.skip(vs.len() as int) =~= Seq::<ValueV>::empty());
        assert(view_strs(out@) + Seq::<Seq<char>>::empty() =~= view_strs(out@));
    }
    out
}

// ---------------------------------------------------------------------------
// The entities of the board model, with their views and constructors.
// ---------------------------------------------------------------------------

/// An existing copper trace segment.
#[derive(Debug)]
pub struct Wire {
    pub net_id: NetId,
    pub layer_name: String,
    pub start: V2,
    pub end: V2,
}

pub struct WireV {
    pub net_id: int,
    pub layer_name: Seq<char>,
    pub start: (Decimal, Decimal),
    pub end: (Decimal, Decimal),
}

impl View for Wire {
    type V = WireV;

    open spec fn view(&self) -> WireV {
        WireV {
            net_id: self.net_id as int,
            layer_name: self.layer_name@,
            start: v2_view(self.start),
            end: v2_view(self.end),
        }
    }
}

impl Clone for Wire {
    fn clone(&self) -> (r: Wire)
        ensures
            r@ == self@,
    {
        Wire {
            net_id: self.net_id,
            layer_name: self.layer_name.clone(),
            start: [self.start[0], self.start[1]],
            end: [self.end[0], self.end[1]],
        }
    }
}

/// What a `segment` fragment must hold to make a wire: a start point, an end
/// point, a net id the machine's id type can hold, and a layer name.
pub open spec fn wire_spec(t: TreeV) -> Option<WireV> {
    match point_spec(t, "start"@) {
        None => None,
        Some(start) => match point_spec(t, "end"@) {
            None => None,
            Some(end) => match first_value_int_spec(t, "net"@) {
                None => None,
                Some(n) => if n < 0 || n > usize::MAX {
                    None
                } else {
                    match first_value_text_spec(t, "layer"@) {
                        None => None,
                        Some(ln) => Some(
                            WireV { net_id: n, layer_name: ln, start: start, end: end },
                        ),
                    }
                },
            },
        },
    }
}

impl Wire {
    /// Builds a wire from its tree fragment; any missing or ill-typed field
    /// fails the wire.
    pub fn from_exp(exp: &SExpr) -> (r: Result<Self, KicadPcbError>)
        ensures
            (match r {
                Ok(w) => wire_spec(exp@) == Some(w@),
                Err(e) => wire_spec(exp@) is None && e is WireFail,
            }),
    {
        let start = match get_point(exp, "start") {
            Some(p) => p,
            None => {
                return Err(KicadPcbError::WireFail);
            },
        };
        let end = match get_point(exp, "end") {
            Some(p) => p,
            None => {
                return Err(KicadPcbError::WireFail);
            },
        };
        let n = match first_int(exp, "net") {
            Some(n) => n,
            None => {
                return Err(KicadPcbError::WireFail);
            },
        };
        if n < 0 || (n as u64) > (usize::MAX as u64) {
            return Err(KicadPcbError::WireFail);
        }
        let layer_name = match first_text(exp, "layer") {
            Some(s) => s,
            None => {
                return Err(KicadPcbError::WireFail);
            },
        };
        Ok(
            Wire {
                net_id: n as usize,
                layer_name: layer_name,
                start: [start.0, start.1],
                end: [end.0, end.1],
            },
        )
    }
}

/// An existing via joining copper layers at one point.
#[derive(Debug)]
pub struct Via {
    pub net_id: NetId,
    pub at: V2,
    pub layers: Vec<String>,
}

pub struct ViaV {
    pub net_id: int,
    pub at: (Decimal, Decimal),
    pub layers: Seq<Seq<char>>,
}

impl View for Via {
    type V = ViaV;

    open spec fn view(&self) -> ViaV {
        ViaV { net_id: self.net_id as int, at: v2_view(self.at), layers: view_strs(self.layers@) }
    }
}

impl Clone for Via {
    fn clone(&self) -> (r: Via)
        ensures
            r@ == self@,
    {
        let r = Via {
            net_id: self.net_id,
            at: [self.at[0], self.at[1]],
            layers: clone_strings(&self.layers),
        };
        proof {
            assert(r@.layers =~= self@.layers);
        }
        r
    }
}

fn clone_strings(v: &Vec<String>) -> (r: Vec<String>)
    ensures
        view_strs(r@) == view_strs(v@),
        r@.len() == v@.len(),
{
    let mut out: Vec<String> = Vec::new();
    let mut i: usize = 0;
    while i < v.len()
        invariant
            i <= v@.len(),
            out@.len() == i,
            forall|j: int| 0 <= j < i ==> #[trigger] out@[j]@ == v@[j]@,
        decreases v@.len() - i,
    {
        out.push(v[i].clone());
        i += 1;
    }
    proof {
        assert forall|k: int| 0 <= k < v@.len() implies view_strs(out@)[k] == view_strs(v@)[k] by {
            assert(view_strs(out@)[k] == out@[k]@);
            assert(view_strs(v@)[k] == v@[k]@);
        }
        assert(view_strs(out@) =~= view_strs(v@));
    }
    out
}

/// What a `via` fragment must hold: a point, a net id the machine's id type
/// can hold, and at least two layer names (a via spans two or more copper
/// layers; non-string entries in the list are skipped).
pub open spec fn via_spec(t: TreeV) -> Option<ViaV> {
    match point_spec(t, "at"@) {
        None => None,
        Some(at) => match first_frag(t, "layers"@) {
            None => None,
            Some(f) => {
                let layers = texts_of(values_of(f.elems));
                if layers.len() < 2 {
                    None
                } else {
                    match first_value_int_spec(t, "net"@) {
                        None => None,
                        Some(n) => if n < 0 || n > usize::MAX {
                            None
                        } else {
                            Some(ViaV { net_id: n, at: at, layers: layers })
                        },
                    }
                }
            },
        },
    }
}

impl Via {
    /// Builds a via from its tree fragment; any missing or ill-typed field
    /// fails the via.
    pub fn from_exp(exp: &SExpr) -> (r: Result<Self, KicadPcbError>)
        ensures
            (match r {
                Ok(v) => via_spec(exp@) == Some(v@),
                Err(e) => via_spec(exp@) is None && e is ViaFail,
            }),
    {
        let at = match get_point(exp, "at") {
            Some(p) => p,
            None => {
                return Err(KicadPcbError::ViaFail);
            },
        };
        let frs = exp.get("layers");
        if frs.len() == 0 {
            proof {
                assert(view_trees(frs@).len() == 0);
            }
            return Err(KicadPcbError::ViaFail);
        }
        proof {
            assert(view_trees(frs@)[0] == frs@[0]@);
        }
        let vals = frs[0].values();
        let layers = filter_texts(&vals);
        if layers.len() < 2 {
            proof {
                assert(view_strs(layers@).len() == layers@.len());
            }
            return Err(KicadPcbError::ViaFail);
        }
        proof {
            assert(view_strs(layers@).len() == layers@.len());
        }
        let n = match first_int(exp, "net") {
            Some(n) => n,
            None => {
                return Err(KicadPcbError::ViaFail);
            },
        };
        if n < 0 || (n as u64) > (usize::MAX as u64) {
            return Err(KicadPcbError::ViaFail);
        }
        Ok(Via { net_id: n as usize, at: [at.0, at.1], layers: layers })
    }
}

/// An electrical connection group, declared by id and name.
#[derive(Debug)]
pub struct PcbNet {
    pub id: NetId,
    pub name: String,
}

pub struct NetV {
    pub id: int,
    pub name: Seq<char>,
}

impl View for PcbNet {
    type V = NetV;

    open spec fn view(&self) -> NetV {
        NetV { id: self.id as int, name: self.name@ }
    }
}

impl Clone for PcbNet {
    fn clone(&self) -> (r: PcbNet)
        ensures
            r@ == self@,
    {
        PcbNet { id: self.id, name: self.name.clone() }
    }
}

impl PcbNet {
    /// Equality by id and name, decided executably.
    pub fn eq_net(&self, other: &PcbNet) -> (r: bool)
        ensures
            r == (self@ == other@),
    {
        self.id == other.id && crate::s_exp_parser::str_eq(self.name.as_str(), other.name.as_str())
    }
}

impl PartialEq for PcbNet {
    fn eq(&self, other: &PcbNet) -> bool {
        self.eq_net(other)
    }
}

impl vstd::std_specs::cmp::PartialEqSpecImpl for PcbNet {
    open spec fn obeys_eq_spec() -> bool {
        true
    }

    open spec fn eq_spec(&self, other: &PcbNet) -> bool {
        self@ == other@
    }
}

/// What a `net` fragment must hold: an id the machine's id type can hold,
/// then a name string.
pub open spec fn net_spec(t: TreeV) -> Option<NetV> {
    let vs = values_of(t.elems);
    if vs.len() == 0 {
        None
    } else {
        match int_of_value(vs[0]) {
            None => None,
            Some(n) => if n < 0 || n > usize::MAX || vs.len() < 2 {
                None
            } else {
                match text_of_value(vs[1]) {
                    None => None,
                    Some(nm) => Some(NetV { id: n, name: nm }),
                }
            },
        }
    }
}

impl PcbNet {
    /// Builds a net from its tree fragment. A fragment with no values at all
    /// is reported as unclassified; any other failure is a net failure.
    pub fn from_exp(exp: &SExpr) -> (r: Result<Self, KicadPcbError>)
        ensures
            (match r {
                Ok(n) => net_spec(exp@) == Some(n@),
                Err(e) => net_spec(exp@) is None && (e is Other <==> values_of(exp@.elems).len()
                    == 0) && (e is Other || e is PcbNetFail),
            }),
    {
        let vals = exp.values();
        proof {
            assert(view_values(vals@).len() == vals@.len());
        }
        if vals.len() == 0 {
            return Err(KicadPcbError::Other(exp.print()));
        }
        proof {
            assert(view_values(vals@)[0] == vals@[0]@);
        }
        let n = match value_to_int(&vals[0]) {
            Some(n) => n,
            None => {
                return Err(KicadPcbError::PcbNetFail);
            },
        };
        if n < 0 || (n as u64) > (usize::MAX as u64) || vals.len() < 2 {
            return Err(KicadPcbError::PcbNetFail);
        }
        proof {
            assert(view_values(vals@)[1] == vals@[1]@);
        }
        let name = match value_to_string(&vals[1]) {
            Some(s) => s,
            None => {
                return Err(KicadPcbError::PcbNetFail);
            },
        };
        Ok(PcbNet { id: n as usize, name: name })
    }
}

/// Reserved for stack-up settings; the loader does not read them.
#[derive(Debug)]
pub struct Setup {}

/// One declared board layer.
#[derive(Debug)]
pub struct PcbLayer {
    pub id: LayerId,
    pub name: String,
    pub layer_type: LayerType,
    pub attrib: String,
}

pub struct LayerV {
    pub id: int,
    pub name: Seq<char>,
    pub layer_type: LayerType,
    pub attrib: Seq<char>,
}

impl View for PcbLayer {
    type V = LayerV;

    open spec fn view(&self) -> LayerV {
        LayerV {
            id: self.id as int,
            name: self.name@,
            layer_type: self.layer_type,
            attrib: self.attrib@,
        }
    }
}

impl Clone for PcbLayer {
    fn clone(&self) -> (r: PcbLayer)
        ensures
            r@ == self@,
    {
        PcbLayer {
            id: self.id,
            name: self.name.clone(),
            layer_type: self.layer_type,
            attrib: self.attrib.clone(),
        }
    }
}

/// What a layer fragment must hold: an id the machine's id type can hold, a
/// name, a kind string
/// (`signal` marks copper the router may use), and an optional attribute.
pub open spec fn layer_spec(t: TreeV) -> Option<LayerV> {
    let vs = values_of(t.elems);
    if vs.len() == 0 {
        None
    } else {
        match int_of_value(vs[0]) {
            None => None,
            Some(n) => if n < 0 || n > usize::MAX || vs.len() < 3 {
                None
            } else {
                match (text_of_value(vs[1]), text_of_value(vs[2])) {
                    (Some(nm), Some(kind)) => {
                        let lt = if kind == "signal"@ {
                            LayerType::Signal
                        } else {
                            LayerType::User
                        };
                        if vs.len() >= 4 {
                            match text_of_value(vs[3]) {
                                Some(at) => Some(
                                    LayerV { id: n, name: nm, layer_type: lt, attrib: at },
                                ),
                                None => None,
                            }
                        } else {
                            Some(LayerV { id: n, name: nm, layer_type: lt, attrib: Seq::empty() })
                        }
                    },
                    _ => None,
                }
            },
        }
    }
}

impl PcbLayer {
    /// Builds a layer from its tree fragment; any missing or ill-typed field
    /// fails the layer, naming the fragment's printed form.
    pub fn from_exp(exp: &SExpr) -> (r: Result<Self, KicadPcbError>)
        ensures
            (match r {
                Ok(l) => layer_spec(exp@) == Some(l@),
                Err(e) => layer_spec(exp@) is None && e is NoLayer,
            }),
    {
        let vals = exp.values();
        proof {
            assert(view_values(vals@).len() == vals@.len());
        }
        if vals.len() == 0 {
            return Err(KicadPcbError::NoLayer(exp.print()));
        }
        proof {
            assert(view_values(vals@)[0] == vals@[0]@);
        }
        let n = match value_to_int(&vals[0]) {
            Some(n) => n,
            None => {
                return Err(KicadPcbError::NoLayer(exp.print()));
            },
        };
        if n < 0 || (n as u64) > (usize::MAX as u64) || vals.len() < 3 {
            return Err(KicadPcbError::NoLayer(exp.print()));
        }
        proof {
            assert(view_values(vals@)[1] == vals@[1]@);
            assert(view_values(vals@)[2] == vals@[2]@);
        }
        let name = match value_to_string(&vals[1]) {
            Some(s) => s,
            None => {
                return Err(KicadPcbError::NoLayer(exp.print()));
            },
        };
        let kind = match value_to_string(&vals[2]) {
            Some(s) => s,
            None => {
                return Err(KicadPcbError::NoLayer(exp.print()));
            },
        };
        let layer_type = if crate::s_exp_parser::str_eq(kind.as_str(), "signal") {
            LayerType::Signal
        } else {
            LayerType::User
        };
        let attrib = if vals.len() >= 4 {
            proof {
                assert(view_values(vals@)[3] == vals@[3]@);
            }
            match value_to_string(&vals[3]) {
                Some(s) => s,
                None => {
                    return Err(KicadPcbError::NoLayer(exp.print()));
                },
            }
        } else {
            String::new()
        };
        Ok(PcbLayer { id: n as usize, name: name, layer_type: layer_type, attrib: attrib })
    }
}

/// Board-wide facts; only the thickness is modeled.
#[derive(Debug)]
pub struct PcbGeneral {
    pub thickness: Decimal,
}

impl Clone for PcbGeneral {
    fn clone(&self) -> (r: PcbGeneral)
        ensures
            r@ == self@,
    {
        PcbGeneral { thickness: self.thickness }
    }
}

impl View for PcbGeneral {
    type V = Decimal;

    open spec fn view(&self) -> Decimal {
        self.thickness
    }
}

/// A pad of a footprint: its layer names, its position relative to the
/// footprint, its absolute position, and the net it belongs to.
#[derive(Debug)]
pub struct Pad {
    pub layer: Vec<String>,
    pub at: V2,
    pub abs_at: V2,
    pub net: PcbNet,
}

pub struct PadV {
    pub layer: Seq<Seq<char>>,
    pub at: (Decimal, Decimal),
    pub abs_at: (Decimal, Decimal),
    pub net: NetV,
}

impl View for Pad {
    type V = PadV;

    open spec fn view(&self) -> PadV {
        PadV {
            layer: view_strs(self.layer@),
            at: v2_view(self.at),
            abs_at: v2_view(self.abs_at),
            net: self.net@,
        }
    }
}

impl Clone for Pad {
    fn clone(&self) -> (r: Pad)
        ensures
            r@ == self@,
    {
        let r = Pad {
            layer: clone_strings(&self.layer),
            at: [self.at[0], self.at[1]],
            abs_at: [self.abs_at[0], self.abs_at[1]],
            net: self.net.clone(),
        };
        proof {
            assert(r@.layer =~= self@.layer);
        }
        r
    }
}

/// The net a pad names, or the unconnected net (id 0, empty name) where the
/// pad names none or names it malformedly.
pub open spec fn pad_net_spec(t: TreeV) -> NetV {
    match first_frag(t, "net"@) {
        None => NetV { id: 0, name: Seq::empty() },
        Some(f) => match net_spec(f) {
            Some(n) => n,
            None => NetV { id: 0, name: Seq::empty() },
        },
    }
}

/// What a `pad` fragment must hold: its layer names (all strings) and its
/// position; the absolute position starts equal to the relative one until
/// the owning footprint shifts it.
pub open spec fn pad_spec(t: TreeV) -> Option<PadV> {
    match first_frag(t, "layers"@) {
        None => None,
        Some(f) => match all_texts_spec(values_of(f.elems)) {
            None => None,
            Some(layers) => match point_spec(t, "at"@) {
                None => None,
                Some(at) => Some(PadV { layer: layers, at: at, abs_at: at, net: pad_net_spec(t) }),
            },
        },
    }
}

impl Pad {
    /// Builds a pad from its tree fragment; a missing layer list, a
    /// non-string layer entry, or a bad position fails the pad.
    pub fn from_exp(exp: &SExpr) -> (r: Result<Self, KicadPcbError>)
        ensures
            (match r {
                Ok(p) => pad_spec(exp@) == Some(p@),
                Err(e) => pad_spec(exp@) is None && e is PadFail,
            }),
    {
        let frs = exp.get("layers");
        if frs.len() == 0 {
            proof {
                assert(view_trees(frs@).len() == 0);
            }
            return Err(KicadPcbError::PadFail);
        }
        proof {
            assert(view_trees(frs@)[0] == frs@[0]@);
        }
        let vals = frs[0].values();
        let layers = match all_texts(&vals) {
            Some(ls) => ls,
            None => {
                return Err(KicadPcbError::PadFail);
            },
        };
        let at = match get_point(exp, "at") {
            Some(p) => p,
            None => {
                return Err(KicadPcbError::PadFail);
            },
        };
        let net = pad_net(exp);
        Ok(Pad { layer: layers, at: [at.0, at.1], abs_at: [at.0, at.1], net: net })
    }
}

/// The net a pad names, or the unconnected net.
fn pad_net(exp: &SExpr) -> (r: PcbNet)
    ensures
        r@ == pad_net_spec(exp@),
{
    let frs = exp.get("net");
    if frs.len() == 0 {
        proof {
            assert(view_trees(frs@).len() == 0);
        }
        return PcbNet { id: 0, name: String::new() };
    }
    proof {
        assert(view_trees(frs@)[0] == frs@[0]@);
    }
    match PcbNet::from_exp(&frs[0]) {
        Ok(n) => n,
        Err(_) => PcbNet { id: 0, name: String::new() },
    }
}

/// The placed instance of a component, owning its pads.
#[derive(Debug)]
pub struct Footprint {
    pub name: String,
    pub layer: String,
    pub at: V2,
    pub pads: Vec<Pad>,
}

pub struct FootprintV {
    pub name: Seq<char>,
    pub layer: Seq<char>,
    pub at: (Decimal, Decimal),
    pub pads: Seq<PadV>,
}

pub open spec fn view_pads(ps: Seq<Pad>) -> Seq<PadV> {
    Seq::new(ps.len(), |i: int| ps[i]@)
}

impl View for Footprint {
    type V = FootprintV;

    open spec fn view(&self) -> FootprintV {
        FootprintV {
            name: self.name@,
            layer: self.layer@,
            at: v2_view(self.at),
            pads: view_pads(self.pads@),
        }
    }
}

impl Clone for Footprint {
    fn clone(&self) -> (r: Footprint)
        ensures
            r@ == self@,
    {
        let mut pads: Vec<Pad> = Vec::new();
        let mut i: usize = 0;
        while i < self.pads.len()
            invariant
                i <= self.pads@.len(),
                pads@.len() == i,
                forall|j: int| 0 <= j < i ==> #[trigger] pads@[j]@ == self.pads@[j]@,
            decreases self.pads@.len() - i,
        {
            pads.push(self.pads[i].clone());
            i += 1;
        }
        let r = Footprint {
            name: self.name.clone(),
            layer: self.layer.clone(),
            at: [self.at[0], self.at[1]],
            pads: pads,
        };
        proof {
            assert forall|k: int| 0 <= k < r.pads@.len() implies view_pads(r.pads@)[k] == view_pads(
                self.pads@,
            )[k] by {
                assert(view_pads(r.pads@)[k] == r.pads@[k]@);
                assert(view_pads(self.pads@)[k] == self.pads@[k]@);
            }
            assert(view_pads(r.pads@) =~= view_pads(self.pads@));
        }
        r
    }
}

/// The pads that parse among the `pad` fragments, in order; malformed ones
/// are dropped, so one bad pad does not fail its footprint.
pub open spec fn pads_spec(rs: Seq<TreeV>) -> Seq<PadV>
    decreases rs.len(),
{
    if rs.len() == 0 {
        Seq::empty()
    } else {
        (match pad_spec(rs[0]) {
            Some(p) => seq![p],
            None => Seq::<PadV>::empty(),
        }) + pads_spec(rs.skip(1))
    }
}

/// A pad moved to its absolute position: the footprint's origin plus the
/// pad's own offset; a pad whose shifted position cannot be represented is
/// dropped.
pub open spec fn shift_pad(p: PadV, at: (Decimal, Decimal)) -> Option<PadV> {
    match (crate::value::dec_add_spec(p.abs_at.0, at.0), crate::value::dec_add_spec(
        p.abs_at.1,
        at.1,
    )) {
        (Some(x), Some(y)) => Some(PadV { layer: p.layer, at: p.at, abs_at: (x, y), net: p.net }),
        _ => None,
    }
}

pub open spec fn shift_pads(ps: Seq<PadV>, at: (Decimal, Decimal)) -> Seq<PadV>
    decreases ps.len(),
{
    if ps.len() == 0 {
        Seq::empty()
    } else {
        (match shift_pad(ps[0], at) {
            Some(q) => seq![q],
            None => Seq::<PadV>::empty(),
        }) + shift_pads(ps.skip(1), at)
    }
}

/// What a `footprint` fragment must hold: its name tag, a layer name and a
/// position; its pads are whichever `pad` fragments parse, shifted by the
/// footprint's position.
pub open spec fn footprint_spec(t: TreeV) -> Option<FootprintV> {
    let pads0 = pads_spec(get_spec(t, "pad"@));
    match first_value_text_spec(t, "layer"@) {
        None => None,
        Some(layer) => match point_spec(t, "at"@) {
            None => None,
            Some(at) => Some(
                FootprintV {
                    name: name_of(t),
                    layer: layer,
                    at: at,
                    pads: shift_pads(pads0, at),
                },
            ),
        },
    }
}

fn collect_pads(frs: &Vec<SExpr>) -> (r: Vec<Pad>)
    ensures
        view_pads(r@) == pads_spec(view_trees(frs@)),
{
    let ghost rs = view_trees(frs@);
    let mut out: Vec<Pad> = Vec::new();
    let mut i: usize = 0;
    proof {
        assert(rs.skip(0) =~= rs);
        assert(view_pads(out@) =~= Seq::<PadV>::empty());
    }
    while i < frs.len()
        invariant
            i <= frs@.len(),
            rs == view_trees(frs@),
            rs.len() == frs@.len(),
            view_pads(out@) + pads_spec(rs.skip(i as int)) == pads_spec(rs),
        decreases frs@.len() - i,
    {
        proof {
            assert(rs.skip(i as int)[0] == rs[i as int]);
            assert(rs[i as int] == frs@[i as int]@);
            assert(rs.skip(i as int).skip(1) =~= rs.skip(i + 1));
        }
        match Pad::from_exp(&frs[i]) {
            Ok(p) => {
                let ghost before = out@;
                let ghost pv = p@;
                out.push(p);
                proof {
                    assert forall|k: int| 0 <= k < out@.len() implies view_pads(out@)[k]
                        == (view_pads(before) + seq![pv])[k] by {
                        assert(view_pads(out@)[k] == out@[k]@);
                        if k < before.len() {
                            assert(out@[k] == before[k]);
                            assert(view_pads(before)[k] == before[k]@);
                        }
                    }
                    assert(view_pads(out@) =~= view_pads(before) + seq![pv]);
                }
            },
            Err(_) => {
                proof {
                    assert(view_pads(out@) + Seq::<PadV>::empty() =~= view_pads(out@));
                }
            },
        }
        i += 1;
    }
    proof {
        assert(rs.skip(rs.len() as int) =~= Seq::<TreeV>::empty());
        assert(view_pads(out@) + Seq::<PadV>::empty() =~= view_pads(out@));
    }
    out
}

fn shift_pads_exec(pads: Vec<Pad>, at: (Decimal, Decimal)) -> (r: Vec<Pad>)
    ensures
        view_pads(r@) == shift_pads(view_pads(pads@), at),
{
    let ghost ps = view_pads(pads@);
    let mut out: Vec<Pad> = Vec::new();
    let mut i: usize = 0;
    proof {
        assert(ps.skip(0) =~= ps);
        assert(view_pads(out@) =~= Seq::<PadV>::empty());
    }
    while i < pads.len()
        invariant
            i <= pads@.len(),
            ps == view_pads(pads@),
            ps.len() == pads@.len(),
            view_pads(out@) + shift_pads(ps.skip(i as int), at) == shift_pads(ps, at),
        decreases pads@.len() - i,
    {
        proof {
            assert(ps.skip(i as int)[0] == ps[i as int]);
            assert(ps[i as int] == pads@[i as int]@);
            assert(ps.skip(i as int).skip(1) =~= ps.skip(i + 1));
        }
        let p = &pads[i];
        let sx = crate::value::dec_add(p.abs_at[0], at.0);
        let sy = crate::value::dec_add(p.abs_at[1], at.1);
        match (sx, sy) {
            (Some(x), Some(y)) => {
                let q = Pad {
                    layer: clone_strings(&p.layer),
                    at: [p.at[0], p.at[1]],
                    abs_at: [x, y],
                    net: p.net.clone(),
                };
                let ghost before = out@;
                let ghost qv = q@;
                proof {
                    assert(qv.layer =~= ps[i as int].layer);
                    assert(qv == shift_pad(ps[i as int], at)->Some_0);
                }
                out.push(q);
                proof {
                    assert forall|k: int| 0 <= k < out@.len() implies view_pads(out@)[k]
                        == (view_pads(before) + seq![qv])[k] by {
                        assert(view_pads(out@)[k] == out@[k]@);
                        if k < before.len() {
                            assert(out@[k] == before[k]);
                            assert(view_pads(before)[k] == before[k]@);
                        }
                    }
                    assert(view_pads(out@) =~= view_pads(before) + seq![qv]);
                }
            },
            _ => {
                proof {
                    assert(view_pads(out@) + Seq::<PadV>::empty() =~= view_pads(out@));
                }
            },
        }
        i += 1;
    }
    proof {
        assert(ps.skip(ps.len() as int) =~= Seq::<PadV>::empty());
        assert(view_pads(out@) + Seq::<PadV>::empty() =~= view_pads(out@));
    }
    out
}

proof fn lemma_pads_spec_len(rs: Seq<TreeV>)
    ensures
        pads_spec(rs).len() <= rs.len(),
    decreases rs.len(),
{
    if rs.len() > 0 {
        lemma_pads_spec_len(rs.skip(1));
    }
}

/// How many `pad` fragments of a footprint fragment are malformed and so
/// dropped by the leniency policy: the diagnostic count for what
/// [`Footprint::from_exp`] silently omits.
pub fn dropped_pads(exp: &SExpr) -> (r: usize)
    ensures
        r as int == get_spec(exp@, "pad"@).len() - pads_spec(get_spec(exp@, "pad"@)).len(),
{
    let frs = exp.get("pad");
    let pads = collect_pads(&frs);
    proof {
        lemma_pads_spec_len(view_trees(frs@));
        assert(view_pads(pads@).len() == pads@.len());
        assert(view_trees(frs@).len() == frs@.len());
    }
    frs.len() - pads.len()
}

proof fn lemma_parsed_nets_len(rs: Seq<TreeV>)
    ensures
        parsed_nets(rs).len() <= rs.len(),
    decreases rs.len(),
{
    if rs.len() > 0 {
        lemma_parsed_nets_len(rs.skip(1));
    }
}

impl Footprint {
    /// Builds a footprint from its tree fragment: a missing layer or
    /// position fails the footprint; a malformed pad is merely dropped.
    pub fn from_exp(exp: &SExpr) -> (r: Result<Self, KicadPcbError>)
        ensures
            (match r {
                Ok(f) => footprint_spec(exp@) == Some(f@),
                Err(e) => footprint_spec(exp@) is None && e is FootprintFail,
            }),
    {
        let name = exp.get_name();
        let frs = exp.get("pad");
        let pads = collect_pads(&frs);
        let layer = match first_text(exp, "layer") {
            Some(s) => s,
            None => {
                return Err(KicadPcbError::FootprintFail);
            },
        };
        let at = match get_point(exp, "at") {
            Some(p) => p,
            None => {
                return Err(KicadPcbError::FootprintFail);
            },
        };
        let shifted = shift_pads_exec(pads, at);
        Ok(Footprint { name: name, layer: layer, at: [at.0, at.1], pads: shifted })
    }
}

// ---------------------------------------------------------------------------
// The board-level sections.
// ---------------------------------------------------------------------------

/// The first `general` fragment that carries a decimal `thickness`.
pub open spec fn find_general(rs: Seq<TreeV>) -> Option<Decimal>
    decreases rs.len(),
{
    if rs.len() == 0 {
        None
    } else {
        match get_value_spec(rs[0], "thickness"@) {
            Some(v) => match v {
                ValueV::Dec(m, s) => Some(Decimal { mantissa: m as i64, scale: s as u32 }),
                _ => find_general(rs.skip(1)),
            },
            None => find_general(rs.skip(1)),
        }
    }
}

pub open spec fn general_spec(t: TreeV) -> Option<Decimal> {
    find_general(get_spec(t, "general"@))
}

/// All layer fragments parsed, or the first failure.
pub open spec fn layers_spec(rs: Seq<TreeV>) -> Option<Seq<LayerV>>
    decreases rs.len(),
{
    if rs.len() == 0 {
        Some(Seq::<LayerV>::empty())
    } else {
        match layer_spec(rs[0]) {
            None => None,
            Some(l) => match layers_spec(rs.skip(1)) {
                None => None,
                Some(r) => Some(seq![l] + r),
            },
        }
    }
}

/// The declared layers: the subtrees of the first `layers` fragment, each
/// parsed; a missing section or a malformed layer fails the list.
pub open spec fn board_layers_spec(t: TreeV) -> Option<Seq<LayerV>> {
    match first_frag(t, "layers"@) {
        None => None,
        Some(f) => layers_spec(subs_of(f.elems)),
    }
}

/// The nets that parse among the `net` fragments, in order of mention.
pub open spec fn parsed_nets(rs: Seq<TreeV>) -> Seq<NetV>
    decreases rs.len(),
{
    if rs.len() == 0 {
        Seq::empty()
    } else {
        (match net_spec(rs[0]) {
            Some(n) => seq![n],
            None => Seq::<NetV>::empty(),
        }) + parsed_nets(rs.skip(1))
    }
}

pub open spec fn contains_net(ns: Seq<NetV>, n: NetV) -> bool {
    exists|i: int| 0 <= i < ns.len() && ns[i] == n
}

/// Mentions collapsed: each net kept once, at its first mention, in order.
pub open spec fn dedup_nets(ns: Seq<NetV>) -> Seq<NetV>
    decreases ns.len(),
{
    if ns.len() == 0 {
        Seq::empty()
    } else {
        let prev = dedup_nets(ns.drop_last());
        if contains_net(prev, ns.last()) {
            prev
        } else {
            prev.push(ns.last())
        }
    }
}

/// The nets of a board: every mention anywhere in the tree counts as a
/// declaration, and repeated mentions of the same id and name collapse to
/// one entry.
pub open spec fn nets_spec(t: TreeV) -> Seq<NetV> {
    dedup_nets(parsed_nets(get_spec(t, "net"@)))
}

/// Net deduplication leaves no duplicates: any two distinct entries of the
/// deduplicated list differ in id or name.
pub proof fn lemma_dedup_nets_no_dup(ns: Seq<NetV>)
    ensures
        forall|i: int, j: int| 0 <= i < j < dedup_nets(ns).len() ==> dedup_nets(ns)[i]
            != dedup_nets(ns)[j],
    decreases ns.len(),
{
    if ns.len() > 0 {
        lemma_dedup_nets_no_dup(ns.drop_last());
        let prev = dedup_nets(ns.drop_last());
        if !contains_net(prev, ns.last()) {
            assert forall|i: int, j: int|
                0 <= i < j < dedup_nets(ns).len() implies dedup_nets(ns)[i] != dedup_nets(
                ns,
            )[j] by {
                if j == dedup_nets(ns).len() - 1 {
                    assert(dedup_nets(ns)[i] == prev[i]);
                    assert(!contains_net(prev, ns.last()));
                }
            }
        }
    }
}

/// Net deduplication loses no net and invents none: a net stands in the
/// deduplicated list exactly when some mention of it stood in the input.
pub proof fn lemma_dedup_nets_complete(ns: Seq<NetV>, n: NetV)
    ensures
        contains_net(dedup_nets(ns), n) <==> contains_net(ns, n),
    decreases ns.len(),
{
    if ns.len() > 0 {
        lemma_dedup_nets_complete(ns.drop_last(), n);
        let prev = dedup_nets(ns.drop_last());
        if contains_net(ns, n) {
            if n == ns.last() {
                if contains_net(prev, ns.last()) {
                    assert(contains_net(dedup_nets(ns), n));
                } else {
                    assert(dedup_nets(ns).last() == n);
                    assert(contains_net(dedup_nets(ns), n));
                }
            } else {
                let w = choose|i: int| 0 <= i < ns.len() && ns[i] == n;
                if w < ns.len() - 1 {
                    assert(ns.drop_last()[w] == n);
                    assert(contains_net(ns.drop_last(), n));
                    let w2 = choose|i: int| 0 <= i < prev.len() && prev[i] == n;
                    if contains_net(prev, ns.last()) {
                        assert(dedup_nets(ns)[w2] == n);
                    } else {
                        assert(dedup_nets(ns)[w2] == n);
                    }
                }
            }
        }
        if contains_net(dedup_nets(ns), n) {
            let w = choose|i: int| 0 <= i < dedup_nets(ns).len() && dedup_nets(ns)[i] == n;
            if contains_net(prev, ns.last()) {
                assert(prev[w] == n);
                let w3 = choose|i: int| 0 <= i < ns.drop_last().len() && ns.drop_last()[i] == n;
                assert(ns[w3] == n);
            } else {
                if w < prev.len() {
                    assert(prev[w] == n);
                    let w3 = choose|i: int| 0 <= i < ns.drop_last().len() && ns.drop_last()[i]
                        == n;
                    assert(ns[w3] == n);
                } else {
                    assert(n == ns.last());
                    assert(ns[ns.len() - 1] == n);
                }
            }
        }
    }
}

pub open spec fn footprints_spec(rs: Seq<TreeV>) -> Option<Seq<FootprintV>>
    decreases rs.len(),
{
    if rs.len() == 0 {
        Some(Seq::<FootprintV>::empty())
    } else {
        match footprint_spec(rs[0]) {
            None => None,
            Some(f) => match footprints_spec(rs.skip(1)) {
                None => None,
                Some(r) => Some(seq![f] + r),
            },
        }
    }
}

pub open spec fn board_footprints_spec(t: TreeV) -> Option<Seq<FootprintV>> {
    footprints_spec(get_spec(t, "footprint"@))
}

pub open spec fn wires_spec(rs: Seq<TreeV>) -> Option<Seq<WireV>>
    decreases rs.len(),
{
    if rs.len() == 0 {
        Some(Seq::<WireV>::empty())
    } else {
        match wire_spec(rs[0]) {
            None => None,
            Some(w) => match wires_spec(rs.skip(1)) {
                None => None,
                Some(r) => Some(seq![w] + r),
            },
        }
    }
}

pub open spec fn board_wires_spec(t: TreeV) -> Option<Seq<WireV>> {
    wires_spec(get_spec(t, "segment"@))
}

pub open spec fn vias_spec(rs: Seq<TreeV>) -> Option<Seq<ViaV>>
    decreases rs.len(),
{
    if rs.len() == 0 {
        Some(Seq::<ViaV>::empty())
    } else {
        match via_spec(rs[0]) {
            None => None,
            Some(v) => match vias_spec(rs.skip(1)) {
                None => None,
                Some(r) => Some(seq![v] + r),
            },
        }
    }
}

pub open spec fn board_vias_spec(t: TreeV) -> Option<Seq<ViaV>> {
    vias_spec(get_spec(t, "via"@))
}

pub open spec fn view_nets(ns: Seq<PcbNet>) -> Seq<NetV> {
    Seq::new(ns.len(), |i: int| ns[i]@)
}

pub open spec fn view_layers(ls: Seq<PcbLayer>) -> Seq<LayerV> {
    Seq::new(ls.len(), |i: int| ls[i]@)
}

pub open spec fn view_footprints(fs: Seq<Footprint>) -> Seq<FootprintV> {
    Seq::new(fs.len(), |i: int| fs[i]@)
}

pub open spec fn view_wires(ws: Seq<Wire>) -> Seq<WireV> {
    Seq::new(ws.len(), |i: int| ws[i]@)
}

pub open spec fn view_vias(vs: Seq<Via>) -> Seq<ViaV> {
    Seq::new(vs.len(), |i: int| vs[i]@)
}

/// The first `general` fragment carrying a decimal `thickness`, as the
/// board's general section.
#[verifier::loop_isolation(false)]
pub fn get_general(exp: &SExpr) -> (r: Result<PcbGeneral, KicadPcbError>)
    ensures
        (match r {
            Ok(g) => general_spec(exp@) == Some(g@),
            Err(e) => general_spec(exp@) is None && e is GeneralFail,
        }),
{
    let frs = exp.get("general");
    let ghost rs = view_trees(frs@);
    let mut i: usize = 0;
    proof {
        assert(rs.skip(0) =~= rs);
    }
    while i < frs.len()
        invariant
            i <= frs@.len(),
            rs == view_trees(frs@),
            rs.len() == frs@.len(),
            find_general(rs) == find_general(rs.skip(i as int)),
        decreases frs@.len() - i,
    {
        proof {
            assert(rs.skip(i as int)[0] == rs[i as int]);
            assert(rs[i as int] == frs@[i as int]@);
            assert(rs.skip(i as int).skip(1) =~= rs.skip(i + 1));
        }
        match frs[i].get_value("thickness") {
            Some(v) => {
                match v {
                    Value::Dec(d) => {
                        proof {
                            assert(get_value_spec(rs[i as int], "thickness"@) == Some(
                                ValueV::Dec(d.mantissa as int, d.scale as nat),
                            ));
                            assert(find_general(rs.skip(i as int)) == Some(d));
                        }
                        return Ok(PcbGeneral { thickness: d });
                    },
                    _ => {},
                }
            },
            None => {},
        }
        i += 1;
    }
    proof {
        assert(rs.skip(rs.len() as int) =~= Seq::<TreeV>::empty());
    }
    Err(KicadPcbError::GeneralFail)
}

/// The declared layers: the subtrees of the first `layers` fragment, each
/// parsed; a missing section or one malformed layer fails the whole list.
#[verifier::loop_isolation(false)]
pub fn get_layers(exp: &SExpr) -> (r: Result<Vec<PcbLayer>, KicadPcbError>)
    ensures
        (match r {
            Ok(ls) => board_layers_spec(exp@) == Some(view_layers(ls@)),
            Err(e) => board_layers_spec(exp@) is None && e is NoLayer,
        }),
{
    let frs = exp.get("layers");
    if frs.len() == 0 {
        proof {
            assert(view_trees(frs@).len() == 0);
        }
        return Err(KicadPcbError::NoLayer(String::new()));
    }
    proof {
        assert(view_trees(frs@)[0] == frs@[0]@);
    }
    let subs = frs[0].sub_expressions();
    let ghost rs = view_trees(subs@);
    let mut out: Vec<PcbLayer> = Vec::new();
    let mut i: usize = 0;
    proof {
        assert(rs.skip(0) =~= rs);
    }
    while i < subs.len()
        invariant
            i <= subs@.len(),
            rs == view_trees(subs@),
            rs.len() == subs@.len(),
            view_layers(out@).len() == i,
            (match layers_spec(rs.skip(i as int)) {
                Some(rest) => layers_spec(rs) == Some(view_layers(out@) + rest),
                None => layers_spec(rs) is None,
            }),
        decreases subs@.len() - i,
    {
        proof {
            assert(rs.skip(i as int)[0] == rs[i as int]);
            assert(rs[i as int] == subs@[i as int]@);
            assert(rs.skip(i as int).skip(1) =~= rs.skip(i + 1));
        }
        match PcbLayer::from_exp(&subs[i]) {
            Ok(l) => {
                let ghost before = out@;
                let ghost lv = l@;
                out.push(l);
                proof {
                    assert forall|k: int| 0 <= k < out@.len() implies view_layers(out@)[k]
                        == (view_layers(before) + seq![lv])[k] by {
                        assert(view_layers(out@)[k] == out@[k]@);
                        if k < before.len() {
                            assert(out@[k] == before[k]);
                            assert(view_layers(before)[k] == before[k]@);
                        }
                    }
                    assert(view_layers(out@) =~= view_layers(before) + seq![lv]);
                    if layers_spec(rs.skip(i + 1)) is Some {
                        assert((view_layers(before) + seq![lv]) + layers_spec(
                            rs.skip(i + 1),
                        )->Some_0 =~= view_layers(before) + (seq![lv] + layers_spec(
                            rs.skip(i + 1),
                        )->Some_0));
                    }
                }
            },
            Err(e) => {
                return Err(e);
            },
        }
        i += 1;
    }
    proof {
        assert(rs.skip(rs.len() as int) =~= Seq::<TreeV>::empty());
        assert(view_layers(out@) + Seq::<LayerV>::empty() =~= view_layers(out@));
    }
    Ok(out)
}

fn nets_contain(ns: &Vec<PcbNet>, n: &PcbNet) -> (r: bool)
    ensures
        r == contains_net(view_nets(ns@), n@),
{
    let mut i: usize = 0;
    while i < ns.len()
        invariant
            i <= ns@.len(),
            forall|j: int| 0 <= j < i ==> view_nets(ns@)[j] != n@,
        decreases ns@.len() - i,
    {
        proof {
            assert(view_nets(ns@)[i as int] == ns@[i as int]@);
        }
        if ns[i].eq_net(n) {
            return true;
        }
        i += 1;
    }
    proof {
        assert(view_nets(ns@).len() == ns@.len());
    }
    false
}

/// Every net mentioned anywhere in the tree, parsed leniently (malformed
/// mentions are dropped) and deduplicated by id and name. Never fails.
#[verifier::loop_isolation(false)]
pub fn get_nets(exp: &SExpr) -> (r: Result<Vec<PcbNet>, KicadPcbError>)
    ensures
        (match r {
            Ok(ns) => view_nets(ns@) == nets_spec(exp@),
            Err(_) => false,
        }),
{
    let frs = exp.get("net");
    let ghost rs = view_trees(frs@);
    let mut parsed: Vec<PcbNet> = Vec::new();
    let mut i: usize = 0;
    proof {
        assert(rs.skip(0) =~= rs);
        assert(view_nets(parsed@) =~= Seq::<NetV>::empty());
    }
    while i < frs.len()
        invariant
            i <= frs@.len(),
            rs == view_trees(frs@),
            rs.len() == frs@.len(),
            view_nets(parsed@) + parsed_nets(rs.skip(i as int)) == parsed_nets(rs),
        decreases frs@.len() - i,
    {
        proof {
            assert(rs.skip(i as int)[0] == rs[i as int]);
            assert(rs[i as int] == frs@[i as int]@);
            assert(rs.skip(i as int).skip(1) =~= rs.skip(i + 1));
        }
        match PcbNet::from_exp(&frs[i]) {
            Ok(n) => {
                let ghost before = parsed@;
                let ghost nv = n@;
                parsed.push(n);
                proof {
                    assert forall|k: int| 0 <= k < parsed@.len() implies view_nets(parsed@)[k]
                        == (view_nets(before) + seq![nv])[k] by {
                        assert(view_nets(parsed@)[k] == parsed@[k]@);
                        if k < before.len() {
                            assert(parsed@[k] == before[k]);
                            assert(view_nets(before)[k] == before[k]@);
                        }
                    }
                    assert(view_nets(parsed@) =~= view_nets(before) + seq![nv]);
                }
            },
            Err(_) => {
                proof {
                    assert(view_nets(parsed@) + Seq::<NetV>::empty() =~= view_nets(parsed@));
                }
            },
        }
        i += 1;
    }
    proof {
        assert(rs.skip(rs.len() as int) =~= Seq::<TreeV>::empty());
        assert(view_nets(parsed@) + Seq::<NetV>::empty() =~= view_nets(parsed@));
    }
    let ghost all = view_nets(parsed@);
    let mut nets: Vec<PcbNet> = Vec::new();
    let mut k: usize = 0;
    proof {
        assert(all.take(0) =~= Seq::<NetV>::empty());
        assert(view_nets(nets@) =~= dedup_nets(all.take(0)));
    }
    while k < parsed.len()
        invariant
            k <= parsed@.len(),
            all == view_nets(parsed@),
            all.len() == parsed@.len(),
            view_nets(nets@) == dedup_nets(all.take(k as int)),
        decreases parsed@.len() - k,
    {
        proof {
            assert(all.take(k + 1).drop_last() =~= all.take(k as int));
            assert(all.take(k + 1).last() == all[k as int]);
            assert(all[k as int] == parsed@[k as int]@);
        }
        if !nets_contain(&nets, &parsed[k]) {
            let ghost before = nets@;
            let n = parsed[k].clone();
            let ghost nv = n@;
            nets.push(n);
            proof {
                assert forall|j: int| 0 <= j < nets@.len() implies view_nets(nets@)[j]
                    == (view_nets(before).push(nv))[j] by {
                    assert(view_nets(nets@)[j] == nets@[j]@);
                    if j < before.len() {
                        assert(nets@[j] == before[j]);
                        assert(view_nets(before)[j] == before[j]@);
                    }
                }
                assert(view_nets(nets@) =~= view_nets(before).push(nv));
            }
        }
        k += 1;
    }
    proof {
        assert(all.take(all.len() as int) =~= all);
    }
    Ok(nets)
}

/// How many `net` mentions anywhere in the tree are malformed and so
/// dropped by the leniency policy: the diagnostic count for what
/// [`get_nets`] silently omits before deduplication.
#[verifier::loop_isolation(false)]
pub fn dropped_net_mentions(exp: &SExpr) -> (r: usize)
    ensures
        r as int == get_spec(exp@, "net"@).len() - parsed_nets(get_spec(exp@, "net"@)).len(),
{
    let frs = exp.get("net");
    let ghost rs = view_trees(frs@);
    proof {
        lemma_parsed_nets_len(rs);
        assert(rs.len() == frs@.len());
    }
    let mut ok: usize = 0;
    let mut i: usize = 0;
    proof {
        assert(rs.skip(0) =~= rs);
    }
    while i < frs.len()
        invariant
            i <= frs@.len(),
            ok <= i,
            ok as int + parsed_nets(rs.skip(i as int)).len() == parsed_nets(rs).len(),
        decreases frs@.len() - i,
    {
        proof {
            assert(rs.skip(i as int)[0] == rs[i as int]);
            assert(rs[i as int] == frs@[i as int]@);
            assert(rs.skip(i as int).skip(1) =~= rs.skip(i + 1));
        }
        match PcbNet::from_exp(&frs[i]) {
            Ok(_) => {
                ok += 1;
            },
            Err(_) => {},
        }
        i += 1;
    }
    proof {
        assert(rs.skip(rs.len() as int) =~= Seq::<TreeV>::empty());
    }
    frs.len() - ok
}

/// Every footprint fragment parsed; the first malformed one fails the list.
#[verifier::loop_isolation(false)]
pub fn get_footprints(exp: &SExpr) -> (r: Result<Vec<Footprint>, KicadPcbError>)
    ensures
        (match r {
            Ok(fs) => board_footprints_spec(exp@) == Some(view_footprints(fs@)),
            Err(e) => board_footprints_spec(exp@) is None && e is FootprintFail,
        }),
{
    let frs = exp.get("footprint");
    let ghost rs = view_trees(frs@);
    let mut out: Vec<Footprint> = Vec::new();
    let mut i: usize = 0;
    proof {
        assert(rs.skip(0) =~= rs);
    }
    while i < frs.len()
        invariant
            i <= frs@.len(),
            rs == view_trees(frs@),
            rs.len() == frs@.len(),
            (match footprints_spec(rs.skip(i as int)) {
                Some(rest) => footprints_spec(rs) == Some(view_footprints(out@) + rest),
                None => footprints_spec(rs) is None,
            }),
        decreases frs@.len() - i,
    {
        proof {
            assert(rs.skip(i as int)[0] == rs[i as int]);
            assert(rs[i as int] == frs@[i as int]@);
            assert(rs.skip(i as int).skip(1) =~= rs.skip(i + 1));
        }
        match Footprint::from_exp(&frs[i]) {
            Ok(f) => {
                let ghost before = out@;
                let ghost fv = f@;
                out.push(f);
                proof {
                    assert forall|k: int| 0 <= k < out@.len() implies view_footprints(out@)[k]
                        == (view_footprints(before) + seq![fv])[k] by {
                        assert(view_footprints(out@)[k] == out@[k]@);
                        if k < before.len() {
                            assert(out@[k] == before[k]);
                            assert(view_footprints(before)[k] == before[k]@);
                        }
                    }
                    assert(view_footprints(out@) =~= view_footprints(before) + seq![fv]);
                    if footprints_spec(rs.skip(i + 1)) is Some {
                        assert((view_footprints(before) + seq![fv]) + footprints_spec(
                            rs.skip(i + 1),
                        )->Some_0 =~= view_footprints(before) + (seq![fv] + footprints_spec(
                            rs.skip(i + 1),
                        )->Some_0));
                    }
                }
            },
            Err(e) => {
                return Err(e);
            },
        }
        i += 1;
    }
    proof {
        assert(rs.skip(rs.len() as int) =~= Seq::<TreeV>::empty());
        assert(view_footprints(out@) + Seq::<FootprintV>::empty() =~= view_footprints(out@));
    }
    Ok(out)
}

/// Every `segment` fragment parsed as a wire; the first malformed one fails
/// the list.
#[verifier::loop_isolation(false)]
pub fn get_wires(exp: &SExpr) -> (r: Result<Vec<Wire>, KicadPcbError>)
    ensures
        (match r {
            Ok(ws) => board_wires_spec(exp@) == Some(view_wires(ws@)),
            Err(e) => board_wires_spec(exp@) is None && e is WireFail,
        }),
{
    let frs = exp.get("segment");
    let ghost rs = view_trees(frs@);
    let mut out: Vec<Wire> = Vec::new();
    let mut i: usize = 0;
    proof {
        assert(rs.skip(0) =~= rs);
    }
    while i < frs.len()
        invariant
            i <= frs@.len(),
            rs == view_trees(frs@),
            rs.len() == frs@.len(),
            (match wires_spec(rs.skip(i as int)) {
                Some(rest) => wires_spec(rs) == Some(view_wires(out@) + rest),
                None => wires_spec(rs) is None,
            }),
        decreases frs@.len() - i,
    {
        proof {
            assert(rs.skip(i as int)[0] == rs[i as int]);
            assert(rs[i as int] == frs@[i as int]@);
            assert(rs.skip(i as int).skip(1) =~= rs.skip(i + 1));
        }
        match Wire::from_exp(&frs[i]) {
            Ok(w) => {
                let ghost before = out@;
                let ghost wv = w@;
                out.push(w);
                proof {
                    assert forall|k: int| 0 <= k < out@.len() implies view_wires(out@)[k]
                        == (view_wires(before) + seq![wv])[k] by {
                        assert(view_wires(out@)[k] == out@[k]@);
                        if k < before.len() {
                            assert(out@[k] == before[k]);
                            assert(view_wires(before)[k] == before[k]@);
                        }
                    }
                    assert(view_wires(out@) =~= view_wires(before) + seq![wv]);
                    if wires_spec(rs.skip(i + 1)) is Some {
                        assert((view_wires(before) + seq![wv]) + wires_spec(
                            rs.skip(i + 1),
                        )->Some_0 =~= view_wires(before) + (seq![wv] + wires_spec(
                            rs.skip(i + 1),
                        )->Some_0));
                    }
                }
            },
            Err(e) => {
                return Err(e);
            },
        }
        i += 1;
    }
    proof {
        assert(rs.skip(rs.len() as int) =~= Seq::<TreeV>::empty());
        assert(view_wires(out@) + Seq::<WireV>::empty() =~= view_wires(out@));
    }
    Ok(out)
}

/// Every `via` fragment parsed; the first malformed one fails the list.
#[verifier::loop_isolation(false)]
pub fn get_vias(exp: &SExpr) -> (r: Result<Vec<Via>, KicadPcbError>)
    ensures
        (match r {
            Ok(vs) => board_vias_spec(exp@) == Some(view_vias(vs@)),
            Err(e) => board_vias_spec(exp@) is None && e is ViaFail,
        }),
{
    let frs = exp.get("via");
    let ghost rs = view_trees(frs@);
    let mut out: Vec<Via> = Vec::new();
    let mut i: usize = 0;
    proof {
        assert(rs.skip(0) =~= rs);
    }
    while i < frs.len()
        invariant
            i <= frs@.len(),
            rs == view_trees(frs@),
            rs.len() == frs@.len(),
            (match vias_spec(rs.skip(i as int)) {
                Some(rest) => vias_spec(rs) == Some(view_vias(out@) + rest),
                None => vias_spec(rs) is None,
            }),
        decreases frs@.len() - i,
    {
        proof {
            assert(rs.skip(i as int)[0] == rs[i as int]);
            assert(rs[i as int] == frs@[i as int]@);
            assert(rs.skip(i as int).skip(1) =~= rs.skip(i + 1));
        }
        match Via::from_exp(&frs[i]) {
            Ok(v) => {
                let ghost before = out@;
                let ghost vv = v@;
                out.push(v);
                proof {
                    assert forall|k: int| 0 <= k < out@.len() implies view_vias(out@)[k]
                        == (view_vias(before) + seq![vv])[k] by {
                        assert(view_vias(out@)[k] == out@[k]@);
                        if k < before.len() {
                            assert(out@[k] == before[k]);
                            assert(view_vias(before)[k] == before[k]@);
                        }
                    }
                    assert(view_vias(out@) =~= view_vias(before) + seq![vv]);
                    if vias_spec(rs.skip(i + 1)) is Some {
                        assert((view_vias(before) + seq![vv]) + vias_spec(
                            rs.skip(i + 1),
                        )->Some_0 =~= view_vias(before) + (seq![vv] + vias_spec(
                            rs.skip(i + 1),
                        )->Some_0));
                    }
                }
            },
            Err(e) => {
                return Err(e);
            },
        }
        i += 1;
    }
    proof {
        assert(rs.skip(rs.len() as int) =~= Seq::<TreeV>::empty());
        assert(view_vias(out@) + Seq::<ViaV>::empty() =~= view_vias(out@));
    }
    Ok(out)
}

// ---------------------------------------------------------------------------
// The board itself.
// ---------------------------------------------------------------------------

/// The routing-relevant parts of a board; not a complete representation of
/// the source file.
#[derive(Debug)]
pub struct KicadPcb {
    pub general: PcbGeneral,
    pub layers: Vec<PcbLayer>,
    pub nets: Vec<PcbNet>,
    pub footprints: Vec<Footprint>,
    pub wires: Vec<Wire>,
    pub vias: Vec<Via>,
}

pub struct PcbV {
    pub general: Decimal,
    pub layers: Seq<LayerV>,
    pub nets: Seq<NetV>,
    pub footprints: Seq<FootprintV>,
    pub wires: Seq<WireV>,
    pub vias: Seq<ViaV>,
}

impl View for KicadPcb {
    type V = PcbV;

    open spec fn view(&self) -> PcbV {
        PcbV {
            general: self.general@,
            layers: view_layers(self.layers@),
            nets: view_nets(self.nets@),
            footprints: view_footprints(self.footprints@),
            wires: view_wires(self.wires@),
            vias: view_vias(self.vias@),
        }
    }
}

/// The number of declared layers whose kind is signal.
pub open spec fn count_signal(ls: Seq<LayerV>) -> nat
    decreases ls.len(),
{
    if ls.len() == 0 {
        0
    } else {
        count_signal(ls.drop_last()) + (if ls.last().layer_type is Signal {
            1nat
        } else {
            0nat
        })
    }
}

/// The id of the first layer with the given name.
pub open spec fn layer_id_spec(ls: Seq<LayerV>, name: Seq<char>) -> Option<int>
    decreases ls.len(),
{
    if ls.len() == 0 {
        None
    } else if ls[0].name == name {
        Some(ls[0].id)
    } else {
        layer_id_spec(ls.skip(1), name)
    }
}

impl KicadPcb {
    /// An empty board; the tree argument is accepted for symmetry with the
    /// loader and not read.
    pub fn new(_expr: SExpr) -> (r: Self)
        ensures
            r@.general == (Decimal { mantissa: 0, scale: 1 }),
            r@.layers.len() == 0,
            r@.nets.len() == 0,
            r@.footprints.len() == 0,
            r@.wires.len() == 0,
            r@.vias.len() == 0,
    {
        let r = KicadPcb {
            general: PcbGeneral { thickness: Decimal { mantissa: 0, scale: 1 } },
            layers: Vec::new(),
            nets: Vec::new(),
            footprints: Vec::new(),
            wires: Vec::new(),
            vias: Vec::new(),
        };
        r
    }

    /// Builds the board model from a parsed tree: superfluous outer nesting
    /// is stripped, then each required section is read; the first failing
    /// required section aborts the load with its own error kind, and no
    /// partial board is returned.
    pub fn load(exp: &SExpr) -> (r: Result<Self, KicadPcbError>)
        ensures
            (match r {
                Ok(p) => {
                    let t = remove_trivial_spec(exp@);
                    &&& general_spec(t) == Some(p@.general)
                    &&& board_layers_spec(t) == Some(p@.layers)
                    &&& p@.nets == nets_spec(t)
                    &&& board_footprints_spec(t) == Some(p@.footprints)
                    &&& board_wires_spec(t) == Some(p@.wires)
                    &&& board_vias_spec(t) == Some(p@.vias)
                },
                Err(e) => {
                    let t = remove_trivial_spec(exp@);
                    match e {
                        KicadPcbError::GeneralFail => general_spec(t) is None,
                        KicadPcbError::NoLayer(_) => general_spec(t) is Some && board_layers_spec(
                            t,
                        ) is None,
                        KicadPcbError::FootprintFail => general_spec(t) is Some
                            && board_layers_spec(t) is Some && board_footprints_spec(t) is None,
                        KicadPcbError::WireFail => general_spec(t) is Some && board_layers_spec(
                            t,
                        ) is Some && board_footprints_spec(t) is Some && board_wires_spec(
                            t,
                        ) is None,
                        KicadPcbError::ViaFail => general_spec(t) is Some && board_layers_spec(
                            t,
                        ) is Some && board_footprints_spec(t) is Some && board_wires_spec(
                            t,
                        ) is Some && board_vias_spec(t) is None,
                        _ => false,
                    }
                },
            }),
    {
        let pcb_exp = exp.remove_trivial();
        let general = match get_general(&pcb_exp) {
            Ok(result) => result,
            Err(e) => {
                return Err(e);
            },
        };
        let layers = match get_layers(&pcb_exp) {
            Ok(result) => result,
            Err(e) => {
                return Err(e);
            },
        };
        let nets = match get_nets(&pcb_exp) {
            Ok(result) => result,
            Err(e) => {
                return Err(e);
            },
        };
        let footprints = match get_footprints(&pcb_exp) {
            Ok(result) => result,
            Err(e) => {
                return Err(e);
            },
        };
        let wires = match get_wires(&pcb_exp) {
            Ok(result) => result,
            Err(e) => {
                return Err(e);
            },
        };
        let vias = match get_vias(&pcb_exp) {
            Ok(result) => result,
            Err(e) => {
                return Err(e);
            },
        };
        Ok(
            KicadPcb {
                general: general,
                layers: layers,
                nets: nets,
                footprints: footprints,
                wires: wires,
                vias: vias,
            },
        )
    }

    /// The id of the first declared layer with the given name.
    pub fn get_layer_id(&self, name: &str) -> (r: Option<LayerId>)
        ensures
            (match r {
                Some(id) => layer_id_spec(self@.layers, name@) == Some(id as int),
                None => layer_id_spec(self@.layers, name@) is None,
            }),
    {
        let ghost ls = view_layers(self.layers@);
        let mut i: usize = 0;
        proof {
            assert(ls.skip(0) =~= ls);
        }
        while i < self.layers.len()
            invariant
                i <= self.layers@.len(),
                ls == view_layers(self.layers@),
                ls.len() == self.layers@.len(),
                layer_id_spec(ls, name@) == layer_id_spec(ls.skip(i as int), name@),
            decreases self.layers@.len() - i,
        {
            proof {
                assert(ls.skip(i as int)[0] == ls[i as int]);
                assert(ls[i as int] == self.layers@[i as int]@);
                assert(ls.skip(i as int).skip(1) =~= ls.skip(i + 1));
            }
            if crate::s_exp_parser::str_eq(self.layers[i].name.as_str(), name) {
                return Some(self.layers[i].id);
            }
            i += 1;
        }
        proof {
            assert(ls.skip(ls.len() as int) =~= Seq::<LayerV>::empty());
        }
        None
    }

    /// How many declared layers the router may use: those of kind signal.
    pub fn routable_layers(&self) -> (r: usize)
        ensures
            r == count_signal(self@.layers),
    {
        let ghost ls = view_layers(self.layers@);
        let mut count: usize = 0;
        let mut i: usize = 0;
        proof {
            assert(ls.take(0) =~= Seq::<LayerV>::empty());
        }
        while i < self.layers.len()
            invariant
                i <= self.layers@.len(),
                ls == view_layers(self.layers@),
                ls.len() == self.layers@.len(),
                count == count_signal(ls.take(i as int)),
                count <= i,
            decreases self.layers@.len() - i,
        {
            proof {
                assert(ls.take(i + 1).drop_last() =~= ls.take(i as int));
                assert(ls.take(i + 1).last() == ls[i as int]);
                assert(ls[i as int] == self.layers@[i as int]@);
            }
            match self.layers[i].layer_type {
                LayerType::Signal => {
                    count += 1;
                },
                LayerType::User => {},
            }
            i += 1;
        }
        proof {
            assert(ls.take(ls.len() as int) =~= ls);
        }
        count
    }
}

/// The position of the named layer among the signal layers alone, counting
/// only layers of kind signal; nothing if the named layer is missing or is
/// not a signal layer.
pub open spec fn signal_index_spec(ls: Seq<LayerV>, name: Seq<char>) -> Option<int>
    decreases ls.len(),
{
    if ls.len() == 0 {
        None
    } else if ls[0].name == name {
        if ls[0].layer_type is Signal {
            Some(0)
        } else {
            None
        }
    } else {
        match signal_index_spec(ls.skip(1), name) {
            Some(k) => Some(
                k + (if ls[0].layer_type is Signal {
                    1int
                } else {
                    0int
                }),
            ),
            None => None,
        }
    }
}

/// The names of the signal layers, in declaration order.
pub open spec fn signal_names_spec(ls: Seq<LayerV>) -> Seq<Seq<char>>
    decreases ls.len(),
{
    if ls.len() == 0 {
        Seq::empty()
    } else {
        (if ls[0].layer_type is Signal {
            seq![ls[0].name]
        } else {
            Seq::<Seq<char>>::empty()
        }) + signal_names_spec(ls.skip(1))
    }
}

impl KicadPcb {
    /// The index of the named layer within the routing grid's layer axis,
    /// which holds the signal layers alone.
    #[verifier::loop_isolation(false)]
    pub fn signal_index(&self, name: &str) -> (r: Option<usize>)
        ensures
            (match r {
                Some(k) => signal_index_spec(self@.layers, name@) == Some(k as int),
                None => signal_index_spec(self@.layers, name@) is None,
            }),
    {
        let ghost ls = view_layers(self.layers@);
        let mut count: usize = 0;
        let mut i: usize = 0;
        proof {
            assert(ls.skip(0) =~= ls);
        }
        while i < self.layers.len()
            invariant
                i <= self.layers@.len(),
                count <= i,
                forall|j: int| 0 <= j < i ==> ls[j].name != name@,
                count as int == count_signal(ls.take(i as int)),
                (match signal_index_spec(ls.skip(i as int), name@) {
                    Some(k) => signal_index_spec(ls, name@) == Some(k + count),
                    None => signal_index_spec(ls, name@) is None,
                }),
            decreases self.layers@.len() - i,
        {
            proof {
                assert(ls.skip(i as int)[0] == ls[i as int]);
                assert(ls[i as int] == self.layers@[i as int]@);
                assert(ls.skip(i as int).skip(1) =~= ls.skip(i + 1));
                assert(ls.take(i + 1).drop_last() =~= ls.take(i as int));
                assert(ls.take(i + 1).last() == ls[i as int]);
            }
            let is_signal = match self.layers[i].layer_type {
                LayerType::Signal => true,
                LayerType::User => false,
            };
            if crate::s_exp_parser::str_eq(self.layers[i].name.as_str(), name) {
                if is_signal {
                    return Some(count);
                } else {
                    return None;
                }
            }
            if is_signal {
                count += 1;
            }
            i += 1;
        }
        proof {
            assert(ls.skip(ls.len() as int) =~= Seq::<LayerV>::empty());
        }
        None
    }

    /// The names of the signal layers, in declaration order: the grid's
    /// layer axis, layer names by index.
    #[verifier::loop_isolation(false)]
    pub fn signal_names(&self) -> (r: Vec<String>)
        ensures
            view_strs(r@) == signal_names_spec(self@.layers),
    {
        let ghost ls = view_layers(self.layers@);
        let mut out: Vec<String> = Vec::new();
        let mut i: usize = 0;
        proof {
            assert(ls.skip(0) =~= ls);
            assert(view_strs(out@) =~= Seq::<Seq<char>>::empty());
        }
        while i < self.layers.len()
            invariant
                i <= self.layers@.len(),
                view_strs(out@) + signal_names_spec(ls.skip(i as int)) == signal_names_spec(ls),
            decreases self.layers@.len() - i,
        {
            proof {
                assert(ls.skip(i as int)[0] == ls[i as int]);
                assert(ls[i as int] == self.layers@[i as int]@);
                assert(ls.skip(i as int).skip(1) =~= ls.skip(i + 1));
            }
            match self.layers[i].layer_type {
                LayerType::Signal => {
                    let ghost before = out@;
                    out.push(self.layers[i].name.clone());
                    proof {
                        assert forall|k: int| 0 <= k < out@.len() implies view_strs(out@)[k]
                            == (view_strs(before) + seq![ls[i as int].name])[k] by {
                            assert(view_strs(out@)[k] == out@[k]@);
                            if k < before.len() {
                                assert(out@[k] == before[k]);
                                assert(view_strs(before)[k] == before[k]@);
                            }
                        }
                        assert(view_strs(out@) =~= view_strs(before) + seq![ls[i as int].name]);
                    }
                },
                LayerType::User => {
                    proof {
                        assert(view_strs(out@) + Seq::<Seq<char>>::empty() =~= view_strs(out@));
                    }
                },
            }
            i += 1;
        }
        proof {
            assert(ls.skip(ls.len() as int) =~= Seq::<LayerV>::empty());
            assert(view_strs(out@) + Seq::<Seq<char>>::empty() =~= view_strs(out@));
        }
        out
    }
}

impl Clone for KicadPcb {
    /// A deep copy with the same mathematical shape.
    fn clone(&self) -> (r: KicadPcb)
        ensures
            r@ == self@,
    {
        let mut layers: Vec<PcbLayer> = Vec::new();
        let mut i: usize = 0;
        while i < self.layers.len()
            invariant
                i <= self.layers@.len(),
                layers@.len() == i,
                forall|j: int| 0 <= j < i ==> #[trigger] layers@[j]@ == self.layers@[j]@,
            decreases self.layers@.len() - i,
        {
            layers.push(self.layers[i].clone());
            i += 1;
        }
        let mut nets: Vec<PcbNet> = Vec::new();
        let mut i2: usize = 0;
        while i2 < self.nets.len()
            invariant
                i2 <= self.nets@.len(),
                nets@.len() == i2,
                forall|j: int| 0 <= j < i2 ==> #[trigger] nets@[j]@ == self.nets@[j]@,
            decreases self.nets@.len() - i2,
        {
            nets.push(self.nets[i2].clone());
            i2 += 1;
        }
        let mut footprints: Vec<Footprint> = Vec::new();
        let mut i3: usize = 0;
        while i3 < self.footprints.len()
            invariant
                i3 <= self.footprints@.len(),
                footprints@.len() == i3,
                forall|j: int| 0 <= j < i3 ==> #[trigger] footprints@[j]@ == self.footprints@[j]@,
            decreases self.footprints@.len() - i3,
        {
            footprints.push(self.footprints[i3].clone());
            i3 += 1;
        }
        let mut wires: Vec<Wire> = Vec::new();
        let mut i4: usize = 0;
        while i4 < self.wires.len()
            invariant
                i4 <= self.wires@.len(),
                wires@.len() == i4,
                forall|j: int| 0 <= j < i4 ==> #[trigger] wires@[j]@ == self.wires@[j]@,
            decreases self.wires@.len() - i4,
        {
            wires.push(self.wires[i4].clone());
            i4 += 1;
        }
        let mut vias: Vec<Via> = Vec::new();
        let mut i5: usize = 0;
        while i5 < self.vias.len()
            invariant
                i5 <= self.vias@.len(),
                vias@.len() == i5,
                forall|j: int| 0 <= j < i5 ==> #[trigger] vias@[j]@ == self.vias@[j]@,
            decreases self.vias@.len() - i5,
        {
            vias.push(self.vias[i5].clone());
            i5 += 1;
        }
        let r = KicadPcb {
            general: self.general.clone(),
            layers: layers,
            nets: nets,
            footprints: footprints,
            wires: wires,
            vias: vias,
        };
        proof {
            assert(view_layers(r.layers@) =~= view_layers(self.layers@));
            assert(view_nets(r.nets@) =~= view_nets(self.nets@));
            assert(view_footprints(r.footprints@) =~= view_footprints(self.footprints@));
            assert(view_wires(r.wires@) =~= view_wires(self.wires@));
            assert(view_vias(r.vias@) =~= view_vias(self.vias@));
        }
        r
    }
}

/// What the router is told: the pass budget, the via cost, and the grid's
/// spacing and extents.
#[derive(Debug, Clone, Copy, PartialEq, Eq, Structural)]
pub struct RouterSettings {
    pub max_passes: usize,
    pub via_penalty: u64,
    pub grid_spacing: Decimal,
    pub board_width: Decimal,
    pub board_height: Decimal,
}

} // verus!
