//! The parameters, settings and outputs of the node types: their names and
//! indices, and the parameter IDs that refer to them.

use vstd::prelude::*;
use crate::dsp::node_id::node_instance;
use crate::dsp::NodeId;
use crate::text::str_equal;

verus! {

/// A setting of a node type: its name, its index among the settings, the
/// kind of control it is shown with and the range of its values.
pub ghost struct AtomSpec {
    pub name: Seq<char>,
    pub at_idx: nat,
    pub ui: Seq<char>,
    pub min: i64,
    pub max: i64,
}

/// The parameters of a node type, by name, in index order.
pub open spec fn node_params(n: NodeId) -> Seq<Seq<char>> {
    match n {
        NodeId::Nop => Seq::empty(),
        NodeId::Amp(_) => seq!["inp"@, "gain"@, "att"@],
        NodeId::Mix3(_) => seq!["ch1"@, "ch2"@, "ch3"@, "gain1"@, "gain2"@, "gain3"@, "ogain"@],
        NodeId::Mux9(_) => seq!["slct"@, "t_rst"@, "t_up"@, "t_down"@, "in_1"@, "in_2"@, "in_3"@, "in_4"@, "in_5"@, "in_6"@, "in_7"@, "in_8"@, "in_9"@],
        NodeId::SMap(_) => seq!["inp"@, "min"@, "max"@],
        NodeId::MapRange(_) => seq!["inp"@, "atv"@, "offs"@, "imin"@, "imax"@, "min"@, "max"@],
        NodeId::Quant(_) => seq!["freq"@, "oct"@],
        NodeId::CQnt(_) => seq!["inp"@, "oct"@],
        NodeId::TSeq(_) => seq!["clock"@, "trig"@],
        NodeId::Sampl(_) => seq!["freq"@, "trig"@, "offs"@, "len"@, "dcms"@, "det"@],
        NodeId::Sin(_) => seq!["freq"@, "det"@],
        NodeId::BOsc(_) => seq!["freq"@, "det"@, "pw"@],
        NodeId::VOsc(_) => seq!["freq"@, "det"@, "d"@, "v"@, "vs"@, "damt"@],
        NodeId::BowStri(_) => seq!["freq"@, "det"@, "vel"@, "force"@, "pos"@],
        NodeId::Out(_) => seq!["ch1"@, "ch2"@, "gain"@],
        NodeId::FbWr(_) => seq!["inp"@],
        NodeId::FbRd(_) => seq!["atv"@],
        NodeId::Ad(_) => seq!["inp"@, "trig"@, "atk"@, "dcy"@, "ashp"@, "dshp"@],
        NodeId::TsLFO(_) => seq!["time"@, "trig"@, "rev"@],
        NodeId::RndWk(_) => seq!["trig"@, "step"@, "offs"@, "min"@, "max"@, "slew"@],
        NodeId::Delay(_) => seq!["inp"@, "trig"@, "time"@, "fb"@, "mix"@],
        NodeId::AllP(_) => seq!["inp"@, "time"@, "g"@],
        NodeId::Comb(_) => seq!["inp"@, "time"@, "g"@],
        NodeId::Noise(_) => seq!["atv"@, "offs"@],
        NodeId::SFilter(_) => seq!["inp"@, "freq"@, "res"@],
        NodeId::BiqFilt(_) => seq!["inp"@, "freq"@, "q"@, "gain"@],
        NodeId::PVerb(_) => seq!["in_l"@, "in_r"@, "predly"@, "size"@, "dcy"@, "ilpf"@, "ihpf"@, "dif"@, "dmix"@, "mspeed"@, "mshp"@, "mdepth"@, "rlpf"@, "rhpf"@, "mix"@],
        NodeId::Gz3Filt(_) => seq!["inp"@, "freq1"@, "freq2"@, "freq3"@, "latency"@, "gain"@],
        NodeId::Test(_) => seq!["f"@],
    }
}

/// The settings of a node type, in input index order: their input indices
/// follow those of the parameters.
pub open spec fn node_atoms(n: NodeId) -> Seq<AtomSpec> {
    match n {
        NodeId::Nop => Seq::empty(),
        NodeId::Amp(_) => seq![AtomSpec { name: "neg_att"@, at_idx: 0, ui: "mode"@, min: 0, max: 1 }],
        NodeId::Mix3(_) => Seq::empty(),
        NodeId::Mux9(_) => seq![AtomSpec { name: "in_cnt"@, at_idx: 0, ui: "mode"@, min: 0, max: 8 }],
        NodeId::SMap(_) => seq![
            AtomSpec { name: "mode"@, at_idx: 1, ui: "mode"@, min: 0, max: 3 },
            AtomSpec { name: "clip"@, at_idx: 0, ui: "mode"@, min: 0, max: 1 },
        ],
        NodeId::MapRange(_) => seq![AtomSpec { name: "clip"@, at_idx: 0, ui: "mode"@, min: 0, max: 1 }],
        NodeId::Quant(_) => seq![AtomSpec { name: "keys"@, at_idx: 0, ui: "keys"@, min: 0, max: 0 }],
        NodeId::CQnt(_) => seq![
            AtomSpec { name: "keys"@, at_idx: 0, ui: "keys"@, min: 0, max: 0 },
            AtomSpec { name: "omin"@, at_idx: 1, ui: "mode"@, min: 0, max: 4 },
            AtomSpec { name: "omax"@, at_idx: 2, ui: "mode"@, min: 0, max: 4 },
        ],
        NodeId::TSeq(_) => seq![AtomSpec { name: "cmode"@, at_idx: 0, ui: "mode"@, min: 0, max: 2 }],
        NodeId::Sampl(_) => seq![
            AtomSpec { name: "sample"@, at_idx: 0, ui: "sample"@, min: 0, max: 0 },
            AtomSpec { name: "pmode"@, at_idx: 1, ui: "mode"@, min: 0, max: 1 },
            AtomSpec { name: "dclick"@, at_idx: 2, ui: "mode"@, min: 0, max: 1 },
            AtomSpec { name: "dir"@, at_idx: 3, ui: "mode"@, min: 0, max: 1 },
        ],
        NodeId::Sin(_) => Seq::empty(),
        NodeId::BOsc(_) => seq![AtomSpec { name: "wtype"@, at_idx: 0, ui: "mode"@, min: 0, max: 3 }],
        NodeId::VOsc(_) => seq![
            AtomSpec { name: "dist"@, at_idx: 0, ui: "mode"@, min: 0, max: 3 },
            AtomSpec { name: "ovrsmpl"@, at_idx: 1, ui: "mode"@, min: 0, max: 1 },
        ],
        NodeId::BowStri(_) => Seq::empty(),
        NodeId::Out(_) => seq![AtomSpec { name: "mono"@, at_idx: 0, ui: "mode"@, min: 0, max: 1 }],
        NodeId::FbWr(_) => Seq::empty(),
        NodeId::FbRd(_) => Seq::empty(),
        NodeId::Ad(_) => seq![AtomSpec { name: "mult"@, at_idx: 0, ui: "mode"@, min: 0, max: 2 }],
        NodeId::TsLFO(_) => Seq::empty(),
        NodeId::RndWk(_) => Seq::empty(),
        NodeId::Delay(_) => seq![AtomSpec { name: "mode"@, at_idx: 0, ui: "mode"@, min: 0, max: 1 }],
        NodeId::AllP(_) => Seq::empty(),
        NodeId::Comb(_) => seq![AtomSpec { name: "mode"@, at_idx: 0, ui: "mode"@, min: 0, max: 1 }],
        NodeId::Noise(_) => seq![AtomSpec { name: "mode"@, at_idx: 0, ui: "mode"@, min: 0, max: 1 }],
        NodeId::SFilter(_) => seq![AtomSpec { name: "ftype"@, at_idx: 0, ui: "mode"@, min: 0, max: 13 }],
        NodeId::BiqFilt(_) => seq![
            AtomSpec { name: "ftype"@, at_idx: 0, ui: "mode"@, min: 0, max: 1 },
            AtomSpec { name: "order"@, at_idx: 1, ui: "mode"@, min: 0, max: 3 },
        ],
        NodeId::PVerb(_) => Seq::empty(),
        NodeId::Gz3Filt(_) => Seq::empty(),
        NodeId::Test(_) => seq![
            AtomSpec { name: "p"@, at_idx: 0, ui: "knob"@, min: 0, max: 10 },
            AtomSpec { name: "trig"@, at_idx: 1, ui: "knob"@, min: 0, max: 0 },
        ],
    }
}

/// The outputs of a node type, by name, in index order.
pub open spec fn node_outputs(n: NodeId) -> Seq<Seq<char>> {
    match n {
        NodeId::Nop => Seq::empty(),
        NodeId::Amp(_) => seq!["sig"@],
        NodeId::Mix3(_) => seq!["sig"@],
        NodeId::Mux9(_) => seq!["sig"@],
        NodeId::SMap(_) => seq!["sig"@],
        NodeId::MapRange(_) => seq!["sig"@],
        NodeId::Quant(_) => seq!["sig"@, "t"@],
        NodeId::CQnt(_) => seq!["sig"@, "t"@],
        NodeId::TSeq(_) => seq!["trk1"@, "trk2"@, "trk3"@, "trk4"@, "trk5"@, "trk6"@, "gat1"@, "gat2"@, "gat3"@, "gat4"@, "gat5"@, "gat6"@],
        NodeId::Sampl(_) => seq!["sig"@],
        NodeId::Sin(_) => seq!["sig"@],
        NodeId::BOsc(_) => seq!["sig"@],
        NodeId::VOsc(_) => seq!["sig"@],
        NodeId::BowStri(_) => seq!["sig"@],
        NodeId::Out(_) => Seq::empty(),
        NodeId::FbWr(_) => Seq::empty(),
        NodeId::FbRd(_) => seq!["sig"@],
        NodeId::Ad(_) => seq!["sig"@, "eoet"@],
        NodeId::TsLFO(_) => seq!["sig"@],
        NodeId::RndWk(_) => seq!["sig"@],
        NodeId::Delay(_) => seq!["sig"@],
        NodeId::AllP(_) => seq!["sig"@],
        NodeId::Comb(_) => seq!["sig"@],
        NodeId::Noise(_) => seq!["sig"@],
        NodeId::SFilter(_) => seq!["sig"@],
        NodeId::BiqFilt(_) => seq!["sig"@],
        NodeId::PVerb(_) => seq!["sig_l"@, "sig_r"@],
        NodeId::Gz3Filt(_) => seq!["sig"@],
        NodeId::Test(_) => seq!["sig"@, "tsig"@, "out2"@, "out3"@, "out4"@, "outc"@],
    }
}
/// The names of a node type's parameters.
fn param_names(n: &NodeId) -> (r: Vec<&'static str>)
    ensures
        strs_view(r@) == node_params(*n),
{
    let mut v: Vec<&'static str> = Vec::new();
    match n {
        NodeId::Nop => {},
        NodeId::Amp(_) => {
            v.push("inp");
            v.push("gain");
            v.push("att");
        },
        NodeId::Mix3(_) => {
            v.push("ch1");
            v.push("ch2");
            v.push("ch3");
            v.push("gain1");
            v.push("gain2");
            v.push("gain3");
            v.push("ogain");
        },
        NodeId::Mux9(_) => {
            v.push("slct");
            v.push("t_rst");
            v.push("t_up");
            v.push("t_down");
            v.push("in_1");
            v.push("in_2");
            v.push("in_3");
            v.push("in_4");
            v.push("in_5");
            v.push("in_6");
            v.push("in_7");
            v.push("in_8");
            v.push("in_9");
        },
        NodeId::SMap(_) => {
            v.push("inp");
            v.push("min");
            v.push("max");
        },
        NodeId::MapRange(_) => {
            v.push("inp");
            v.push("atv");
            v.push("offs");
            v.push("imin");
            v.push("imax");
            v.push("min");
            v.push("max");
        },
        NodeId::Quant(_) => {
            v.push("freq");
            v.push("oct");
        },
        NodeId::CQnt(_) => {
            v.push("inp");
            v.push("oct");
        },
        NodeId::TSeq(_) => {
            v.push("clock");
            v.push("trig");
        },
        NodeId::Sampl(_) => {
            v.push("freq");
            v.push("trig");
            v.push("offs");
            v.push("len");
            v.push("dcms");
            v.push("det");
        },
        NodeId::Sin(_) => {
            v.push("freq");
            v.push("det");
        },
        NodeId::BOsc(_) => {
            v.push("freq");
            v.push("det");
            v.push("pw");
        },
        NodeId::VOsc(_) => {
            v.push("freq");
            v.push("det");
            v.push("d");
            v.push("v");
            v.push("vs");
            v.push("damt");
        },
        NodeId::BowStri(_) => {
            v.push("freq");
            v.push("det");
            v.push("vel");
            v.push("force");
            v.push("pos");
        },
        NodeId::Out(_) => {
            v.push("ch1");
            v.push("ch2");
            v.push("gain");
        },
        NodeId::FbWr(_) => {
            v.push("inp");
        },
        NodeId::FbRd(_) => {
            v.push("atv");
        },
        NodeId::Ad(_) => {
            v.push("inp");
            v.push("trig");
            v.push("atk");
            v.push("dcy");
            v.push("ashp");
            v.push("dshp");
        },
        NodeId::TsLFO(_) => {
            v.push("time");
            v.push("trig");
            v.push("rev");
        },
        NodeId::RndWk(_) => {
            v.push("trig");
            v.push("step");
            v.push("offs");
            v.push("min");
            v.push("max");
            v.push("slew");
        },
        NodeId::Delay(_) => {
            v.push("inp");
            v.push("trig");
            v.push("time");
            v.push("fb");
            v.push("mix");
        },
        NodeId::AllP(_) => {
            v.push("inp");
            v.push("time");
            v.push("g");
        },
        NodeId::Comb(_) => {
            v.push("inp");
            v.push("time");
            v.push("g");
        },
        NodeId::Noise(_) => {
            v.push("atv");
            v.push("offs");
        },
        NodeId::SFilter(_) => {
            v.push("inp");
            v.push("freq");
            v.push("res");
        },
        NodeId::BiqFilt(_) => {
            v.push("inp");
            v.push("freq");
            v.push("q");
            v.push("gain");
        },
        NodeId::PVerb(_) => {
            v.push("in_l");
            v.push("in_r");
            v.push("predly");
            v.push("size");
            v.push("dcy");
            v.push("ilpf");
            v.push("ihpf");
            v.push("dif");
            v.push("dmix");
            v.push("mspeed");
            v.push("mshp");
            v.push("mdepth");
            v.push("rlpf");
            v.push("rhpf");
            v.push("mix");
        },
        NodeId::Gz3Filt(_) => {
            v.push("inp");
            v.push("freq1");
            v.push("freq2");
            v.push("freq3");
            v.push("latency");
            v.push("gain");
        },
        NodeId::Test(_) => {
            v.push("f");
        },
    }
    proof {
        assert(strs_view(v@) =~= node_params(*n));
    }
    v
}

/// The settings of a node type: name, setting index, control kind, least and
/// greatest value.
fn atom_rows(n: &NodeId) -> (r: Vec<(&'static str, usize, &'static str, i64, i64)>)
    ensures
        atoms_view(r@) == node_atoms(*n),
{
    let mut v: Vec<(&'static str, usize, &'static str, i64, i64)> = Vec::new();
    match n {
        NodeId::Nop => {},
        NodeId::Amp(_) => {
            v.push(("neg_att", 0, "mode", 0, 1));
        },
        NodeId::Mix3(_) => {},
        NodeId::Mux9(_) => {
            v.push(("in_cnt", 0, "mode", 0, 8));
        },
        NodeId::SMap(_) => {
            v.push(("mode", 1, "mode", 0, 3));
            v.push(("clip", 0, "mode", 0, 1));
        },
        NodeId::MapRange(_) => {
            v.push(("clip", 0, "mode", 0, 1));
        },
        NodeId::Quant(_) => {
            v.push(("keys", 0, "keys", 0, 0));
        },
        NodeId::CQnt(_) => {
            v.push(("keys", 0, "keys", 0, 0));
            v.push(("omin", 1, "mode", 0, 4));
            v.push(("omax", 2, "mode", 0, 4));
        },
        NodeId::TSeq(_) => {
            v.push(("cmode", 0, "mode", 0, 2));
        },
        NodeId::Sampl(_) => {
            v.push(("sample", 0, "sample", 0, 0));
            v.push(("pmode", 1, "mode", 0, 1));
            v.push(("dclick", 2, "mode", 0, 1));
            v.push(("dir", 3, "mode", 0, 1));
        },
        NodeId::Sin(_) => {},
        NodeId::BOsc(_) => {
            v.push(("wtype", 0, "mode", 0, 3));
        },
        NodeId::VOsc(_) => {
            v.push(("dist", 0, "mode", 0, 3));
            v.push(("ovrsmpl", 1, "mode", 0, 1));
        },
        NodeId::BowStri(_) => {},
        NodeId::Out(_) => {
            v.push(("mono", 0, "mode", 0, 1));
        },
        NodeId::FbWr(_) => {},
        NodeId::FbRd(_) => {},
        NodeId::Ad(_) => {
            v.push(("mult", 0, "mode", 0, 2));
        },
        NodeId::TsLFO(_) => {},
        NodeId::RndWk(_) => {},
        NodeId::Delay(_) => {
            v.push(("mode", 0, "mode", 0, 1));
        },
        NodeId::AllP(_) => {},
        NodeId::Comb(_) => {
            v.push(("mode", 0, "mode", 0, 1));
        },
        NodeId::Noise(_) => {
            v.push(("mode", 0, "mode", 0, 1));
        },
        NodeId::SFilter(_) => {
            v.push(("ftype", 0, "mode", 0, 13));
        },
        NodeId::BiqFilt(_) => {
            v.push(("ftype", 0, "mode", 0, 1));
            v.push(("order", 1, "mode", 0, 3));
        },
        NodeId::PVerb(_) => {},
        NodeId::Gz3Filt(_) => {},
        NodeId::Test(_) => {
            v.push(("p", 0, "knob", 0, 10));
            v.push(("trig", 1, "knob", 0, 0));
        },
    }
    proof {
        assert(atoms_view(v@) =~= node_atoms(*n));
    }
    v
}

/// The names of a node type's outputs.
fn output_names(n: &NodeId) -> (r: Vec<&'static str>)
    ensures
        strs_view(r@) == node_outputs(*n),
{
    let mut v: Vec<&'static str> = Vec::new();
    match n {
        NodeId::Nop => {},
        NodeId::Amp(_) => {
            v.push("sig");
        },
        NodeId::Mix3(_) => {
            v.push("sig");
        },
        NodeId::Mux9(_) => {
            v.push("sig");
        },
        NodeId::SMap(_) => {
            v.push("sig");
        },
        NodeId::MapRange(_) => {
            v.push("sig");
        },
        NodeId::Quant(_) => {
            v.push("sig");
            v.push("t");
        },
        NodeId::CQnt(_) => {
            v.push("sig");
            v.push("t");
        },
        NodeId::TSeq(_) => {
            v.push("trk1");
            v.push("trk2");
            v.push("trk3");
            v.push("trk4");
            v.push("trk5");
            v.push("trk6");
            v.push("gat1");
            v.push("gat2");
            v.push("gat3");
            v.push("gat4");
            v.push("gat5");
            v.push("gat6");
        },
        NodeId::Sampl(_) => {
            v.push("sig");
        },
        NodeId::Sin(_) => {
            v.push("sig");
        },
        NodeId::BOsc(_) => {
            v.push("sig");
        },
        NodeId::VOsc(_) => {
            v.push("sig");
        },
        NodeId::BowStri(_) => {
            v.push("sig");
        },
        NodeId::Out(_) => {},
        NodeId::FbWr(_) => {},
        NodeId::FbRd(_) => {
            v.push("sig");
        },
        NodeId::Ad(_) => {
            v.push("sig");
            v.push("eoet");
        },
        NodeId::TsLFO(_) => {
            v.push("sig");
        },
        NodeId::RndWk(_) => {
            v.push("sig");
        },
        NodeId::Delay(_) => {
            v.push("sig");
        },
        NodeId::AllP(_) => {
            v.push("sig");
        },
        NodeId::Comb(_) => {
            v.push("sig");
        },
        NodeId::Noise(_) => {
            v.push("sig");
        },
        NodeId::SFilter(_) => {
            v.push("sig");
        },
        NodeId::BiqFilt(_) => {
            v.push("sig");
        },
        NodeId::PVerb(_) => {
            v.push("sig_l");
            v.push("sig_r");
        },
        NodeId::Gz3Filt(_) => {
            v.push("sig");
        },
        NodeId::Test(_) => {
            v.push("sig");
            v.push("tsig");
            v.push("out2");
            v.push("out3");
            v.push("out4");
            v.push("outc");
        },
    }
    proof {
        assert(strs_view(v@) =~= node_outputs(*n));
    }
    v
}

/// The names behind string references.
pub open spec fn strs_view(v: Seq<&'static str>) -> Seq<Seq<char>> {
    v.map_values(|s: &'static str| s@)
}

/// The settings behind table rows.
pub open spec fn atoms_view(v: Seq<(&'static str, usize, &'static str, i64, i64)>) -> Seq<AtomSpec> {
    v.map_values(
        |a: (&'static str, usize, &'static str, i64, i64)|
            AtomSpec { name: a.0@, at_idx: a.1 as nat, ui: a.2@, min: a.3, max: a.4 },
    )
}

/// The names of settings.
pub open spec fn atom_names(s: Seq<AtomSpec>) -> Seq<Seq<char>> {
    s.map_values(|a: AtomSpec| a.name)
}

/// The inputs of a node type, by name, in index order: its parameters, then
/// its settings.
pub open spec fn node_inputs(n: NodeId) -> Seq<Seq<char>> {
    node_params(n) + atom_names(node_atoms(n))
}

/// No node type has more than 255 inputs.
proof fn lemma_inputs_few(n: NodeId)
    ensures
        node_params(n).len() + node_atoms(n).len() < 256,
        node_inputs(n).len() == node_params(n).len() + node_atoms(n).len(),
{
}

/// `r` is the first index in `s` of the name `x`, or `None` where `s` does
/// not hold it.
pub open spec fn first_index(s: Seq<Seq<char>>, x: Seq<char>, r: Option<int>) -> bool {
    match r {
        Some(i) => 0 <= i < s.len() && s[i] == x && forall|j: int| 0 <= j < i ==> s[j] != x,
        None => forall|j: int| 0 <= j < s.len() ==> s[j] != x,
    }
}

/// The first index of `name` among `v`.
fn find_name(v: &Vec<&'static str>, name: &str) -> (r: Option<usize>)
    ensures
        first_index(strs_view(v@), name@, match r { Some(i) => Some(i as int), None => None }),
{
    let ghost sv = strs_view(v@);
    let mut i: usize = 0;
    while i < v.len()
        invariant
            i <= v@.len(),
            sv == strs_view(v@),
            sv.len() == v@.len(),
            forall|j: int| 0 <= j < i ==> sv[j] != name@,
        decreases v.len() - i,
    {
        if str_equal(v[i], name) {
            return Some(i);
        }
        i += 1;
    }
    None
}

/// The identity of a parameter or setting of a node: the node, the name and
/// the input index.
pub ghost struct ParamSpec {
    pub node: NodeId,
    pub name: Seq<char>,
    pub idx: u8,
}

/// A parameter or setting of a node, by node, name and input index.
#[derive(Debug, Clone, Copy, PartialEq, Eq)]
pub struct ParamId {
    name: &'static str,
    node: NodeId,
    idx: u8,
}

impl View for ParamId {
    type V = ParamSpec;

    closed spec fn view(&self) -> ParamSpec {
        ParamSpec { node: self.node, name: self.name@, idx: self.idx }
    }
}

/// The parameter ID of input `idx` of node `n`.
pub open spec fn param_of(n: NodeId, idx: int) -> ParamSpec {
    ParamSpec { node: n, name: node_inputs(n)[idx], idx: idx as u8 }
}

impl ParamId {
    /// The parameter ID that refers to nothing.
    pub fn none() -> (r: Self)
        ensures
            r@ == (ParamSpec { node: NodeId::Nop, name: "NOP"@, idx: 0 }),
    {
        ParamId { name: "NOP", node: NodeId::Nop, idx: 0 }
    }

    /// The node.
    pub fn node_id(&self) -> (r: NodeId)
        ensures
            r == self@.node,
    {
        self.node
    }

    /// The input index.
    pub fn inp(&self) -> (r: u8)
        ensures
            r == self@.idx,
    {
        self.idx
    }

    /// The name.
    pub fn name(&self) -> (r: &'static str)
        ensures
            r@ == self@.name,
    {
        self.name
    }

    /// Whether the ID refers to a setting of its node, not a parameter.
    pub fn is_atom(&self) -> (r: bool)
        ensures
            r == (node_params(self@.node).len() <= self@.idx < node_inputs(self@.node).len()),
    {
        let np = param_names(&self.node).len();
        let na = atom_rows(&self.node).len();
        proof {
            assert(node_inputs(self@.node).len() == np + na);
        }
        np <= self.idx as usize && (self.idx as usize) < np + na
    }

    /// The kind of control a setting is shown with; `None` for a
    /// parameter.
    pub fn atom_ui(&self) -> (r: Option<&'static str>)
        ensures
            match r {
                Some(s) => node_params(self@.node).len() <= self@.idx < node_inputs(self@.node).len() && s@ == node_atoms(
                    self@.node,
                )[self@.idx - node_params(self@.node).len()].ui,
                None => !(node_params(self@.node).len() <= self@.idx < node_inputs(self@.node).len()),
            },
    {
        let np = param_names(&self.node).len();
        let rows = atom_rows(&self.node);
        let i = self.idx as usize;
        proof {
            assert(node_inputs(self@.node).len() == np + rows@.len());
        }
        if np <= i && i - np < rows.len() {
            proof {
                assert(atoms_view(rows@)[i - np] == node_atoms(self@.node)[i - np]);
            }
            Some(rows[i - np].2)
        } else {
            None
        }
    }

    /// The least and greatest value of a setting; `None` for a parameter.
    pub fn setting_min_max(&self) -> (r: Option<(i64, i64)>)
        ensures
            match r {
                Some(m) => node_params(self@.node).len() <= self@.idx < node_inputs(self@.node).len() && {
                    let a = node_atoms(self@.node)[self@.idx - node_params(self@.node).len()];
                    m == (a.min, a.max)
                },
                None => !(node_params(self@.node).len() <= self@.idx < node_inputs(self@.node).len()),
            },
    {
        let np = param_names(&self.node).len();
        let rows = atom_rows(&self.node);
        let i = self.idx as usize;
        proof {
            assert(node_inputs(self@.node).len() == np + rows@.len());
        }
        if np <= i && i - np < rows.len() {
            proof {
                assert(atoms_view(rows@)[i - np] == node_atoms(self@.node)[i - np]);
            }
            Some((rows[i - np].3, rows[i - np].4))
        } else {
            None
        }
    }
}

impl NodeId {
    /// The index of the parameter called `name`.
    pub fn inp(&self, name: &str) -> (r: Option<u8>)
        ensures
            first_index(node_params(*self), name@, match r { Some(i) => Some(i as int), None => None }),
    {
        let names = param_names(self);
        match find_name(&names, name) {
            Some(i) => Some(i as u8),
            None => None,
        }
    }

    /// The index of the output called `name`.
    pub fn out(&self, name: &str) -> (r: Option<u8>)
        ensures
            first_index(node_outputs(*self), name@, match r { Some(i) => Some(i as int), None => None }),
    {
        let names = output_names(self);
        match find_name(&names, name) {
            Some(i) => Some(i as u8),
            None => None,
        }
    }

    /// The name of input `idx`: a parameter or a setting.
    pub fn inp_name_by_idx(&self, idx: u8) -> (r: Option<&'static str>)
        ensures
            match r {
                Some(s) => idx < node_inputs(*self).len() && s@ == node_inputs(*self)[idx as int],
                None => idx >= node_inputs(*self).len(),
            },
    {
        let names = param_names(self);
        let rows = atom_rows(self);
        let i = idx as usize;
        proof {
            assert(node_inputs(*self).len() == names@.len() + rows@.len());
        }
        if i < names.len() {
            proof {
                assert(strs_view(names@)[i as int] == node_params(*self)[i as int]);
            }
            Some(names[i])
        } else if i - names.len() < rows.len() {
            proof {
                assert(atoms_view(rows@)[i - names@.len()] == node_atoms(*self)[i - names@.len()]);
            }
            Some(rows[i - names.len()].0)
        } else {
            None
        }
    }

    /// The name of output `idx`.
    pub fn out_name_by_idx(&self, idx: u8) -> (r: Option<&'static str>)
        ensures
            match r {
                Some(s) => idx < node_outputs(*self).len() && s@ == node_outputs(*self)[idx as int],
                None => idx >= node_outputs(*self).len(),
            },
    {
        let names = output_names(self);
        let i = idx as usize;
        if i < names.len() {
            proof {
                assert(strs_view(names@)[i as int] == node_outputs(*self)[i as int]);
            }
            Some(names[i])
        } else {
            None
        }
    }

    /// The parameter ID of input `idx`: a parameter or a setting.
    pub fn param_by_idx(&self, idx: usize) -> (r: Option<ParamId>)
        ensures
            match r {
                Some(p) => idx < node_inputs(*self).len() && p@ == param_of(*self, idx as int),
                None => idx >= node_inputs(*self).len(),
            },
    {
        let names = param_names(self);
        let rows = atom_rows(self);
        proof {
            assert(node_inputs(*self).len() == names@.len() + rows@.len());
        }
        if idx < names.len() {
            proof {
                assert(strs_view(names@)[idx as int] == node_params(*self)[idx as int]);
            }
            Some(ParamId { name: names[idx], node: *self, idx: idx as u8 })
        } else if idx - names.len() < rows.len() {
            proof {
                assert(atoms_view(rows@)[idx - names@.len()] == node_atoms(*self)[idx - names@.len()]);
            }
            Some(ParamId { name: rows[idx - names.len()].0, node: *self, idx: idx as u8 })
        } else {
            None
        }
    }

    /// The parameter ID of parameter `idx`, settings left out.
    pub fn inp_param_by_idx(&self, idx: usize) -> (r: Option<ParamId>)
        ensures
            match r {
                Some(p) => idx < node_params(*self).len() && p@ == param_of(*self, idx as int),
                None => idx >= node_params(*self).len(),
            },
    {
        let names = param_names(self);
        if idx < names.len() {
            proof {
                assert(strs_view(names@)[idx as int] == node_params(*self)[idx as int]);
            }
            Some(ParamId { name: names[idx], node: *self, idx: idx as u8 })
        } else {
            None
        }
    }

    /// The parameter ID of the setting with setting index `idx`.
    pub fn atom_param_by_idx(&self, idx: usize) -> (r: Option<ParamId>)
        ensures
            match r {
                Some(p) => exists|k: int|
                    0 <= k < node_atoms(*self).len() && #[trigger] node_atoms(*self)[k].at_idx == idx && p@ == param_of(
                        *self,
                        node_params(*self).len() + k,
                    ),
                None => forall|k: int| 0 <= k < node_atoms(*self).len() ==> #[trigger] node_atoms(*self)[k].at_idx != idx,
            },
    {
        let np = param_names(self).len();
        let rows = atom_rows(self);
        let ghost av = atoms_view(rows@);
        let mut k: usize = 0;
        while k < rows.len()
            invariant
                k <= rows@.len(),
                av == atoms_view(rows@),
                av == node_atoms(*self),
                np == node_params(*self).len(),
                forall|j: int| 0 <= j < k ==> #[trigger] av[j].at_idx != idx,
            decreases rows.len() - k,
        {
            proof {
                assert(av[k as int].at_idx == rows@[k as int].1);
            }
            if rows[k].1 == idx {
                proof {
                    assert(node_inputs(*self)[np + k] == av[k as int].name);
                }
                return Some(ParamId { name: rows[k].0, node: *self, idx: (np + k) as u8 });
            }
            k += 1;
        }
        None
    }

    /// The parameter ID of the input called `name`: a parameter, else a
    /// setting.
    pub fn inp_param(&self, name: &str) -> (r: Option<ParamId>)
        ensures
            match r {
                Some(p) => {
                    ||| first_index(node_params(*self), name@, Some(p@.idx as int)) && p@ == param_of(*self, p@.idx as int)
                    ||| first_index(node_params(*self), name@, None) && first_index(
                        atom_names(node_atoms(*self)),
                        name@,
                        Some(p@.idx - node_params(*self).len()),
                    ) && p@ == param_of(*self, p@.idx as int)
                },
                None => first_index(node_params(*self), name@, None) && first_index(
                    atom_names(node_atoms(*self)),
                    name@,
                    None,
                ),
            },
    {
        let names = param_names(self);
        match find_name(&names, name) {
            Some(i) => {
                return Some(ParamId { name: names[i], node: *self, idx: i as u8 });
            },
            None => {},
        }
        let rows = atom_rows(self);
        let ghost an = atom_names(atoms_view(rows@));
        proof {
            lemma_inputs_few(*self);
        }
        let mut k: usize = 0;
        while k < rows.len()
            invariant
                k <= rows@.len(),
                an == atom_names(atoms_view(rows@)),
                an == atom_names(node_atoms(*self)),
                an.len() == rows@.len(),
                strs_view(names@) == node_params(*self),
                names@.len() + rows@.len() < 256,
                first_index(node_params(*self), name@, None),
                forall|j: int| 0 <= j < k ==> an[j] != name@,
            decreases rows.len() - k,
        {
            proof {
                assert(an[k as int] == rows@[k as int].0@);
            }
            if str_equal(rows[k].0, name) {
                proof {
                    assert(node_inputs(*self)[names@.len() + k] == an[k as int]);
                }
                return Some(ParamId { name: rows[k].0, node: *self, idx: (names.len() + k) as u8 });
            }
            k += 1;
        }
        None
    }
}

/// The inputs and outputs of every node type, whatever its instance: the
/// parameters in input order, the outputs in output order, and the settings
/// with their setting index, control kind and range, after the parameters.
/// The node `Nop` has none.
pub proof fn law_node_ports(i: u8)
    ensures
        node_params(NodeId::Nop).len() == 0 && node_outputs(NodeId::Nop).len() == 0 && node_atoms(NodeId::Nop).len() == 0,
        node_params(NodeId::Amp(i)) == seq!["inp"@, "gain"@, "att"@],
        node_outputs(NodeId::Amp(i)) == seq!["sig"@],
        node_atoms(NodeId::Amp(i))[0] == (AtomSpec { name: "neg_att"@, at_idx: 0, ui: "mode"@, min: 0, max: 1 }),
        node_atoms(NodeId::Amp(i)).len() == 1,
        node_params(NodeId::Mix3(i)) == seq!["ch1"@, "ch2"@, "ch3"@, "gain1"@, "gain2"@, "gain3"@, "ogain"@],
        node_outputs(NodeId::Mix3(i)) == seq!["sig"@],
        node_atoms(NodeId::Mix3(i)).len() == 0,
        node_params(NodeId::Mux9(i)) == seq!["slct"@, "t_rst"@, "t_up"@, "t_down"@, "in_1"@, "in_2"@, "in_3"@, "in_4"@, "in_5"@, "in_6"@, "in_7"@, "in_8"@, "in_9"@],
        node_outputs(NodeId::Mux9(i)) == seq!["sig"@],
        node_atoms(NodeId::Mux9(i))[0] == (AtomSpec { name: "in_cnt"@, at_idx: 0, ui: "mode"@, min: 0, max: 8 }),
        node_atoms(NodeId::Mux9(i)).len() == 1,
        node_params(NodeId::SMap(i)) == seq!["inp"@, "min"@, "max"@],
        node_outputs(NodeId::SMap(i)) == seq!["sig"@],
        node_atoms(NodeId::SMap(i))[0] == (AtomSpec { name: "mode"@, at_idx: 1, ui: "mode"@, min: 0, max: 3 }),
        node_atoms(NodeId::SMap(i))[1] == (AtomSpec { name: "clip"@, at_idx: 0, ui: "mode"@, min: 0, max: 1 }),
        node_atoms(NodeId::SMap(i)).len() == 2,
        node_params(NodeId::MapRange(i)) == seq!["inp"@, "atv"@, "offs"@, "imin"@, "imax"@, "min"@, "max"@],
        node_outputs(NodeId::MapRange(i)) == seq!["sig"@],
        node_atoms(NodeId::MapRange(i))[0] == (AtomSpec { name: "clip"@, at_idx: 0, ui: "mode"@, min: 0, max: 1 }),
        node_atoms(NodeId::MapRange(i)).len() == 1,
        node_params(NodeId::Quant(i)) == seq!["freq"@, "oct"@],
        node_outputs(NodeId::Quant(i)) == seq!["sig"@, "t"@],
        node_atoms(NodeId::Quant(i))[0] == (AtomSpec { name: "keys"@, at_idx: 0, ui: "keys"@, min: 0, max: 0 }),
        node_atoms(NodeId::Quant(i)).len() == 1,
        node_params(NodeId::CQnt(i)) == seq!["inp"@, "oct"@],
        node_outputs(NodeId::CQnt(i)) == seq!["sig"@, "t"@],
        node_atoms(NodeId::CQnt(i))[0] == (AtomSpec { name: "keys"@, at_idx: 0, ui: "keys"@, min: 0, max: 0 }),
        node_atoms(NodeId::CQnt(i))[1] == (AtomSpec { name: "omin"@, at_idx: 1, ui: "mode"@, min: 0, max: 4 }),
        node_atoms(NodeId::CQnt(i))[2] == (AtomSpec { name: "omax"@, at_idx: 2, ui: "mode"@, min: 0, max: 4 }),
        node_atoms(NodeId::CQnt(i)).len() == 3,
        node_params(NodeId::TSeq(i)) == seq!["clock"@, "trig"@],
        node_outputs(NodeId::TSeq(i)) == seq!["trk1"@, "trk2"@, "trk3"@, "trk4"@, "trk5"@, "trk6"@, "gat1"@, "gat2"@, "gat3"@, "gat4"@, "gat5"@, "gat6"@],
        node_atoms(NodeId::TSeq(i))[0] == (AtomSpec { name: "cmode"@, at_idx: 0, ui: "mode"@, min: 0, max: 2 }),
        node_atoms(NodeId::TSeq(i)).len() == 1,
        node_params(NodeId::Sampl(i)) == seq!["freq"@, "trig"@, "offs"@, "len"@, "dcms"@, "det"@],
        node_outputs(NodeId::Sampl(i)) == seq!["sig"@],
        node_atoms(NodeId::Sampl(i))[0] == (AtomSpec { name: "sample"@, at_idx: 0, ui: "sample"@, min: 0, max: 0 }),
        node_atoms(NodeId::Sampl(i))[1] == (AtomSpec { name: "pmode"@, at_idx: 1, ui: "mode"@, min: 0, max: 1 }),
        node_atoms(NodeId::Sampl(i))[2] == (AtomSpec { name: "dclick"@, at_idx: 2, ui: "mode"@, min: 0, max: 1 }),
        node_atoms(NodeId::Sampl(i))[3] == (AtomSpec { name: "dir"@, at_idx: 3, ui: "mode"@, min: 0, max: 1 }),
        node_atoms(NodeId::Sampl(i)).len() == 4,
        node_params(NodeId::Sin(i)) == seq!["freq"@, "det"@],
        node_outputs(NodeId::Sin(i)) == seq!["sig"@],
        node_atoms(NodeId::Sin(i)).len() == 0,
        node_params(NodeId::BOsc(i)) == seq!["freq"@, "det"@, "pw"@],
        node_outputs(NodeId::BOsc(i)) == seq!["sig"@],
        node_atoms(NodeId::BOsc(i))[0] == (AtomSpec { name: "wtype"@, at_idx: 0, ui: "mode"@, min: 0, max: 3 }),
        node_atoms(NodeId::BOsc(i)).len() == 1,
        node_params(NodeId::VOsc(i)) == seq!["freq"@, "det"@, "d"@, "v"@, "vs"@, "damt"@],
        node_outputs(NodeId::VOsc(i)) == seq!["sig"@],
        node_atoms(NodeId::VOsc(i))[0] == (AtomSpec { name: "dist"@, at_idx: 0, ui: "mode"@, min: 0, max: 3 }),
        node_atoms(NodeId::VOsc(i))[1] == (AtomSpec { name: "ovrsmpl"@, at_idx: 1, ui: "mode"@, min: 0, max: 1 }),
        node_atoms(NodeId::VOsc(i)).len() == 2,
        node_params(NodeId::BowStri(i)) == seq!["freq"@, "det"@, "vel"@, "force"@, "pos"@],
        node_outputs(NodeId::BowStri(i)) == seq!["sig"@],
        node_atoms(NodeId::BowStri(i)).len() == 0,
        node_params(NodeId::Out(i)) == seq!["ch1"@, "ch2"@, "gain"@],
        node_outputs(NodeId::Out(i)) == Seq::<Seq<char>>::empty(),
        node_atoms(NodeId::Out(i))[0] == (AtomSpec { name: "mono"@, at_idx: 0, ui: "mode"@, min: 0, max: 1 }),
        node_atoms(NodeId::Out(i)).len() == 1,
        node_params(NodeId::FbWr(i)) == seq!["inp"@],
        node_outputs(NodeId::FbWr(i)) == Seq::<Seq<char>>::empty(),
        node_atoms(NodeId::FbWr(i)).len() == 0,
        node_params(NodeId::FbRd(i)) == seq!["atv"@],
        node_outputs(NodeId::FbRd(i)) == seq!["sig"@],
        node_atoms(NodeId::FbRd(i)).len() == 0,
        node_params(NodeId::Ad(i)) == seq!["inp"@, "trig"@, "atk"@, "dcy"@, "ashp"@, "dshp"@],
        node_outputs(NodeId::Ad(i)) == seq!["sig"@, "eoet"@],
        node_atoms(NodeId::Ad(i))[0] == (AtomSpec { name: "mult"@, at_idx: 0, ui: "mode"@, min: 0, max: 2 }),
        node_atoms(NodeId::Ad(i)).len() == 1,
        node_params(NodeId::TsLFO(i)) == seq!["time"@, "trig"@, "rev"@],
        node_outputs(NodeId::TsLFO(i)) == seq!["sig"@],
        node_atoms(NodeId::TsLFO(i)).len() == 0,
        node_params(NodeId::RndWk(i)) == seq!["trig"@, "step"@, "offs"@, "min"@, "max"@, "slew"@],
        node_outputs(NodeId::RndWk(i)) == seq!["sig"@],
        node_atoms(NodeId::RndWk(i)).len() == 0,
        node_params(NodeId::Delay(i)) == seq!["inp"@, "trig"@, "time"@, "fb"@, "mix"@],
        node_outputs(NodeId::Delay(i)) == seq!["sig"@],
        node_atoms(NodeId::Delay(i))[0] == (AtomSpec { name: "mode"@, at_idx: 0, ui: "mode"@, min: 0, max: 1 }),
        node_atoms(NodeId::Delay(i)).len() == 1,
        node_params(NodeId::AllP(i)) == seq!["inp"@, "time"@, "g"@],
        node_outputs(NodeId::AllP(i)) == seq!["sig"@],
        node_atoms(NodeId::AllP(i)).len() == 0,
        node_params(NodeId::Comb(i)) == seq!["inp"@, "time"@, "g"@],
        node_outputs(NodeId::Comb(i)) == seq!["sig"@],
        node_atoms(NodeId::Comb(i))[0] == (AtomSpec { name: "mode"@, at_idx: 0, ui: "mode"@, min: 0, max: 1 }),
        node_atoms(NodeId::Comb(i)).len() == 1,
        node_params(NodeId::Noise(i)) == seq!["atv"@, "offs"@],
        node_outputs(NodeId::Noise(i)) == seq!["sig"@],
        node_atoms(NodeId::Noise(i))[0] == (AtomSpec { name: "mode"@, at_idx: 0, ui: "mode"@, min: 0, max: 1 }),
        node_atoms(NodeId::Noise(i)).len() == 1,
        node_params(NodeId::SFilter(i)) == seq!["inp"@, "freq"@, "res"@],
        node_outputs(NodeId::SFilter(i)) == seq!["sig"@],
        node_atoms(NodeId::SFilter(i))[0] == (AtomSpec { name: "ftype"@, at_idx: 0, ui: "mode"@, min: 0, max: 13 }),
        node_atoms(NodeId::SFilter(i)).len() == 1,
        node_params(NodeId::BiqFilt(i)) == seq!["inp"@, "freq"@, "q"@, "gain"@],
        node_outputs(NodeId::BiqFilt(i)) == seq!["sig"@],
        node_atoms(NodeId::BiqFilt(i))[0] == (AtomSpec { name: "ftype"@, at_idx: 0, ui: "mode"@, min: 0, max: 1 }),
        node_atoms(NodeId::BiqFilt(i))[1] == (AtomSpec { name: "order"@, at_idx: 1, ui: "mode"@, min: 0, max: 3 }),
        node_atoms(NodeId::BiqFilt(i)).len() == 2,
        node_params(NodeId::PVerb(i)) == seq!["in_l"@, "in_r"@, "predly"@, "size"@, "dcy"@, "ilpf"@, "ihpf"@, "dif"@, "dmix"@, "mspeed"@, "mshp"@, "mdepth"@, "rlpf"@, "rhpf"@, "mix"@],
        node_outputs(NodeId::PVerb(i)) == seq!["sig_l"@, "sig_r"@],
        node_atoms(NodeId::PVerb(i)).len() == 0,
        node_params(NodeId::Gz3Filt(i)) == seq!["inp"@, "freq1"@, "freq2"@, "freq3"@, "latency"@, "gain"@],
        node_outputs(NodeId::Gz3Filt(i)) == seq!["sig"@],
        node_atoms(NodeId::Gz3Filt(i)).len() == 0,
        node_params(NodeId::Test(i)) == seq!["f"@],
        node_outputs(NodeId::Test(i)) == seq!["sig"@, "tsig"@, "out2"@, "out3"@, "out4"@, "outc"@],
        node_atoms(NodeId::Test(i))[0] == (AtomSpec { name: "p"@, at_idx: 0, ui: "knob"@, min: 0, max: 10 }),
        node_atoms(NodeId::Test(i))[1] == (AtomSpec { name: "trig"@, at_idx: 1, ui: "knob"@, min: 0, max: 0 }),
        node_atoms(NodeId::Test(i)).len() == 2,
{
}

} // verus!
