//! The node types of the DSP graph, as far as the node lists and random
//! node picks need them.

use vstd::prelude::*;
use crate::dsp::UICategory;
use crate::text::str_equal;

verus! {

/// A node type with its instance number.
#[derive(Debug, Clone, Copy, PartialEq, Eq, Structural)]
pub enum NodeId {
    Nop,
    Amp(u8),
    Mix3(u8),
    Mux9(u8),
    SMap(u8),
    MapRange(u8),
    Quant(u8),
    CQnt(u8),
    TSeq(u8),
    Sampl(u8),
    Sin(u8),
    BOsc(u8),
    VOsc(u8),
    BowStri(u8),
    Out(u8),
    FbWr(u8),
    FbRd(u8),
    Ad(u8),
    TsLFO(u8),
    RndWk(u8),
    Delay(u8),
    AllP(u8),
    Comb(u8),
    Noise(u8),
    SFilter(u8),
    BiqFilt(u8),
    PVerb(u8),
    Gz3Filt(u8),
    Test(u8),
}

/// The category a node type is listed under.
pub open spec fn node_category(n: NodeId) -> UICategory {
    match n {
        NodeId::Nop => UICategory::Uncategorized,
        NodeId::Amp(_) => UICategory::Signal,
        NodeId::Mix3(_) => UICategory::NtoM,
        NodeId::Mux9(_) => UICategory::NtoM,
        NodeId::SMap(_) => UICategory::Ctrl,
        NodeId::MapRange(_) => UICategory::Ctrl,
        NodeId::Quant(_) => UICategory::Ctrl,
        NodeId::CQnt(_) => UICategory::Ctrl,
        NodeId::TSeq(_) => UICategory::Mod,
        NodeId::Sampl(_) => UICategory::Osc,
        NodeId::Sin(_) => UICategory::Osc,
        NodeId::BOsc(_) => UICategory::Osc,
        NodeId::VOsc(_) => UICategory::Osc,
        NodeId::BowStri(_) => UICategory::Osc,
        NodeId::Out(_) => UICategory::IOUtil,
        NodeId::FbWr(_) => UICategory::IOUtil,
        NodeId::FbRd(_) => UICategory::IOUtil,
        NodeId::Ad(_) => UICategory::Mod,
        NodeId::TsLFO(_) => UICategory::Mod,
        NodeId::RndWk(_) => UICategory::Mod,
        NodeId::Delay(_) => UICategory::Signal,
        NodeId::AllP(_) => UICategory::Signal,
        NodeId::Comb(_) => UICategory::Signal,
        NodeId::Noise(_) => UICategory::Osc,
        NodeId::SFilter(_) => UICategory::Signal,
        NodeId::BiqFilt(_) => UICategory::Signal,
        NodeId::PVerb(_) => UICategory::Signal,
        NodeId::Gz3Filt(_) => UICategory::Signal,
        NodeId::Test(_) => UICategory::IOUtil,
    }
}

/// The instance number of a node.
pub open spec fn node_instance(n: NodeId) -> u8 {
    match n {
        NodeId::Nop => 0,
        NodeId::Amp(i) => i,
        NodeId::Mix3(i) => i,
        NodeId::Mux9(i) => i,
        NodeId::SMap(i) => i,
        NodeId::MapRange(i) => i,
        NodeId::Quant(i) => i,
        NodeId::CQnt(i) => i,
        NodeId::TSeq(i) => i,
        NodeId::Sampl(i) => i,
        NodeId::Sin(i) => i,
        NodeId::BOsc(i) => i,
        NodeId::VOsc(i) => i,
        NodeId::BowStri(i) => i,
        NodeId::Out(i) => i,
        NodeId::FbWr(i) => i,
        NodeId::FbRd(i) => i,
        NodeId::Ad(i) => i,
        NodeId::TsLFO(i) => i,
        NodeId::RndWk(i) => i,
        NodeId::Delay(i) => i,
        NodeId::AllP(i) => i,
        NodeId::Comb(i) => i,
        NodeId::Noise(i) => i,
        NodeId::SFilter(i) => i,
        NodeId::BiqFilt(i) => i,
        NodeId::PVerb(i) => i,
        NodeId::Gz3Filt(i) => i,
        NodeId::Test(i) => i,
    }
}

/// All node types except `Nop`, with instance 0, in list order.
pub open spec fn all_nodes() -> Seq<NodeId> {
    seq![
        NodeId::Amp(0),
        NodeId::Mix3(0),
        NodeId::Mux9(0),
        NodeId::SMap(0),
        NodeId::MapRange(0),
        NodeId::Quant(0),
        NodeId::CQnt(0),
        NodeId::TSeq(0),
        NodeId::Sampl(0),
        NodeId::Sin(0),
        NodeId::BOsc(0),
        NodeId::VOsc(0),
        NodeId::BowStri(0),
        NodeId::Out(0),
        NodeId::FbWr(0),
        NodeId::FbRd(0),
        NodeId::Ad(0),
        NodeId::TsLFO(0),
        NodeId::RndWk(0),
        NodeId::Delay(0),
        NodeId::AllP(0),
        NodeId::Comb(0),
        NodeId::Noise(0),
        NodeId::SFilter(0),
        NodeId::BiqFilt(0),
        NodeId::PVerb(0),
        NodeId::Gz3Filt(0),
        NodeId::Test(0)
    ]
}

/// The name a user writes for a node type.
pub open spec fn node_name(n: NodeId) -> Seq<char> {
    match n {
        NodeId::Nop => "nop"@,
        NodeId::Amp(_) => "amp"@,
        NodeId::Mix3(_) => "mix3"@,
        NodeId::Mux9(_) => "mux9"@,
        NodeId::SMap(_) => "smap"@,
        NodeId::MapRange(_) => "map"@,
        NodeId::Quant(_) => "quant"@,
        NodeId::CQnt(_) => "cqnt"@,
        NodeId::TSeq(_) => "tseq"@,
        NodeId::Sampl(_) => "sampl"@,
        NodeId::Sin(_) => "sin"@,
        NodeId::BOsc(_) => "bosc"@,
        NodeId::VOsc(_) => "vosc"@,
        NodeId::BowStri(_) => "bowstri"@,
        NodeId::Out(_) => "out"@,
        NodeId::FbWr(_) => "fbwr"@,
        NodeId::FbRd(_) => "fbrd"@,
        NodeId::Ad(_) => "ad"@,
        NodeId::TsLFO(_) => "tslfo"@,
        NodeId::RndWk(_) => "rndwk"@,
        NodeId::Delay(_) => "delay"@,
        NodeId::AllP(_) => "allp"@,
        NodeId::Comb(_) => "comb"@,
        NodeId::Noise(_) => "noise"@,
        NodeId::SFilter(_) => "sfilter"@,
        NodeId::BiqFilt(_) => "biqfilt"@,
        NodeId::PVerb(_) => "pverb"@,
        NodeId::Gz3Filt(_) => "goertzel"@,
        NodeId::Test(_) => "test"@,
    }
}

/// The label a node type is shown with.
pub open spec fn node_label(n: NodeId) -> Seq<char> {
    match n {
        NodeId::Nop => "Nop"@,
        NodeId::Amp(_) => "Amp"@,
        NodeId::Mix3(_) => "Mix3"@,
        NodeId::Mux9(_) => "Mux9"@,
        NodeId::SMap(_) => "SMap"@,
        NodeId::MapRange(_) => "Map"@,
        NodeId::Quant(_) => "Quant"@,
        NodeId::CQnt(_) => "CQnt"@,
        NodeId::TSeq(_) => "TSeq"@,
        NodeId::Sampl(_) => "Sampl"@,
        NodeId::Sin(_) => "Sin"@,
        NodeId::BOsc(_) => "BOsc"@,
        NodeId::VOsc(_) => "VOsc"@,
        NodeId::BowStri(_) => "BowStri"@,
        NodeId::Out(_) => "Out"@,
        NodeId::FbWr(_) => "FbWr"@,
        NodeId::FbRd(_) => "FbRd"@,
        NodeId::Ad(_) => "Ad"@,
        NodeId::TsLFO(_) => "TsLFO"@,
        NodeId::RndWk(_) => "RndWk"@,
        NodeId::Delay(_) => "Delay"@,
        NodeId::AllP(_) => "AllP"@,
        NodeId::Comb(_) => "Comb"@,
        NodeId::Noise(_) => "Noise"@,
        NodeId::SFilter(_) => "SFilter"@,
        NodeId::BiqFilt(_) => "BiqFilt"@,
        NodeId::PVerb(_) => "PVerb"@,
        NodeId::Gz3Filt(_) => "Gz3Filt"@,
        NodeId::Test(_) => "Test"@,
    }
}

/// The node type `n` with instance number `i`.
pub open spec fn node_with_instance(n: NodeId, i: u8) -> NodeId {
    match n {
        NodeId::Nop => NodeId::Nop,
        NodeId::Amp(_) => NodeId::Amp(i),
        NodeId::Mix3(_) => NodeId::Mix3(i),
        NodeId::Mux9(_) => NodeId::Mux9(i),
        NodeId::SMap(_) => NodeId::SMap(i),
        NodeId::MapRange(_) => NodeId::MapRange(i),
        NodeId::Quant(_) => NodeId::Quant(i),
        NodeId::CQnt(_) => NodeId::CQnt(i),
        NodeId::TSeq(_) => NodeId::TSeq(i),
        NodeId::Sampl(_) => NodeId::Sampl(i),
        NodeId::Sin(_) => NodeId::Sin(i),
        NodeId::BOsc(_) => NodeId::BOsc(i),
        NodeId::VOsc(_) => NodeId::VOsc(i),
        NodeId::BowStri(_) => NodeId::BowStri(i),
        NodeId::Out(_) => NodeId::Out(i),
        NodeId::FbWr(_) => NodeId::FbWr(i),
        NodeId::FbRd(_) => NodeId::FbRd(i),
        NodeId::Ad(_) => NodeId::Ad(i),
        NodeId::TsLFO(_) => NodeId::TsLFO(i),
        NodeId::RndWk(_) => NodeId::RndWk(i),
        NodeId::Delay(_) => NodeId::Delay(i),
        NodeId::AllP(_) => NodeId::AllP(i),
        NodeId::Comb(_) => NodeId::Comb(i),
        NodeId::Noise(_) => NodeId::Noise(i),
        NodeId::SFilter(_) => NodeId::SFilter(i),
        NodeId::BiqFilt(_) => NodeId::BiqFilt(i),
        NodeId::PVerb(_) => NodeId::PVerb(i),
        NodeId::Gz3Filt(_) => NodeId::Gz3Filt(i),
        NodeId::Test(_) => NodeId::Test(i),
    }
}

/// `a` and `b` are of the same node type, whatever their instances.
pub open spec fn same_variant(a: NodeId, b: NodeId) -> bool {
    node_with_instance(a, 0) == node_with_instance(b, 0)
}

/// Node types are told apart by their names: the node type of instance 0
/// that has the name of `n` is `n` with instance 0, so reading back the name
/// of a node type gives that node type.
pub proof fn law_name_round_trip(n: NodeId, r: NodeId)
    requires
        node_name(r) == node_name(n),
        node_instance(r) == 0,
    ensures
        r == node_with_instance(n, 0),
{
    reveal_strlit("nop");
    assert("nop"@.len() == 3 && "nop"@[0] == 'n' && "nop"@[1] == 'o' && "nop"@[2] == 'p');
    reveal_strlit("amp");
    assert("amp"@.len() == 3 && "amp"@[0] == 'a' && "amp"@[1] == 'm' && "amp"@[2] == 'p');
    reveal_strlit("mix3");
    assert("mix3"@.len() == 4 && "mix3"@[0] == 'm' && "mix3"@[1] == 'i' && "mix3"@[2] == 'x' && "mix3"@[3] == '3');
    reveal_strlit("mux9");
    assert("mux9"@.len() == 4 && "mux9"@[0] == 'm' && "mux9"@[1] == 'u' && "mux9"@[2] == 'x' && "mux9"@[3] == '9');
    reveal_strlit("smap");
    assert("smap"@.len() == 4 && "smap"@[0] == 's' && "smap"@[1] == 'm' && "smap"@[2] == 'a' && "smap"@[3] == 'p');
    reveal_strlit("map");
    assert("map"@.len() == 3 && "map"@[0] == 'm' && "map"@[1] == 'a' && "map"@[2] == 'p');
    reveal_strlit("quant");
    assert("quant"@.len() == 5 && "quant"@[0] == 'q' && "quant"@[1] == 'u' && "quant"@[2] == 'a' && "quant"@[3] == 'n' && "quant"@[4] == 't');
    reveal_strlit("cqnt");
    assert("cqnt"@.len() == 4 && "cqnt"@[0] == 'c' && "cqnt"@[1] == 'q' && "cqnt"@[2] == 'n' && "cqnt"@[3] == 't');
    reveal_strlit("tseq");
    assert("tseq"@.len() == 4 && "tseq"@[0] == 't' && "tseq"@[1] == 's' && "tseq"@[2] == 'e' && "tseq"@[3] == 'q');
    reveal_strlit("sampl");
    assert("sampl"@.len() == 5 && "sampl"@[0] == 's' && "sampl"@[1] == 'a' && "sampl"@[2] == 'm' && "sampl"@[3] == 'p' && "sampl"@[4] == 'l');
    reveal_strlit("sin");
    assert("sin"@.len() == 3 && "sin"@[0] == 's' && "sin"@[1] == 'i' && "sin"@[2] == 'n');
    reveal_strlit("bosc");
    assert("bosc"@.len() == 4 && "bosc"@[0] == 'b' && "bosc"@[1] == 'o' && "bosc"@[2] == 's' && "bosc"@[3] == 'c');
    reveal_strlit("vosc");
    assert("vosc"@.len() == 4 && "vosc"@[0] == 'v' && "vosc"@[1] == 'o' && "vosc"@[2] == 's' && "vosc"@[3] == 'c');
    reveal_strlit("bowstri");
    assert("bowstri"@.len() == 7 && "bowstri"@[0] == 'b' && "bowstri"@[1] == 'o' && "bowstri"@[2] == 'w' && "bowstri"@[3] == 's' && "bowstri"@[4] == 't' && "bowstri"@[5] == 'r' && "bowstri"@[6] == 'i');
    reveal_strlit("out");
    assert("out"@.len() == 3 && "out"@[0] == 'o' && "out"@[1] == 'u' && "out"@[2] == 't');
    reveal_strlit("fbwr");
    assert("fbwr"@.len() == 4 && "fbwr"@[0] == 'f' && "fbwr"@[1] == 'b' && "fbwr"@[2] == 'w' && "fbwr"@[3] == 'r');
    reveal_strlit("fbrd");
    assert("fbrd"@.len() == 4 && "fbrd"@[0] == 'f' && "fbrd"@[1] == 'b' && "fbrd"@[2] == 'r' && "fbrd"@[3] == 'd');
    reveal_strlit("ad");
    assert("ad"@.len() == 2 && "ad"@[0] == 'a' && "ad"@[1] == 'd');
    reveal_strlit("tslfo");
    assert("tslfo"@.len() == 5 && "tslfo"@[0] == 't' && "tslfo"@[1] == 's' && "tslfo"@[2] == 'l' && "tslfo"@[3] == 'f' && "tslfo"@[4] == 'o');
    reveal_strlit("rndwk");
    assert("rndwk"@.len() == 5 && "rndwk"@[0] == 'r' && "rndwk"@[1] == 'n' && "rndwk"@[2] == 'd' && "rndwk"@[3] == 'w' && "rndwk"@[4] == 'k');
    reveal_strlit("delay");
    assert("delay"@.len() == 5 && "delay"@[0] == 'd' && "delay"@[1] == 'e' && "delay"@[2] == 'l' && "delay"@[3] == 'a' && "delay"@[4] == 'y');
    reveal_strlit("allp");
    assert("allp"@.len() == 4 && "allp"@[0] == 'a' && "allp"@[1] == 'l' && "allp"@[2] == 'l' && "allp"@[3] == 'p');
    reveal_strlit("comb");
    assert("comb"@.len() == 4 && "comb"@[0] == 'c' && "comb"@[1] == 'o' && "comb"@[2] == 'm' && "comb"@[3] == 'b');
    reveal_strlit("noise");
    assert("noise"@.len() == 5 && "noise"@[0] == 'n' && "noise"@[1] == 'o' && "noise"@[2] == 'i' && "noise"@[3] == 's' && "noise"@[4] == 'e');
    reveal_strlit("sfilter");
    assert("sfilter"@.len() == 7 && "sfilter"@[0] == 's' && "sfilter"@[1] == 'f' && "sfilter"@[2] == 'i' && "sfilter"@[3] == 'l' && "sfilter"@[4] == 't' && "sfilter"@[5] == 'e' && "sfilter"@[6] == 'r');
    reveal_strlit("biqfilt");
    assert("biqfilt"@.len() == 7 && "biqfilt"@[0] == 'b' && "biqfilt"@[1] == 'i' && "biqfilt"@[2] == 'q' && "biqfilt"@[3] == 'f' && "biqfilt"@[4] == 'i' && "biqfilt"@[5] == 'l' && "biqfilt"@[6] == 't');
    reveal_strlit("pverb");
    assert("pverb"@.len() == 5 && "pverb"@[0] == 'p' && "pverb"@[1] == 'v' && "pverb"@[2] == 'e' && "pverb"@[3] == 'r' && "pverb"@[4] == 'b');
    reveal_strlit("goertzel");
    assert("goertzel"@.len() == 8 && "goertzel"@[0] == 'g' && "goertzel"@[1] == 'o' && "goertzel"@[2] == 'e' && "goertzel"@[3] == 'r' && "goertzel"@[4] == 't' && "goertzel"@[5] == 'z' && "goertzel"@[6] == 'e' && "goertzel"@[7] == 'l');
    reveal_strlit("test");
    assert("test"@.len() == 4 && "test"@[0] == 't' && "test"@[1] == 'e' && "test"@[2] == 's' && "test"@[3] == 't');
}

impl NodeId {
    /// The label this node type is shown with.
    pub fn label(&self) -> (r: &'static str)
        ensures
            r@ == node_label(*self),
    {
        match self {
            NodeId::Nop => "Nop",
            NodeId::Amp(_) => "Amp",
            NodeId::Mix3(_) => "Mix3",
            NodeId::Mux9(_) => "Mux9",
            NodeId::SMap(_) => "SMap",
            NodeId::MapRange(_) => "Map",
            NodeId::Quant(_) => "Quant",
            NodeId::CQnt(_) => "CQnt",
            NodeId::TSeq(_) => "TSeq",
            NodeId::Sampl(_) => "Sampl",
            NodeId::Sin(_) => "Sin",
            NodeId::BOsc(_) => "BOsc",
            NodeId::VOsc(_) => "VOsc",
            NodeId::BowStri(_) => "BowStri",
            NodeId::Out(_) => "Out",
            NodeId::FbWr(_) => "FbWr",
            NodeId::FbRd(_) => "FbRd",
            NodeId::Ad(_) => "Ad",
            NodeId::TsLFO(_) => "TsLFO",
            NodeId::RndWk(_) => "RndWk",
            NodeId::Delay(_) => "Delay",
            NodeId::AllP(_) => "AllP",
            NodeId::Comb(_) => "Comb",
            NodeId::Noise(_) => "Noise",
            NodeId::SFilter(_) => "SFilter",
            NodeId::BiqFilt(_) => "BiqFilt",
            NodeId::PVerb(_) => "PVerb",
            NodeId::Gz3Filt(_) => "Gz3Filt",
            NodeId::Test(_) => "Test",
        }
    }

    /// The name a user writes for this node type.
    pub fn name(&self) -> (r: &'static str)
        ensures
            r@ == node_name(*self),
    {
        match self {
            NodeId::Nop => "nop",
            NodeId::Amp(_) => "amp",
            NodeId::Mix3(_) => "mix3",
            NodeId::Mux9(_) => "mux9",
            NodeId::SMap(_) => "smap",
            NodeId::MapRange(_) => "map",
            NodeId::Quant(_) => "quant",
            NodeId::CQnt(_) => "cqnt",
            NodeId::TSeq(_) => "tseq",
            NodeId::Sampl(_) => "sampl",
            NodeId::Sin(_) => "sin",
            NodeId::BOsc(_) => "bosc",
            NodeId::VOsc(_) => "vosc",
            NodeId::BowStri(_) => "bowstri",
            NodeId::Out(_) => "out",
            NodeId::FbWr(_) => "fbwr",
            NodeId::FbRd(_) => "fbrd",
            NodeId::Ad(_) => "ad",
            NodeId::TsLFO(_) => "tslfo",
            NodeId::RndWk(_) => "rndwk",
            NodeId::Delay(_) => "delay",
            NodeId::AllP(_) => "allp",
            NodeId::Comb(_) => "comb",
            NodeId::Noise(_) => "noise",
            NodeId::SFilter(_) => "sfilter",
            NodeId::BiqFilt(_) => "biqfilt",
            NodeId::PVerb(_) => "pverb",
            NodeId::Gz3Filt(_) => "goertzel",
            NodeId::Test(_) => "test",
        }
    }

    /// Whether `other` is of the same node type, whatever its instance.
    pub fn eq_variant(&self, other: &NodeId) -> (r: bool)
        ensures
            r == same_variant(*self, *other),
    {
        self.to_instance(0) == other.to_instance(0)
    }

    /// The node type, with instance 0, that `name` names; `Nop` for a name
    /// of no node type.
    pub fn from_str(name: &str) -> (r: NodeId)
        ensures
            node_name(r) == name@ && node_instance(r) == 0 || r == NodeId::Nop && forall|n: NodeId| node_name(n) != name@,
    {
        if str_equal(name, "nop") {
            return NodeId::Nop;
        }
        if str_equal(name, "amp") {
            return NodeId::Amp(0);
        }
        if str_equal(name, "mix3") {
            return NodeId::Mix3(0);
        }
        if str_equal(name, "mux9") {
            return NodeId::Mux9(0);
        }
        if str_equal(name, "smap") {
            return NodeId::SMap(0);
        }
        if str_equal(name, "map") {
            return NodeId::MapRange(0);
        }
        if str_equal(name, "quant") {
            return NodeId::Quant(0);
        }
        if str_equal(name, "cqnt") {
            return NodeId::CQnt(0);
        }
        if str_equal(name, "tseq") {
            return NodeId::TSeq(0);
        }
        if str_equal(name, "sampl") {
            return NodeId::Sampl(0);
        }
        if str_equal(name, "sin") {
            return NodeId::Sin(0);
        }
        if str_equal(name, "bosc") {
            return NodeId::BOsc(0);
        }
        if str_equal(name, "vosc") {
            return NodeId::VOsc(0);
        }
        if str_equal(name, "bowstri") {
            return NodeId::BowStri(0);
        }
        if str_equal(name, "out") {
            return NodeId::Out(0);
        }
        if str_equal(name, "fbwr") {
            return NodeId::FbWr(0);
        }
        if str_equal(name, "fbrd") {
            return NodeId::FbRd(0);
        }
        if str_equal(name, "ad") {
            return NodeId::Ad(0);
        }
        if str_equal(name, "tslfo") {
            return NodeId::TsLFO(0);
        }
        if str_equal(name, "rndwk") {
            return NodeId::RndWk(0);
        }
        if str_equal(name, "delay") {
            return NodeId::Delay(0);
        }
        if str_equal(name, "allp") {
            return NodeId::AllP(0);
        }
        if str_equal(name, "comb") {
            return NodeId::Comb(0);
        }
        if str_equal(name, "noise") {
            return NodeId::Noise(0);
        }
        if str_equal(name, "sfilter") {
            return NodeId::SFilter(0);
        }
        if str_equal(name, "biqfilt") {
            return NodeId::BiqFilt(0);
        }
        if str_equal(name, "pverb") {
            return NodeId::PVerb(0);
        }
        if str_equal(name, "goertzel") {
            return NodeId::Gz3Filt(0);
        }
        if str_equal(name, "test") {
            return NodeId::Test(0);
        }
        NodeId::Nop
    }

    /// The category this node type is listed under.
    pub fn ui_category(&self) -> (r: UICategory)
        ensures
            r == node_category(*self),
    {
        match self {
            NodeId::Nop => UICategory::Uncategorized,
            NodeId::Amp(_) => UICategory::Signal,
            NodeId::Mix3(_) => UICategory::NtoM,
            NodeId::Mux9(_) => UICategory::NtoM,
            NodeId::SMap(_) => UICategory::Ctrl,
            NodeId::MapRange(_) => UICategory::Ctrl,
            NodeId::Quant(_) => UICategory::Ctrl,
            NodeId::CQnt(_) => UICategory::Ctrl,
            NodeId::TSeq(_) => UICategory::Mod,
            NodeId::Sampl(_) => UICategory::Osc,
            NodeId::Sin(_) => UICategory::Osc,
            NodeId::BOsc(_) => UICategory::Osc,
            NodeId::VOsc(_) => UICategory::Osc,
            NodeId::BowStri(_) => UICategory::Osc,
            NodeId::Out(_) => UICategory::IOUtil,
            NodeId::FbWr(_) => UICategory::IOUtil,
            NodeId::FbRd(_) => UICategory::IOUtil,
            NodeId::Ad(_) => UICategory::Mod,
            NodeId::TsLFO(_) => UICategory::Mod,
            NodeId::RndWk(_) => UICategory::Mod,
            NodeId::Delay(_) => UICategory::Signal,
            NodeId::AllP(_) => UICategory::Signal,
            NodeId::Comb(_) => UICategory::Signal,
            NodeId::Noise(_) => UICategory::Osc,
            NodeId::SFilter(_) => UICategory::Signal,
            NodeId::BiqFilt(_) => UICategory::Signal,
            NodeId::PVerb(_) => UICategory::Signal,
            NodeId::Gz3Filt(_) => UICategory::Signal,
            NodeId::Test(_) => UICategory::IOUtil,
        }
    }

    /// The instance number.
    pub fn instance(&self) -> (r: usize)
        ensures
            r == node_instance(*self),
    {
        match self {
            NodeId::Nop => 0,
            NodeId::Amp(i) => *i as usize,
            NodeId::Mix3(i) => *i as usize,
            NodeId::Mux9(i) => *i as usize,
            NodeId::SMap(i) => *i as usize,
            NodeId::MapRange(i) => *i as usize,
            NodeId::Quant(i) => *i as usize,
            NodeId::CQnt(i) => *i as usize,
            NodeId::TSeq(i) => *i as usize,
            NodeId::Sampl(i) => *i as usize,
            NodeId::Sin(i) => *i as usize,
            NodeId::BOsc(i) => *i as usize,
            NodeId::VOsc(i) => *i as usize,
            NodeId::BowStri(i) => *i as usize,
            NodeId::Out(i) => *i as usize,
            NodeId::FbWr(i) => *i as usize,
            NodeId::FbRd(i) => *i as usize,
            NodeId::Ad(i) => *i as usize,
            NodeId::TsLFO(i) => *i as usize,
            NodeId::RndWk(i) => *i as usize,
            NodeId::Delay(i) => *i as usize,
            NodeId::AllP(i) => *i as usize,
            NodeId::Comb(i) => *i as usize,
            NodeId::Noise(i) => *i as usize,
            NodeId::SFilter(i) => *i as usize,
            NodeId::BiqFilt(i) => *i as usize,
            NodeId::PVerb(i) => *i as usize,
            NodeId::Gz3Filt(i) => *i as usize,
            NodeId::Test(i) => *i as usize,
        }
    }

    /// The same node type with another instance number.
    pub fn to_instance(&self, instance: usize) -> (r: NodeId)
        ensures
            r == node_with_instance(*self, instance as u8),
            node_category(r) == node_category(*self),
            *self != NodeId::Nop ==> node_instance(r) == instance as u8,
            (r == NodeId::Nop) == (*self == NodeId::Nop),
    {
        let inst: u8 = instance as u8;
        match self {
            NodeId::Nop => NodeId::Nop,
            NodeId::Amp(_) => NodeId::Amp(inst),
            NodeId::Mix3(_) => NodeId::Mix3(inst),
            NodeId::Mux9(_) => NodeId::Mux9(inst),
            NodeId::SMap(_) => NodeId::SMap(inst),
            NodeId::MapRange(_) => NodeId::MapRange(inst),
            NodeId::Quant(_) => NodeId::Quant(inst),
            NodeId::CQnt(_) => NodeId::CQnt(inst),
            NodeId::TSeq(_) => NodeId::TSeq(inst),
            NodeId::Sampl(_) => NodeId::Sampl(inst),
            NodeId::Sin(_) => NodeId::Sin(inst),
            NodeId::BOsc(_) => NodeId::BOsc(inst),
            NodeId::VOsc(_) => NodeId::VOsc(inst),
            NodeId::BowStri(_) => NodeId::BowStri(inst),
            NodeId::Out(_) => NodeId::Out(inst),
            NodeId::FbWr(_) => NodeId::FbWr(inst),
            NodeId::FbRd(_) => NodeId::FbRd(inst),
            NodeId::Ad(_) => NodeId::Ad(inst),
            NodeId::TsLFO(_) => NodeId::TsLFO(inst),
            NodeId::RndWk(_) => NodeId::RndWk(inst),
            NodeId::Delay(_) => NodeId::Delay(inst),
            NodeId::AllP(_) => NodeId::AllP(inst),
            NodeId::Comb(_) => NodeId::Comb(inst),
            NodeId::Noise(_) => NodeId::Noise(inst),
            NodeId::SFilter(_) => NodeId::SFilter(inst),
            NodeId::BiqFilt(_) => NodeId::BiqFilt(inst),
            NodeId::PVerb(_) => NodeId::PVerb(inst),
            NodeId::Gz3Filt(_) => NodeId::Gz3Filt(inst),
            NodeId::Test(_) => NodeId::Test(inst),
        }
    }
}

/// All node types except `Nop`, with instance 0, in list order.
pub fn all_node_ids() -> (r: Vec<NodeId>)
    ensures
        r@ == all_nodes(),
{
    let mut v: Vec<NodeId> = Vec::new();
    v.push(NodeId::Amp(0));
    v.push(NodeId::Mix3(0));
    v.push(NodeId::Mux9(0));
    v.push(NodeId::SMap(0));
    v.push(NodeId::MapRange(0));
    v.push(NodeId::Quant(0));
    v.push(NodeId::CQnt(0));
    v.push(NodeId::TSeq(0));
    v.push(NodeId::Sampl(0));
    v.push(NodeId::Sin(0));
    v.push(NodeId::BOsc(0));
    v.push(NodeId::VOsc(0));
    v.push(NodeId::BowStri(0));
    v.push(NodeId::Out(0));
    v.push(NodeId::FbWr(0));
    v.push(NodeId::FbRd(0));
    v.push(NodeId::Ad(0));
    v.push(NodeId::TsLFO(0));
    v.push(NodeId::RndWk(0));
    v.push(NodeId::Delay(0));
    v.push(NodeId::AllP(0));
    v.push(NodeId::Comb(0));
    v.push(NodeId::Noise(0));
    v.push(NodeId::SFilter(0));
    v.push(NodeId::BiqFilt(0));
    v.push(NodeId::PVerb(0));
    v.push(NodeId::Gz3Filt(0));
    v.push(NodeId::Test(0));
    proof {
        assert(v@ =~= all_nodes());
    }
    v
}

/// The name a user writes for each node type, the label it is shown with and
/// the category it is listed under, whatever its instance.
pub proof fn law_node_names(i: u8)
    ensures
        node_name(NodeId::Nop) == "nop"@ && node_label(NodeId::Nop) == "Nop"@,
        node_name(NodeId::Amp(i)) == "amp"@ && node_label(NodeId::Amp(i)) == "Amp"@,
        node_category(NodeId::Amp(i)) == UICategory::Signal,
        node_name(NodeId::Mix3(i)) == "mix3"@ && node_label(NodeId::Mix3(i)) == "Mix3"@,
        node_category(NodeId::Mix3(i)) == UICategory::NtoM,
        node_name(NodeId::Mux9(i)) == "mux9"@ && node_label(NodeId::Mux9(i)) == "Mux9"@,
        node_category(NodeId::Mux9(i)) == UICategory::NtoM,
        node_name(NodeId::SMap(i)) == "smap"@ && node_label(NodeId::SMap(i)) == "SMap"@,
        node_category(NodeId::SMap(i)) == UICategory::Ctrl,
        node_name(NodeId::MapRange(i)) == "map"@ && node_label(NodeId::MapRange(i)) == "Map"@,
        node_category(NodeId::MapRange(i)) == UICategory::Ctrl,
        node_name(NodeId::Quant(i)) == "quant"@ && node_label(NodeId::Quant(i)) == "Quant"@,
        node_category(NodeId::Quant(i)) == UICategory::Ctrl,
        node_name(NodeId::CQnt(i)) == "cqnt"@ && node_label(NodeId::CQnt(i)) == "CQnt"@,
        node_category(NodeId::CQnt(i)) == UICategory::Ctrl,
        node_name(NodeId::TSeq(i)) == "tseq"@ && node_label(NodeId::TSeq(i)) == "TSeq"@,
        node_category(NodeId::TSeq(i)) == UICategory::Mod,
        node_name(NodeId::Sampl(i)) == "sampl"@ && node_label(NodeId::Sampl(i)) == "Sampl"@,
        node_category(NodeId::Sampl(i)) == UICategory::Osc,
        node_name(NodeId::Sin(i)) == "sin"@ && node_label(NodeId::Sin(i)) == "Sin"@,
        node_category(NodeId::Sin(i)) == UICategory::Osc,
        node_name(NodeId::BOsc(i)) == "bosc"@ && node_label(NodeId::BOsc(i)) == "BOsc"@,
        node_category(NodeId::BOsc(i)) == UICategory::Osc,
        node_name(NodeId::VOsc(i)) == "vosc"@ && node_label(NodeId::VOsc(i)) == "VOsc"@,
        node_category(NodeId::VOsc(i)) == UICategory::Osc,
        node_name(NodeId::BowStri(i)) == "bowstri"@ && node_label(NodeId::BowStri(i)) == "BowStri"@,
        node_category(NodeId::BowStri(i)) == UICategory::Osc,
        node_name(NodeId::Out(i)) == "out"@ && node_label(NodeId::Out(i)) == "Out"@,
        node_category(NodeId::Out(i)) == UICategory::IOUtil,
        node_name(NodeId::FbWr(i)) == "fbwr"@ && node_label(NodeId::FbWr(i)) == "FbWr"@,
        node_category(NodeId::FbWr(i)) == UICategory::IOUtil,
        node_name(NodeId::FbRd(i)) == "fbrd"@ && node_label(NodeId::FbRd(i)) == "FbRd"@,
        node_category(NodeId::FbRd(i)) == UICategory::IOUtil,
        node_name(NodeId::Ad(i)) == "ad"@ && node_label(NodeId::Ad(i)) == "Ad"@,
        node_category(NodeId::Ad(i)) == UICategory::Mod,
        node_name(NodeId::TsLFO(i)) == "tslfo"@ && node_label(NodeId::TsLFO(i)) == "TsLFO"@,
        node_category(NodeId::TsLFO(i)) == UICategory::Mod,
        node_name(NodeId::RndWk(i)) == "rndwk"@ && node_label(NodeId::RndWk(i)) == "RndWk"@,
        node_category(NodeId::RndWk(i)) == UICategory::Mod,
        node_name(NodeId::Delay(i)) == "delay"@ && node_label(NodeId::Delay(i)) == "Delay"@,
        node_category(NodeId::Delay(i)) == UICategory::Signal,
        node_name(NodeId::AllP(i)) == "allp"@ && node_label(NodeId::AllP(i)) == "AllP"@,
        node_category(NodeId::AllP(i)) == UICategory::Signal,
        node_name(NodeId::Comb(i)) == "comb"@ && node_label(NodeId::Comb(i)) == "Comb"@,
        node_category(NodeId::Comb(i)) == UICategory::Signal,
        node_name(NodeId::Noise(i)) == "noise"@ && node_label(NodeId::Noise(i)) == "Noise"@,
        node_category(NodeId::Noise(i)) == UICategory::Osc,
        node_name(NodeId::SFilter(i)) == "sfilter"@ && node_label(NodeId::SFilter(i)) == "SFilter"@,
        node_category(NodeId::SFilter(i)) == UICategory::Signal,
        node_name(NodeId::BiqFilt(i)) == "biqfilt"@ && node_label(NodeId::BiqFilt(i)) == "BiqFilt"@,
        node_category(NodeId::BiqFilt(i)) == UICategory::Signal,
        node_name(NodeId::PVerb(i)) == "pverb"@ && node_label(NodeId::PVerb(i)) == "PVerb"@,
        node_category(NodeId::PVerb(i)) == UICategory::Signal,
        node_name(NodeId::Gz3Filt(i)) == "goertzel"@ && node_label(NodeId::Gz3Filt(i)) == "Gz3Filt"@,
        node_category(NodeId::Gz3Filt(i)) == UICategory::Signal,
        node_name(NodeId::Test(i)) == "test"@ && node_label(NodeId::Test(i)) == "Test"@,
        node_category(NodeId::Test(i)) == UICategory::IOUtil,
        node_category(NodeId::Nop) == UICategory::Uncategorized,
{
}

} // verus!
