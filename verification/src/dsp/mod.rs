//! The parts of the DSP layer that work on integers: random number
//! generators, trigger counters and the user interface categories of nodes.
use vstd::prelude::*;
use crate::dsp::helpers::{add_mod64, splitmix_mix, splitmix_phi, SplitMix64};
use crate::dsp::node_id::{all_node_ids, all_nodes, node_category};

pub mod helpers;
pub mod node_id;
pub mod node_params;
pub mod tracker;

pub use node_id::NodeId;

verus! {

/// The kind of user interface a node gets.
#[derive(Debug, Clone, Copy, PartialEq, Eq, Structural)]
pub enum UIType {
    Generic,
    LfoA,
    EnvA,
    OscA,
}

/// The category a node is listed under.
#[derive(Debug, Clone, Copy, PartialEq, Eq, Structural)]
pub enum UICategory {
    Uncategorized,
    Osc,
    Mod,
    NtoM,
    Signal,
    Ctrl,
    IOUtil,
}

/// The default color index of a category.
pub open spec fn category_color(c: UICategory) -> u8 {
    match c {
        UICategory::Uncategorized => 17,
        UICategory::Osc => 0,
        UICategory::Mod => 7,
        UICategory::NtoM => 4,
        UICategory::Signal => 2,
        UICategory::Ctrl => 12,
        UICategory::IOUtil => 10,
    }
}

impl UICategory {
    /// The default color index of nodes of this category.
    pub fn default_color_idx(&self) -> (r: u8)
        ensures
            r == category_color(*self),
    {
        match self {
            UICategory::Uncategorized => 17,
            UICategory::Osc => 0,
            UICategory::Mod => 7,
            UICategory::NtoM => 4,
            UICategory::Signal => 2,
            UICategory::Ctrl => 12,
            UICategory::IOUtil => 10,
        }
    }
}

/// Which nodes a random pick may choose.
#[derive(Debug, Clone, Copy, PartialEq, Eq, Structural)]
pub enum RandNodeSelector {
    Any,
    OnlyUseful,
}


/// Whether a node type belongs to category `c`.
pub open spec fn in_category(c: UICategory) -> spec_fn(NodeId) -> bool {
    |n: NodeId| node_category(n) == c
}

/// The node types of category `c`, in list order.
pub open spec fn cat_nodes(c: UICategory) -> Seq<NodeId> {
    all_nodes().filter(in_category(c))
}

/// `s` without its first `k` elements; empty where `s` is shorter.
pub open spec fn after_skip(s: Seq<NodeId>, k: nat) -> Seq<NodeId> {
    if k <= s.len() {
        s.subrange(k as int, s.len() as int)
    } else {
        Seq::empty()
    }
}

impl UICategory {
    /// The node types of this category in list order, without the first
    /// `skip` of them.
    pub fn get_node_ids(&self, skip: usize) -> (r: Vec<NodeId>)
        ensures
            r@ == after_skip(cat_nodes(*self), skip as nat),
    {
        let all = all_node_ids();
        let ghost p = in_category(*self);
        let mut left = skip;
        let mut out: Vec<NodeId> = Vec::new();
        let mut i: usize = 0;
        while i < all.len()
            invariant
                i <= all@.len(),
                all@ == all_nodes(),
                p == in_category(*self),
                left as nat == if skip as nat >= all@.take(i as int).filter(p).len() {
                    (skip - all@.take(i as int).filter(p).len()) as nat
                } else {
                    0nat
                },
                out@ == after_skip(all@.take(i as int).filter(p), skip as nat),
            decreases all.len() - i,
        {
            let n = all[i];
            let ghost f = all@.take(i as int).filter(p);
            proof {
                assert(all@.take(i + 1).drop_last() =~= all@.take(i as int));
                assert(all@.take(i + 1).last() == n);
                reveal(Seq::filter);
                assert(all@.take(i + 1).filter(p) == if p(n) {
                    f.push(n)
                } else {
                    f
                });
            }
            if n.ui_category() == *self {
                if left == 0 {
                    out.push(n);
                    proof {
                        assert(out@ =~= after_skip(f.push(n), skip as nat));
                    }
                } else {
                    left -= 1;
                    proof {
                        assert(out@ =~= after_skip(f.push(n), skip as nat));
                    }
                }
            }
            i += 1;
        }
        proof {
            assert(all@.take(all@.len() as int) =~= all@);
        }
        out
    }
}

/// Whether a random pick may choose `n`: never `Nop`, and for useful picks
/// no output, feedback reader or test node.
pub open spec fn satisfies_spec(n: NodeId, sel: RandNodeSelector) -> bool {
    match n {
        NodeId::Nop => false,
        _ => match sel {
            RandNodeSelector::Any => true,
            RandNodeSelector::OnlyUseful => match n {
                NodeId::Out(_) | NodeId::FbRd(_) | NodeId::Test(_) => false,
                _ => true,
            },
        },
    }
}

/// Whether a random pick may choose `nid`.
pub fn rand_node_satisfies_spec(nid: NodeId, sel: RandNodeSelector) -> (r: bool)
    ensures
        r == satisfies_spec(nid, sel),
{
    if let NodeId::Nop = nid {
        return false;
    }
    match sel {
        RandNodeSelector::Any => true,
        RandNodeSelector::OnlyUseful => match nid {
            NodeId::Nop => false,
            NodeId::Out(_) => false,
            NodeId::FbRd(_) => false,
            NodeId::Test(_) => false,
            _ => true,
        },
    }
}

/// How many draws a random pick makes at most.
pub const RAND_PICK_TRIES: u64 = 100;

/// The node that a draw of `v` picks from the node list.
pub open spec fn drawn_node(v: u64) -> NodeId {
    all_nodes()[((v as usize) % 28) as int]
}

/// The nodes that a random pick collects from the generator state `state`
/// after `cnt` draws with `out` collected: up to `count` nodes that satisfy
/// `sel`, from at most 100 draws, then `Nop` up to `count`.
pub open spec fn rand_pick(state: u64, count: nat, sel: RandNodeSelector, cnt: nat, out: Seq<NodeId>) -> Seq<NodeId>
    decreases RAND_PICK_TRIES - cnt,
{
    if cnt < RAND_PICK_TRIES && out.len() < count {
        let st = add_mod64(state, splitmix_phi());
        let cur = drawn_node(splitmix_mix(st));
        rand_pick(
            st,
            count,
            sel,
            cnt + 1,
            if satisfies_spec(cur, sel) {
                out.push(cur)
            } else {
                out
            },
        )
    } else if out.len() < count {
        out + Seq::new((count - out.len()) as nat, |i: int| NodeId::Nop)
    } else {
        out
    }
}

/// A random pick has `count` nodes, each one `sel` allows or `Nop`.
pub proof fn law_rand_pick_shape(state: u64, count: nat, sel: RandNodeSelector, cnt: nat, out: Seq<NodeId>)
    requires
        out.len() <= count,
        forall|i: int| 0 <= i < out.len() ==> satisfies_spec(#[trigger] out[i], sel) || out[i] == NodeId::Nop,
    ensures
        rand_pick(state, count, sel, cnt, out).len() == count,
        forall|i: int|
            0 <= i < count ==> satisfies_spec(#[trigger] rand_pick(state, count, sel, cnt, out)[i], sel)
                || rand_pick(state, count, sel, cnt, out)[i] == NodeId::Nop,
    decreases RAND_PICK_TRIES - cnt,
{
    if cnt < RAND_PICK_TRIES && out.len() < count {
        let st = add_mod64(state, splitmix_phi());
        let cur = drawn_node(splitmix_mix(st));
        let out2 = if satisfies_spec(cur, sel) {
            out.push(cur)
        } else {
            out
        };
        assert forall|i: int| 0 <= i < out2.len() implies satisfies_spec(#[trigger] out2[i], sel) || out2[i]
            == NodeId::Nop by {
            if i < out.len() {
                assert(out2[i] == out[i]);
            }
        }
        law_rand_pick_shape(st, count, sel, cnt + 1, out2);
    } else if out.len() < count {
        let r = out + Seq::new((count - out.len()) as nat, |i: int| NodeId::Nop);
        assert forall|i: int| 0 <= i < count implies satisfies_spec(#[trigger] r[i], sel) || r[i] == NodeId::Nop by {
            if i < out.len() {
                assert(r[i] == out[i]);
            }
        }
    }
}

/// Picks `count` random nodes with the generator `sm`: up to `count` nodes
/// that `sel` allows, from at most 100 draws, then `Nop` up to `count`.
pub fn pick_rand_node_ids(sm: &mut SplitMix64, count: usize, sel: RandNodeSelector) -> (r: Vec<NodeId>)
    ensures
        r@ == rand_pick(old(sm).0, count as nat, sel, 0, Seq::empty()),
{
    let all = all_node_ids();
    let mut out: Vec<NodeId> = Vec::new();
    let mut cnt: u64 = 0;
    let ghost target = rand_pick(sm.0, count as nat, sel, 0, Seq::empty());
    while cnt < RAND_PICK_TRIES && out.len() < count
        invariant
            cnt <= RAND_PICK_TRIES,
            all@ == all_nodes(),
            out@.len() <= count,
            rand_pick(sm.0, count as nat, sel, cnt as nat, out@) == target,
        decreases RAND_PICK_TRIES - cnt,
    {
        let v = sm.next_u64();
        let cur = all[(v as usize) % all.len()];
        if rand_node_satisfies_spec(cur, sel) {
            out.push(cur);
        }
        cnt += 1;
    }
    proof {
        assert(target == out@ + Seq::new((count - out@.len()) as nat, |i: int| NodeId::Nop)) by {
            if out@.len() == count {
                assert(out@ + Seq::new(0nat, |i: int| NodeId::Nop) =~= out@);
            }
        }
    }
    while out.len() < count
        invariant
            out@.len() <= count,
            target == out@ + Seq::new((count - out@.len()) as nat, |i: int| NodeId::Nop),
        decreases count - out.len(),
    {
        let ghost before = out@;
        out.push(NodeId::Nop);
        proof {
            assert(before + Seq::new((count - before.len()) as nat, |i: int| NodeId::Nop) =~= out@ + Seq::new(
                (count - out@.len()) as nat,
                |i: int| NodeId::Nop,
            ));
        }
    }
    proof {
        assert(out@ + Seq::new(0nat, |i: int| NodeId::Nop) =~= out@);
    }
    out
}

/// `count` random nodes from a generator seeded by the clock: up to `count`
/// nodes that `sel` allows, from at most 100 draws, then `Nop` up to `count`.
pub fn get_rand_node_id(count: usize, sel: RandNodeSelector) -> (r: Vec<NodeId>)
    ensures
        exists|s: u64| r@ == #[trigger] rand_pick(s, count as nat, sel, 0, Seq::empty()),
        r@.len() == count,
        forall|i: int| 0 <= i < count ==> satisfies_spec(#[trigger] r@[i], sel) || r@[i] == NodeId::Nop,
{
    let mut sm = SplitMix64::new_time_seed();
    let ghost s = sm.0;
    let r = pick_rand_node_ids(&mut sm, count, sel);
    proof {
        law_rand_pick_shape(s, count as nat, sel, 0, Seq::empty());
    }
    r
}

} // verus!
