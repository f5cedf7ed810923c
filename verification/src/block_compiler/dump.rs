//! The text form of a statement tree, one line per statement, indented by
//! depth.

use vstd::prelude::*;
use crate::block_compiler::{blk_arg_view, blk_list_view, blk_view, BlkASTNode, BlkSpec};
use crate::text::{append_decimal, append_spaces, append_str, dec_digits, spaces};

verus! {

/// The model of an optional input label.
pub open spec fn str_opt_view(o: Option<&str>) -> Option<Seq<char>> {
    match o {
        Some(s) => Some(s@),
        None => None,
    }
}

/// The start of a line at depth `indent`: three spaces per level, one more
/// level, the input fed, and the arrow.
pub open spec fn dump_prefix(indent: nat, inp: Option<Seq<char>>) -> Seq<char> {
    spaces(3 * (indent + 1)) + match inp {
        Some(i) => i,
        None => Seq::empty(),
    } + "<= "@
}

/// How deep a statement tree nests.
pub open spec fn blk_depth(b: BlkSpec) -> nat
    decreases b,
{
    match b {
        BlkSpec::Area { childs } => 1 + depth_list(childs, childs.len() as int),
        BlkSpec::Assign { expr, .. } => 1 + blk_depth(*expr),
        BlkSpec::Node { childs, .. } => 1 + depth_args(childs, childs.len() as int),
        _ => 0,
    }
}

/// The deepest of the first `k` statements.
pub open spec fn depth_list(cs: Seq<BlkSpec>, k: int) -> nat
    decreases cs, k,
{
    if k <= 0 || k > cs.len() {
        0
    } else {
        let a = depth_list(cs, k - 1);
        let b = blk_depth(cs[k - 1]);
        if a < b {
            b
        } else {
            a
        }
    }
}

/// The deepest of the first `k` arguments.
pub open spec fn depth_args(cs: Seq<(Option<Seq<char>>, BlkSpec)>, k: int) -> nat
    decreases cs, k,
{
    if k <= 0 || k > cs.len() {
        0
    } else {
        let a = depth_args(cs, k - 1);
        let b = blk_depth(cs[k - 1].1);
        if a < b {
            b
        } else {
            a
        }
    }
}

/// The text form of a statement tree at depth `indent`, fed into input `inp`.
pub open spec fn dump_spec(b: BlkSpec, indent: nat, inp: Option<Seq<char>>) -> Seq<char>
    decreases b,
{
    let p = dump_prefix(indent, inp);
    match b {
        BlkSpec::Area { childs } => p + "Area\n"@ + dump_list(childs, indent + 1, childs.len() as int),
        BlkSpec::Assign { var, expr } => p + "set '"@ + var + "'=\n"@ + dump_spec(*expr, indent + 1, None),
        BlkSpec::Get { id, var } => p + "get '"@ + var + "' (id="@ + dec_digits(id as nat) + ")\n"@,
        BlkSpec::Literal { value } => p + value + "\n"@,
        BlkSpec::Node { id, out, typ, lbl, childs } => p + node_head(id, out, typ, lbl) + dump_args(
            childs,
            indent + 1,
            childs.len() as int,
        ),
    }
}

/// The text forms of the first `k` statements at depth `indent`.
pub open spec fn dump_list(cs: Seq<BlkSpec>, indent: nat, k: int) -> Seq<char>
    decreases cs, k,
{
    if k <= 0 || k > cs.len() {
        Seq::empty()
    } else {
        dump_list(cs, indent, k - 1) + dump_spec(cs[k - 1], indent, None)
    }
}

/// The text forms of the first `k` arguments at depth `indent`, each with
/// the input it feeds.
pub open spec fn dump_args(cs: Seq<(Option<Seq<char>>, BlkSpec)>, indent: nat, k: int) -> Seq<char>
    decreases cs, k,
{
    if k <= 0 || k > cs.len() {
        Seq::empty()
    } else {
        dump_args(cs, indent, k - 1) + dump_spec(cs[k - 1].1, indent, cs[k - 1].0)
    }
}

proof fn lemma_depth_list(cs: Seq<BlkSpec>, k: int)
    requires
        0 <= k <= cs.len(),
    ensures
        forall|i: int| 0 <= i < k ==> blk_depth(#[trigger] cs[i]) <= depth_list(cs, k),
    decreases k,
{
    if k > 0 {
        lemma_depth_list(cs, k - 1);
    }
}

proof fn lemma_depth_args(cs: Seq<(Option<Seq<char>>, BlkSpec)>, k: int)
    requires
        0 <= k <= cs.len(),
    ensures
        forall|i: int| 0 <= i < k ==> blk_depth(#[trigger] cs[i].1) <= depth_args(cs, k),
    decreases k,
{
    if k > 0 {
        lemma_depth_args(cs, k - 1);
    }
}

proof fn lemma_list_index(v: Seq<BlkASTNode>, k: int)
    requires
        0 <= k <= v.len(),
    ensures
        blk_list_view(v, k).len() == k,
        forall|i: int| 0 <= i < k ==> blk_list_view(v, k)[i] == blk_view(v[i]),
    decreases k,
{
    if k > 0 {
        lemma_list_index(v, k - 1);
    }
}

proof fn lemma_arg_index(v: Seq<(Option<String>, BlkASTNode)>, k: int)
    requires
        0 <= k <= v.len(),
    ensures
        blk_arg_view(v, k).len() == k,
        forall|i: int|
            0 <= i < k ==> blk_arg_view(v, k)[i] == (
                match v[i].0 {
                    Some(s) => Some(s@),
                    None => None::<Seq<char>>,
                },
                blk_view(v[i].1),
            ),
    decreases k,
{
    if k > 0 {
        lemma_arg_index(v, k - 1);
    }
}

/// Appends the start of a line.
fn append_prefix(out: &mut String, indent: usize, inp: Option<&str>)
    requires
        3 * (indent + 1) <= usize::MAX,
    ensures
        final(out)@ == old(out)@ + dump_prefix(indent as nat, str_opt_view(inp)),
{
    append_spaces(out, 3 * (indent + 1));
    if let Some(i) = inp {
        append_str(out, i);
    }
    append_str(out, "<= ");
    proof {
        let a = spaces(3 * (indent as nat + 1));
        let b = match str_opt_view(inp) {
            Some(i) => i,
            None => Seq::empty(),
        };
        assert(final(out)@ =~= old(out)@ + (a + b + "<= "@));
    }
}

/// The rest of the first line of a block node: type, label where it
/// differs, ID and output.
pub open spec fn node_head(id: usize, out: Option<Seq<char>>, typ: Seq<char>, lbl: Seq<char>) -> Seq<char> {
    let l = if typ == lbl {
        Seq::empty()
    } else {
        "["@ + lbl + "]"@
    };
    let o = match out {
        Some(o) => "/"@ + o,
        None => Seq::empty(),
    };
    typ + l + " (id="@ + dec_digits(id as nat) + o + ")\n"@
}

/// Appends the rest of the first line of a block node.
fn append_node_head(out: &mut String, id: usize, o: &Option<String>, typ: &String, lbl: &String)
    ensures
        final(out)@ == old(out)@ + node_head(
            id,
            match o {
                Some(s) => Some(s@),
                None => None,
            },
            typ@,
            lbl@,
        ),
{
    let ghost start = out@;
    append_str(out, typ.as_str());
    if !crate::block_compiler::str_eq(typ.as_str(), lbl.as_str()) {
        append_str(out, "[");
        append_str(out, lbl.as_str());
        append_str(out, "]");
    }
    let ghost b = out@;
    append_str(out, " (id=");
    append_decimal(out, id);
    let ghost c = out@;
    if let Some(o) = o {
        append_str(out, "/");
        append_str(out, o.as_str());
    }
    append_str(out, ")\n");
    proof {
        let l = if typ@ == lbl@ {
            Seq::empty()
        } else {
            "["@ + lbl@ + "]"@
        };
        assert(b =~= start + typ@ + l);
        assert(c =~= start + typ@ + l + " (id="@ + dec_digits(id as nat));
        assert(out@ =~= start + node_head(
            id,
            match o {
                Some(s) => Some(s@),
                None => None,
            },
            typ@,
            lbl@,
        ));
    }
}

impl BlkASTNode {
    /// Appends the text form of this tree at depth `indent`, fed into input
    /// `inp`.
    fn dump_into(&self, indent: usize, inp: Option<&str>, out: &mut String)
        requires
            3 * (indent + blk_depth(blk_view(*self)) + 1) <= usize::MAX,
        ensures
            final(out)@ == old(out)@ + dump_spec(blk_view(*self), indent as nat, str_opt_view(inp)),
        decreases self,
    {
        let ghost b = blk_view(*self);
        let ghost start = out@;
        append_prefix(out, indent, inp);
        let ghost p = dump_prefix(indent as nat, str_opt_view(inp));
        match self {
            BlkASTNode::Area { childs } => {
                append_str(out, "Area\n");
                proof {
                    lemma_list_index(childs@, childs@.len() as int);
                    assert(b == BlkSpec::Area { childs: blk_list_view(childs@, childs@.len() as int) });
                    assert(blk_depth(b) == 1 + depth_list(
                        blk_list_view(childs@, childs@.len() as int),
                        childs@.len() as int,
                    ));
                }
                let ghost mid = out@;
                proof {
                    assert(mid == start + p + "Area\n"@);
                }
                Self::dump_all(childs, indent + 1, out);
                proof {
                    assert(out@ =~= start + dump_spec(b, indent as nat, str_opt_view(inp)));
                }
            },
            BlkASTNode::Assign { var, expr } => {
                append_str(out, "set '");
                append_str(out, var.as_str());
                append_str(out, "'=\n");
                expr.dump_into(indent + 1, None, out);
                proof {
                    assert(out@ =~= start + dump_spec(b, indent as nat, str_opt_view(inp)));
                }
            },
            BlkASTNode::Get { id, var } => {
                append_str(out, "get '");
                append_str(out, var.as_str());
                append_str(out, "' (id=");
                append_decimal(out, *id);
                append_str(out, ")\n");
                proof {
                    assert(out@ =~= start + dump_spec(b, indent as nat, str_opt_view(inp)));
                }
            },
            BlkASTNode::Literal { value } => {
                append_str(out, value.as_str());
                append_str(out, "\n");
                proof {
                    assert(out@ =~= start + dump_spec(b, indent as nat, str_opt_view(inp)));
                }
            },
            BlkASTNode::Node { id, out: o, typ, lbl, childs } => {
                append_node_head(out, *id, o, typ, lbl);
                let ghost head = out@;
                proof {
                    lemma_arg_index(childs@, childs@.len() as int);
                    assert(b == BlkSpec::Node {
                        id: *id,
                        out: match o {
                            Some(s) => Some(s@),
                            None => None,
                        },
                        typ: typ@,
                        lbl: lbl@,
                        childs: blk_arg_view(childs@, childs@.len() as int),
                    });
                    assert(blk_depth(b) == 1 + depth_args(
                        blk_arg_view(childs@, childs@.len() as int),
                        childs@.len() as int,
                    ));
                }
                Self::dump_all_args(childs, indent + 1, out);
                proof {
                    assert(out@ =~= start + dump_spec(b, indent as nat, str_opt_view(inp)));
                }
            },
        }
    }

    /// Appends the text forms of the statements `childs` at depth `indent`.
    fn dump_all(childs: &Vec<BlkASTNode>, indent: usize, out: &mut String)
        requires
            3 * (indent + depth_list(
                blk_list_view(childs@, childs@.len() as int),
                childs@.len() as int,
            ) + 1) <= usize::MAX,
        ensures
            final(out)@ == old(out)@ + dump_list(
                blk_list_view(childs@, childs@.len() as int),
                indent as nat,
                childs@.len() as int,
            ),
        decreases childs,
    {
        let ghost cs = blk_list_view(childs@, childs@.len() as int);
        let ghost head = out@;
        proof {
            lemma_list_index(childs@, childs@.len() as int);
            lemma_depth_list(cs, cs.len() as int);
        }
        let mut i: usize = 0;
        while i < childs.len()
            invariant
                i <= childs.len(),
                cs == blk_list_view(childs@, childs@.len() as int),
                cs.len() == childs@.len(),
                forall|j: int| 0 <= j < childs@.len() ==> cs[j] == blk_view(childs@[j]),
                forall|j: int| 0 <= j < cs.len() ==> blk_depth(#[trigger] cs[j]) <= depth_list(cs, cs.len() as int),
                3 * (indent + depth_list(cs, cs.len() as int) + 1) <= usize::MAX,
                out@ == head + dump_list(cs, indent as nat, i as int),
            decreases childs.len() - i,
        {
            proof {
                assert(blk_depth(cs[i as int]) <= depth_list(cs, cs.len() as int));
            }
            childs[i].dump_into(indent, None, out);
            proof {
                assert(out@ =~= head + dump_list(cs, indent as nat, i + 1));
            }
            i += 1;
        }
    }

    /// Appends the text forms of the arguments `childs` at depth `indent`,
    /// each with the input it feeds.
    fn dump_all_args(childs: &Vec<(Option<String>, BlkASTNode)>, indent: usize, out: &mut String)
        requires
            3 * (indent + depth_args(
                blk_arg_view(childs@, childs@.len() as int),
                childs@.len() as int,
            ) + 1) <= usize::MAX,
        ensures
            final(out)@ == old(out)@ + dump_args(
                blk_arg_view(childs@, childs@.len() as int),
                indent as nat,
                childs@.len() as int,
            ),
        decreases childs,
    {
        let ghost cs = blk_arg_view(childs@, childs@.len() as int);
        let ghost head = out@;
        proof {
            lemma_arg_index(childs@, childs@.len() as int);
            lemma_depth_args(cs, cs.len() as int);
        }
        let mut i: usize = 0;
        while i < childs.len()
            invariant
                i <= childs.len(),
                cs == blk_arg_view(childs@, childs@.len() as int),
                cs.len() == childs@.len(),
                forall|j: int|
                    0 <= j < childs@.len() ==> cs[j] == (
                        match childs@[j].0 {
                            Some(s) => Some(s@),
                            None => None::<Seq<char>>,
                        },
                        blk_view(childs@[j].1),
                    ),
                forall|j: int|
                    0 <= j < cs.len() ==> blk_depth(#[trigger] cs[j].1) <= depth_args(cs, cs.len() as int),
                3 * (indent + depth_args(cs, cs.len() as int) + 1) <= usize::MAX,
                out@ == head + dump_args(cs, indent as nat, i as int),
            decreases childs.len() - i,
        {
            proof {
                assert(blk_depth(cs[i as int].1) <= depth_args(cs, cs.len() as int));
            }
            let c = &childs[i];
            let inp2: Option<&str> = match &c.0 {
                Some(s) => Some(s.as_str()),
                None => None,
            };
            proof {
                assert(str_opt_view(inp2) == cs[i as int].0);
            }
            c.1.dump_into(indent, inp2, out);
            proof {
                assert(out@ =~= head + dump_args(cs, indent as nat, i + 1));
            }
            i += 1;
        }
    }

    /// The text form of this tree at depth `indent`, fed into input `inp`:
    /// one line per statement, children below their parent one level deeper.
    pub fn dump(&self, indent: usize, inp: Option<&str>) -> (r: String)
        requires
            3 * (indent + blk_depth(blk_view(*self)) + 1) <= usize::MAX,
        ensures
            r@ == dump_spec(blk_view(*self), indent as nat, str_opt_view(inp)),
    {
        let mut s = String::new();
        self.dump_into(indent, inp, &mut s);
        proof {
            assert(s@ =~= dump_spec(blk_view(*self), indent as nat, str_opt_view(inp)));
        }
        s
    }
}

} // verus!
