//! The syntax tree that a block function generates, and the front end of its
//! compiler: the translation of the tree into statements over temporary
//! variables.
use vstd::prelude::*;
use vstd::string::StringSliceAdditionalSpecFns;
use std::rc::Rc;
use crate::blocklang::{BlockLanguage, id_after, lang_type, lang_wf, port_names};
use crate::text::{append_char, append_decimal, append_spaces, append_str, dec_digits, share_rc, spaces};

pub mod dump;
pub mod jit;
pub mod number;

use crate::block_compiler::number::{is_literal, literal_ok};

pub use jit::{JitAst, JitOp};

verus! {

/// A node of a generated syntax tree: the block's ID, type and label, and its
/// children with the input port they feed and the output port they come from.
#[derive(Debug)]
pub struct JASTNode {
    pub id: usize,
    pub typ: String,
    pub lbl: String,
    pub nodes: Vec<(String, String, usize)>,
}

/// What a tree node is, as the contracts speak of it.
pub ghost struct NodeSpec {
    pub id: usize,
    pub typ: Seq<char>,
    pub lbl: Seq<char>,
    pub nodes: Seq<(Seq<char>, Seq<char>, usize)>,
}

/// The model of a child list.
pub open spec fn children_view(v: Seq<(String, String, usize)>) -> Seq<(Seq<char>, Seq<char>, usize)> {
    v.map_values(|c: (String, String, usize)| (c.0@, c.1@, c.2))
}

/// The model of a tree node.
pub open spec fn jast_view(n: JASTNode) -> NodeSpec {
    NodeSpec { id: n.id, typ: n.typ@, lbl: n.lbl@, nodes: children_view(n.nodes@) }
}

/// The model of a list of tree nodes.
pub open spec fn graph_view(v: Seq<JASTNode>) -> Seq<NodeSpec> {
    v.map_values(|n: JASTNode| jast_view(n))
}

/// Every child of every node is a node of the graph.
pub open spec fn graph_wf(g: Seq<NodeSpec>) -> bool {
    forall|i: int, k: int| #![trigger g[i].nodes[k]] 0 <= i < g.len() && 0 <= k < g[i].nodes.len() ==> g[i].nodes[k].2
        < g.len()
}

/// What a tree reference is, as the contracts speak of it: all nodes of the
/// tree it belongs to and the index of its node.
pub ghost struct ASTSpec {
    pub nodes: Seq<NodeSpec>,
    pub idx: usize,
}

/// A reference to a node of a generated syntax tree; nodes that several
/// parents share appear once.
#[derive(Debug, Clone)]
pub struct ASTNodeRef {
    graph: Rc<Vec<JASTNode>>,
    idx: usize,
}

impl View for ASTNodeRef {
    type V = ASTSpec;

    closed spec fn view(&self) -> ASTSpec {
        ASTSpec { nodes: graph_view((*self.graph)@), idx: self.idx }
    }
}

impl ASTNodeRef {
    /// A reference to node `idx` of `nodes`.
    pub(crate) fn new_ref(nodes: Vec<JASTNode>, idx: usize) -> (r: Self)
        ensures
            r@ == (ASTSpec { nodes: graph_view(nodes@), idx }),
    {
        ASTNodeRef { graph: Rc::new(nodes), idx }
    }
}


/// The line that dumps node `n`, fed into `input` from `output`.
pub open spec fn dump_line(n: NodeSpec, input: Seq<char>, output: Seq<char>, indent: nat) -> Seq<char> {
    spaces(3 * (indent + 1)) + dec_digits(n.id as nat) + "#"@ + n.typ + "["@ + n.lbl + "] "@ + (if output.len() > 0 {
        "(out: "@ + output + ")"@
    } else {
        Seq::empty()
    }) + (if input.len() > 0 {
        "(in: "@ + input + ")"@
    } else {
        Seq::empty()
    }) + "\n"@
}

/// The dump of node `idx` and, indented one level more, of its children,
/// down to `fuel` levels.
pub open spec fn dump_text(g: Seq<NodeSpec>, idx: int, input: Seq<char>, output: Seq<char>, indent: nat, fuel: nat) -> Seq<
    char,
>
    decreases fuel, 0nat,
{
    if fuel == 0 {
        Seq::empty()
    } else {
        dump_line(g[idx], input, output, indent) + dump_children(
            g,
            idx,
            g[idx].nodes.len() as int,
            indent + 1,
            (fuel - 1) as nat,
        )
    }
}

/// The dumps of the first `k` children of node `idx`.
pub open spec fn dump_children(g: Seq<NodeSpec>, idx: int, k: int, indent: nat, fuel: nat) -> Seq<char>
    decreases fuel, (if k > 0 { k + 1 } else { 1 }) as nat,
{
    if k <= 0 {
        Seq::empty()
    } else {
        dump_children(g, idx, k - 1, indent, fuel) + dump_text(
            g,
            g[idx].nodes[k - 1].2 as int,
            g[idx].nodes[k - 1].0,
            g[idx].nodes[k - 1].1,
            indent,
            fuel,
        )
    }
}

/// Appends the dump line of node `n`.
fn append_line(out: &mut String, n: &JASTNode, input: &str, output: &str, indent: usize)
    requires
        indent < usize::MAX / 4,
    ensures
        final(out)@ == old(out)@ + dump_line(jast_view(*n), input@, output@, indent as nat),
{
    append_spaces(out, 3 * (indent + 1));
    append_decimal(out, n.id);
    append_str(out, "#");
    append_str(out, n.typ.as_str());
    append_str(out, "[");
    append_str(out, n.lbl.as_str());
    append_str(out, "] ");
    if output.unicode_len() > 0 {
        append_str(out, "(out: ");
        append_str(out, output);
        append_str(out, ")");
    }
    if input.unicode_len() > 0 {
        append_str(out, "(in: ");
        append_str(out, input);
        append_str(out, ")");
    }
    append_str(out, "\n");
    proof {
        assert(out@ =~= old(out)@ + dump_line(jast_view(*n), input@, output@, indent as nat));
    }
}

impl ASTNodeRef {
    /// The reference points into a well formed tree.
    pub open spec fn wf(&self) -> bool {
        graph_wf(self@.nodes) && self@.idx < self@.nodes.len()
    }

    /// The first child.
    pub fn first_child_ref(&self) -> (r: Option<ASTNodeRef>)
        requires
            self.wf(),
        ensures
            self@.nodes[self@.idx as int].nodes.len() > 0 ==> r is Some && r->0@ == (ASTSpec {
                nodes: self@.nodes,
                idx: self@.nodes[self@.idx as int].nodes[0].2,
            }),
            self@.nodes[self@.idx as int].nodes.len() == 0 ==> r is None,
    {
        let n = &self.graph[self.idx];
        proof {
            assert(self@.nodes[self.idx as int] == jast_view(*n));
        }
        if n.nodes.len() > 0 {
            Some(ASTNodeRef { graph: share_rc(&self.graph), idx: n.nodes[0].2 })
        } else {
            None
        }
    }

    /// The first child with the input port it feeds and the output port it
    /// comes from.
    pub fn first_child(&self) -> (r: Option<(String, String, ASTNodeRef)>)
        requires
            self.wf(),
        ensures
            self@.nodes[self@.idx as int].nodes.len() > 0 ==> (r matches Some(t) && t.0@ == self@.nodes[self@.idx as int].nodes[0].0
                && t.1@ == self@.nodes[self@.idx as int].nodes[0].1 && t.2@ == (ASTSpec {
                nodes: self@.nodes,
                idx: self@.nodes[self@.idx as int].nodes[0].2,
            })),
            self@.nodes[self@.idx as int].nodes.len() == 0 ==> r is None,
    {
        self.nth_child(0)
    }

    /// The `i`-th child with the input port it feeds and the output port it
    /// comes from.
    pub fn nth_child(&self, i: usize) -> (r: Option<(String, String, ASTNodeRef)>)
        requires
            self.wf(),
        ensures
            i < self@.nodes[self@.idx as int].nodes.len() ==> (r matches Some(t) && t.0@ == self@.nodes[self@.idx as int].nodes[i as int].0
                && t.1@ == self@.nodes[self@.idx as int].nodes[i as int].1 && t.2@ == (ASTSpec {
                nodes: self@.nodes,
                idx: self@.nodes[self@.idx as int].nodes[i as int].2,
            })),
            i >= self@.nodes[self@.idx as int].nodes.len() ==> r is None,
    {
        let n = &self.graph[self.idx];
        proof {
            assert(self@.nodes[self.idx as int] == jast_view(*n));
        }
        if i < n.nodes.len() {
            let c = &n.nodes[i];
            proof {
                assert(children_view(n.nodes@)[i as int] == (c.0@, c.1@, c.2));
            }
            Some((c.0.clone(), c.1.clone(), ASTNodeRef { graph: share_rc(&self.graph), idx: c.2 }))
        } else {
            None
        }
    }

    /// Appends the dump of node `idx` down to `fuel` levels.
    fn walk(&self, idx: usize, input: &str, output: &str, indent: usize, fuel: usize, out: &mut String)
        requires
            graph_wf(self@.nodes),
            idx < self@.nodes.len(),
            indent + fuel < usize::MAX / 4,
        ensures
            final(out)@ == old(out)@ + dump_text(self@.nodes, idx as int, input@, output@, indent as nat, fuel as nat),
        decreases fuel, 0nat,
    {
        if fuel == 0 {
            return;
        }
        let ghost g = self@.nodes;
        let n = &self.graph[idx];
        proof {
            assert(g[idx as int] == jast_view(*n));
        }
        append_line(out, n, input, output, indent);
        let ghost line_end = out@;
        let mut k: usize = 0;
        while k < n.nodes.len()
            invariant
                k <= n.nodes@.len(),
                g == self@.nodes,
                graph_wf(g),
                idx < g.len(),
                g[idx as int] == jast_view(*n),
                indent + fuel < usize::MAX / 4,
                fuel > 0,
                out@ == line_end + dump_children(g, idx as int, k as int, (indent + 1) as nat, (fuel - 1) as nat),
            decreases n.nodes.len() - k,
        {
            let c = &n.nodes[k];
            proof {
                assert(children_view(n.nodes@)[k as int] == (c.0@, c.1@, c.2));
                assert(g[idx as int].nodes[k as int].2 < g.len());
            }
            self.walk(c.2, c.0.as_str(), c.1.as_str(), indent + 1, fuel - 1, out);
            k += 1;
            proof {
                assert(out@ =~= line_end + dump_children(g, idx as int, k as int, (indent + 1) as nat, (fuel - 1) as nat));
            }
        }
        proof {
            assert(g[idx as int].nodes.len() == n.nodes@.len());
        }
    }

    /// A text dump of the tree below this node, one line per node, children
    /// indented one level more; levels deeper than the number of nodes are cut.
    pub fn walk_dump(&self, input: &str, output: &str, indent: usize) -> (r: String)
        requires
            self.wf(),
            indent + self@.nodes.len() < usize::MAX / 4,
        ensures
            r@ == dump_text(self@.nodes, self@.idx as int, input@, output@, indent as nat, self@.nodes.len()),
    {
        let mut out = String::new();
        self.walk(self.idx, input, output, indent, self.graph.len(), &mut out);
        proof {
            assert(out@ =~= Seq::empty() + dump_text(self@.nodes, self@.idx as int, input@, output@, indent as nat, self@.nodes.len()));
        }
        out
    }
}


/// The name of temporary variable number `counter`.
pub open spec fn tmp_name(counter: usize, extra: Seq<char>) -> Seq<char> {
    "_tmp"@ + dec_digits(counter as nat) + "_"@ + extra + "_"@
}

/// The key under which the variable of output `out` of the block with ID `id` is stored.
pub open spec fn idout_key(id: usize, out: Seq<char>) -> Seq<char> {
    dec_digits(id as nat) + "/"@ + out
}

/// The value most recently stored under `key`.
pub open spec fn var_lookup(v: Seq<(Seq<char>, Seq<char>)>, key: Seq<char>) -> Option<Seq<char>>
    decreases v.len(),
{
    if v.len() == 0 {
        None
    } else if v.last().0 == key {
        Some(v.last().1)
    } else {
        var_lookup(v.drop_last(), key)
    }
}

/// What the compiler front end is, as the contracts speak of it: the stored
/// variables of block outputs, in storing order, the language and the count
/// of temporary variables made.
pub ghost struct CompilerSpec {
    pub vars: Seq<(Seq<char>, Seq<char>)>,
    pub lang: LangView,
    pub counter: usize,
}

/// The language a compiler works with.
pub type LangView = crate::blocklang::LangSpec;

/// The front end of the block compiler: it translates a generated tree into
/// statements, storing the outputs of blocks with several outputs in
/// temporary variables.
#[derive(Debug)]
pub struct Block2JITCompiler {
    idout_var_map: Vec<(String, String)>,
    lang: Rc<BlockLanguage>,
    tmpvar_counter: usize,
}

impl View for Block2JITCompiler {
    type V = CompilerSpec;

    closed spec fn view(&self) -> CompilerSpec {
        CompilerSpec {
            vars: self.idout_var_map@.map_values(|p: (String, String)| (p.0@, p.1@)),
            lang: (*self.lang)@,
            counter: self.tmpvar_counter,
        }
    }
}

impl Block2JITCompiler {
    /// A compiler for the language `lang`.
    pub fn new(lang: Rc<BlockLanguage>) -> (r: Self)
        ensures
            r@ == (CompilerSpec { vars: Seq::empty(), lang: (*lang)@, counter: 0 }),
    {
        let r = Self { idout_var_map: Vec::new(), lang, tmpvar_counter: 0 };
        proof {
            assert(r@.vars =~= Seq::<(Seq<char>, Seq<char>)>::empty());
        }
        r
    }

    /// A new temporary variable name `_tmp<count>_<extra>_`.
    pub fn next_tmpvar_name(&mut self, extra: &str) -> (r: String)
        ensures
            final(self)@ == (CompilerSpec { counter: id_after(old(self)@.counter as nat, 1), ..old(self)@ }),
            r@ == tmp_name(final(self)@.counter, extra@),
    {
        proof {
            crate::blocklang::lemma_id_after_one(self.tmpvar_counter as nat);
        }
        self.tmpvar_counter = self.tmpvar_counter.wrapping_add(1);
        let mut r = String::new();
        append_str(&mut r, "_tmp");
        append_decimal(&mut r, self.tmpvar_counter);
        append_str(&mut r, "_");
        append_str(&mut r, extra);
        append_str(&mut r, "_");
        proof {
            assert(r@ =~= tmp_name(self.tmpvar_counter, extra@));
        }
        r
    }

    /// Stores `v` as the variable of output `out` of the block with ID `id`.
    pub fn store_idout_var(&mut self, id: usize, out: &str, v: &str)
        ensures
            final(self)@ == (CompilerSpec { vars: old(self)@.vars.push((idout_key(id, out@), v@)), ..old(self)@ }),
    {
        let mut key = String::new();
        append_decimal(&mut key, id);
        append_str(&mut key, "/");
        append_str(&mut key, out);
        proof {
            assert(key@ =~= idout_key(id, out@));
        }
        self.idout_var_map.push((key, v.to_owned()));
        proof {
            assert(self@.vars =~= old(self)@.vars.push((idout_key(id, out@), v@)));
        }
    }

    /// The variable stored for output `out` of the block with ID `id`.
    pub fn get_var_for_idout(&self, id: usize, out: &str) -> (r: Option<&str>)
        ensures
            match var_lookup(self@.vars, idout_key(id, out@)) {
                Some(v) => r is Some && r->0@ == v,
                None => r is None,
            },
    {
        let mut key = String::new();
        append_decimal(&mut key, id);
        append_str(&mut key, "/");
        append_str(&mut key, out);
        let ghost k = idout_key(id, out@);
        proof {
            assert(key@ =~= k);
        }
        let ghost vs = self@.vars;
        proof {
            assert(vs.subrange(0, vs.len() as int) =~= vs);
        }
        let mut i: usize = self.idout_var_map.len();
        while i > 0
            invariant
                i <= self.idout_var_map@.len(),
                vs == self@.vars,
                key@ == k,
                k == idout_key(id, out@),
                var_lookup(vs, k) == var_lookup(vs.subrange(0, i as int), k),
            decreases i,
        {
            let e = &self.idout_var_map[i - 1];
            proof {
                assert(vs[i - 1] == (e.0@, e.1@));
                assert(vs.subrange(0, i as int).drop_last() =~= vs.subrange(0, i - 1));
            }
            if str_eq(e.0.as_str(), key.as_str()) {
                proof {
                    let sub = vs.subrange(0, i as int);
                    assert(sub.last() == vs[i - 1]);
                    assert(sub.last().0 == k);
                    assert(var_lookup(sub, k) == Some(e.1@));
                }
                let found: &str = e.1.as_str();
                proof {
                    assert(found@ == e.1@);
                    assert(var_lookup(self@.vars, idout_key(id, out@)) == Some(found@));
                }
                return Some(found);
            }
            i -= 1;
        }
        None
    }
}

/// Whether two strings hold the same characters.
pub(crate) fn str_eq(a: &str, b: &str) -> (r: bool)
    ensures
        r == (a@ == b@),
{
    let la = a.unicode_len();
    let lb = b.unicode_len();
    if la != lb {
        return false;
    }
    let mut i: usize = 0;
    while i < la
        invariant
            i <= la,
            la == a@.len(),
            lb == b@.len(),
            la == lb,
            forall|j: int| 0 <= j < i ==> a@[j] == b@[j],
        decreases la - i,
    {
        if a.get_char(i) != b.get_char(i) {
            return false;
        }
        i += 1;
    }
    proof {
        assert(a@ =~= b@);
    }
    true
}


/// A variable stored for a block output is what a lookup of that output finds.
pub proof fn law_store_then_get(vars: Seq<(Seq<char>, Seq<char>)>, id: usize, out: Seq<char>, v: Seq<char>)
    ensures
        var_lookup(vars.push((idout_key(id, out), v)), idout_key(id, out)) == Some(v),
{
    assert(vars.push((idout_key(id, out), v)).last() == (idout_key(id, out), v));
}

/// A decimal representation holds no slash.
proof fn lemma_dec_no_slash(n: nat)
    ensures
        forall|i: int| 0 <= i < dec_digits(n).len() ==> dec_digits(n)[i] != '/',
    decreases n,
{
    if n >= 10 {
        lemma_dec_no_slash(n / 10);
        let d = dec_digits(n / 10);
        assert forall|i: int| 0 <= i < dec_digits(n).len() implies dec_digits(n)[i] != '/' by {
            if i < d.len() {
                assert(dec_digits(n)[i] == d[i]);
            }
        }
    }
}

/// Different block outputs have different variable keys.
proof fn lemma_idout_key_injective(id: usize, out: Seq<char>, id2: usize, out2: Seq<char>)
    requires
        idout_key(id, out) == idout_key(id2, out2),
    ensures
        id == id2,
        out == out2,
{
    let a = dec_digits(id as nat);
    let b = dec_digits(id2 as nat);
    let k = idout_key(id, out);
    let k2 = idout_key(id2, out2);
    reveal_strlit("/");
    assert("/"@.len() == 1 && "/"@[0] == '/');
    lemma_dec_no_slash(id as nat);
    lemma_dec_no_slash(id2 as nat);
    if a.len() < b.len() {
        assert(k[a.len() as int] == '/');
        assert(k2[a.len() as int] == b[a.len() as int]);
    } else if b.len() < a.len() {
        assert(k2[b.len() as int] == '/');
        assert(k[b.len() as int] == a[b.len() as int]);
    }
    assert(a.len() == b.len());
    assert(a =~= b) by {
        assert forall|i: int| 0 <= i < a.len() implies a[i] == b[i] by {
            assert(k[i] == a[i]);
            assert(k2[i] == b[i]);
        }
    }
    law_decimal_injective(id as nat, id2 as nat);
    assert(k.len() == a.len() + 1 + out.len());
    assert(k2.len() == b.len() + 1 + out2.len());
    assert(out.len() == out2.len());
    assert(out =~= out2) by {
        assert forall|i: int| 0 <= i < out.len() implies out[i] == out2[i] by {
            assert(k[a.len() + 1 + i] == out[i]);
            assert(k2[b.len() + 1 + i] == out2[i]);
        }
    }
}

/// Storing a variable for one block output leaves what a lookup of every
/// other block output finds.
pub proof fn law_store_keeps_others(
    vars: Seq<(Seq<char>, Seq<char>)>,
    id: usize,
    out: Seq<char>,
    v: Seq<char>,
    id2: usize,
    out2: Seq<char>,
)
    requires
        id != id2 || out != out2,
    ensures
        var_lookup(vars.push((idout_key(id, out), v)), idout_key(id2, out2)) == var_lookup(vars, idout_key(id2, out2)),
{
    let w = vars.push((idout_key(id, out), v));
    assert(w.drop_last() =~= vars);
    if idout_key(id, out) == idout_key(id2, out2) {
        lemma_idout_key_injective(id, out, id2, out2);
    }
}

/// Different counts have different decimal representations, so temporary
/// variable names never repeat.
pub proof fn law_decimal_injective(n: nat, m: nat)
    requires
        dec_digits(n) == dec_digits(m),
    ensures
        n == m,
    decreases n,
{
    crate::text::lemma_dec_len(n);
    crate::text::lemma_dec_len(m);
    if n >= 10 && m >= 10 {
        let a = dec_digits(n);
        assert(a.drop_last() == dec_digits(n / 10));
        assert(dec_digits(m).drop_last() == dec_digits(m / 10));
        assert(a.last() == crate::text::digit_char(n % 10));
        assert(dec_digits(m).last() == crate::text::digit_char(m % 10));
        crate::text::lemma_digit_injective(n % 10, m % 10);
        law_decimal_injective(n / 10, m / 10);
    } else if n < 10 && m < 10 {
        assert(dec_digits(n) == seq![crate::text::digit_char(n)]);
        assert(dec_digits(m) == seq![crate::text::digit_char(m)]);
        assert(seq![crate::text::digit_char(n)][0] == crate::text::digit_char(n));
        assert(seq![crate::text::digit_char(m)][0] == crate::text::digit_char(m));
        assert(dec_digits(n)[0] == dec_digits(m)[0]);
        crate::text::lemma_digit_injective(n, m);
    }
}


/// A statement tree over temporary variables, as the translation makes it.
#[derive(Debug)]
pub enum BlkASTNode {
    Area { childs: Vec<BlkASTNode> },
    Assign { var: String, expr: Box<BlkASTNode> },
    Get { id: usize, var: String },
    Node { id: usize, out: Option<String>, typ: String, lbl: String, childs: Vec<(Option<String>, BlkASTNode)> },
    Literal { value: String },
}

impl BlkASTNode {
    /// A statement list.
    pub fn new_area(childs: Vec<BlkASTNode>) -> (r: BlkASTNode)
        ensures
            r == (BlkASTNode::Area { childs }),
    {
        BlkASTNode::Area { childs }
    }

    /// A number literal with the text `val`, or `BadLiteralNumber` when the
    /// text does not read as a number.
    pub fn new_literal(val: &str) -> (r: Result<BlkASTNode, BlkJITCompileError>)
        ensures
            literal_ok(val@) ==> (r matches Ok(BlkASTNode::Literal { value: v }) && v@ == val@),
            !literal_ok(val@) ==> (r matches Err(BlkJITCompileError::BadLiteralNumber(t)) && t@ == val@),
    {
        if is_literal(val) {
            Ok(BlkASTNode::Literal { value: val.to_string() })
        } else {
            Err(BlkJITCompileError::BadLiteralNumber(val.to_string()))
        }
    }

    /// An assignment of `expr` to the variable `var`.
    pub fn new_set(var: &str, expr: BlkASTNode) -> (r: BlkASTNode)
        ensures
            r matches BlkASTNode::Assign { var: v, expr: e } && v@ == var@ && *e == expr,
    {
        BlkASTNode::Assign { var: var.to_string(), expr: Box::new(expr) }
    }

    /// A read of the variable `var`, for block `id`.
    pub fn new_get(id: usize, var: &str) -> (r: BlkASTNode)
        ensures
            r matches BlkASTNode::Get { id: i, var: v } && i == id && v@ == var@,
    {
        BlkASTNode::Get { id, var: var.to_string() }
    }

    /// A call of block `id` of type `typ`, asked for output `out`.
    pub fn new_node(
        id: usize,
        out: Option<String>,
        typ: &str,
        lbl: &str,
        childs: Vec<(Option<String>, BlkASTNode)>,
    ) -> (r: BlkASTNode)
        ensures
            r matches BlkASTNode::Node { id: i, out: o, typ: t, lbl: l, childs: c } && i == id && o == out && t@
                == typ@ && l@ == lbl@ && c == childs,
    {
        BlkASTNode::Node { id, out, typ: typ.to_string(), lbl: lbl.to_string(), childs }
    }
}

/// What a statement tree is, as the contracts speak of it.
pub ghost enum BlkSpec {
    Area { childs: Seq<BlkSpec> },
    Assign { var: Seq<char>, expr: Box<BlkSpec> },
    Get { id: usize, var: Seq<char> },
    Node { id: usize, out: Option<Seq<char>>, typ: Seq<char>, lbl: Seq<char>, childs: Seq<(Option<Seq<char>>, BlkSpec)> },
    Literal { value: Seq<char> },
}

/// The model of an optional label.
pub open spec fn opt_view(o: Option<String>) -> Option<Seq<char>> {
    match o {
        Some(s) => Some(s@),
        None => None,
    }
}

/// The model of a statement tree.
pub open spec fn blk_view(n: BlkASTNode) -> BlkSpec
    decreases n,
{
    match n {
        BlkASTNode::Area { childs } => BlkSpec::Area { childs: blk_list_view(childs@, childs@.len() as int) },
        BlkASTNode::Assign { var, expr } => BlkSpec::Assign { var: var@, expr: Box::new(blk_view(*expr)) },
        BlkASTNode::Get { id, var } => BlkSpec::Get { id, var: var@ },
        BlkASTNode::Node { id, out, typ, lbl, childs } => BlkSpec::Node {
            id,
            out: opt_view(out),
            typ: typ@,
            lbl: lbl@,
            childs: blk_arg_view(childs@, childs@.len() as int),
        },
        BlkASTNode::Literal { value } => BlkSpec::Literal { value: value@ },
    }
}

/// The models of the first `k` statement trees of a list.
pub open spec fn blk_list_view(v: Seq<BlkASTNode>, k: int) -> Seq<BlkSpec>
    decreases v, k,
{
    if k <= 0 || k > v.len() {
        Seq::empty()
    } else {
        blk_list_view(v, k - 1).push(blk_view(v[k - 1]))
    }
}

/// The models of the first `k` arguments of a node.
pub open spec fn blk_arg_view(v: Seq<(Option<String>, BlkASTNode)>, k: int) -> Seq<(Option<Seq<char>>, BlkSpec)>
    decreases v, k,
{
    if k <= 0 || k > v.len() {
        Seq::empty()
    } else {
        blk_arg_view(v, k - 1).push((opt_view(v[k - 1].0), blk_view(v[k - 1].1)))
    }
}


/// The errors of the translation, as the contracts speak of them.
pub ghost enum ErrSpec {
    UnknownError,
    NoSynfxDSPJit,
    BadTree(ASTSpec),
    NoOutputAtIdx(Seq<char>, usize),
    ASTMissingOutputLabel(usize),
    NoTmpVarForOutput(usize, Seq<char>),
    BadLiteralNumber(Seq<char>),
    NodeWithoutID(Seq<char>),
    UnknownType(Seq<char>),
    TooManyInputs(Seq<char>, usize),
    WrongNumberOfChilds(Seq<char>, usize, usize),
    UnassignedInput(Seq<char>, usize, Seq<char>),
}

/// The errors of compiling block code.
#[derive(Debug, Clone)]
pub enum BlkJITCompileError {
    UnknownError,
    NoSynfxDSPJit,
    BadTree(ASTNodeRef),
    NoOutputAtIdx(String, usize),
    ASTMissingOutputLabel(usize),
    NoTmpVarForOutput(usize, String),
    BadLiteralNumber(String),
    NodeWithoutID(String),
    UnknownType(String),
    TooManyInputs(String, usize),
    WrongNumberOfChilds(String, usize, usize),
    UnassignedInput(String, usize, String),
}

/// The model of a compile error.
pub open spec fn err_view(e: BlkJITCompileError) -> ErrSpec {
    match e {
        BlkJITCompileError::UnknownError => ErrSpec::UnknownError,
        BlkJITCompileError::NoSynfxDSPJit => ErrSpec::NoSynfxDSPJit,
        BlkJITCompileError::BadTree(t) => ErrSpec::BadTree(t@),
        BlkJITCompileError::NoOutputAtIdx(s, i) => ErrSpec::NoOutputAtIdx(s@, i),
        BlkJITCompileError::ASTMissingOutputLabel(i) => ErrSpec::ASTMissingOutputLabel(i),
        BlkJITCompileError::NoTmpVarForOutput(i, s) => ErrSpec::NoTmpVarForOutput(i, s@),
        BlkJITCompileError::BadLiteralNumber(s) => ErrSpec::BadLiteralNumber(s@),
        BlkJITCompileError::NodeWithoutID(s) => ErrSpec::NodeWithoutID(s@),
        BlkJITCompileError::UnknownType(s) => ErrSpec::UnknownType(s@),
        BlkJITCompileError::TooManyInputs(s, i) => ErrSpec::TooManyInputs(s@, i),
        BlkJITCompileError::WrongNumberOfChilds(s, i, j) => ErrSpec::WrongNumberOfChilds(s@, i, j),
        BlkJITCompileError::UnassignedInput(s, i, t) => ErrSpec::UnassignedInput(s@, i, t@),
    }
}

/// The model of a translation result.
pub open spec fn res_view(r: Result<BlkASTNode, BlkJITCompileError>) -> Result<BlkSpec, ErrSpec> {
    match r {
        Ok(n) => Ok(blk_view(n)),
        Err(e) => Err(err_view(e)),
    }
}

/// A label, or nothing for the empty label.
pub open spec fn nonempty_opt(s: Seq<char>) -> Option<Seq<char>> {
    if s.len() > 0 {
        Some(s)
    } else {
        None
    }
}

/// The number of outputs of a type; 0 for an unknown type.
pub open spec fn output_count(l: LangView, typ: Seq<char>) -> nat {
    match lang_type(l, typ) {
        Some(t) => port_names(t.outputs, t.outputs.len() as int).len(),
        None => 0,
    }
}

/// The name of output `i` of a type.
pub open spec fn output_name(l: LangView, typ: Seq<char>, i: int) -> Option<Seq<char>> {
    match lang_type(l, typ) {
        Some(t) => {
            let names = port_names(t.outputs, t.outputs.len() as int);
            if 0 <= i < names.len() {
                Some(names[i])
            } else {
                None
            }
        },
        None => None,
    }
}

/// The state after making a temporary variable.
pub open spec fn bumped(st: CompilerSpec) -> CompilerSpec {
    CompilerSpec { counter: id_after(st.counter as nat, 1), ..st }
}

/// The state after storing `v` for output `out` of block `id`.
pub open spec fn stored(st: CompilerSpec, id: usize, out: Seq<char>, v: Seq<char>) -> CompilerSpec {
    CompilerSpec { vars: st.vars.push((idout_key(id, out), v)), ..st }
}

/// The translation of node `idx` of `g`, asked for output `my_out`, with the
/// state after it; `fuel` bounds the depth.
pub open spec fn trans_spec(st: CompilerSpec, g: Seq<NodeSpec>, idx: int, my_out: Option<Seq<char>>, fuel: nat) -> (
    Result<BlkSpec, ErrSpec>,
    CompilerSpec,
)
    decreases fuel, 0nat,
{
    let n = g[idx];
    let hit = var_lookup(st.vars, idout_key(n.id, match my_out { Some(o) => o, None => Seq::empty() }));
    let bad = ErrSpec::BadTree(ASTSpec { nodes: g, idx: idx as usize });
    if hit is Some {
        (Ok(BlkSpec::Get { id: 0, var: hit->0 }), st)
    } else if fuel == 0 {
        (Err(bad), st)
    } else if n.typ == "<a>"@ {
        let (r, st1) = trans_list(st, g, idx, n.nodes.len() as int, (fuel - 1) as nat);
        (
            match r {
                Ok(cs) => Ok(BlkSpec::Area { childs: cs }),
                Err(e) => Err(e),
            },
            st1,
        )
    } else if n.typ == "<r>"@ || n.typ == "->"@ || n.typ == "set"@ || n.typ == "<res>"@ || n.typ == "->2"@ || n.typ
        == "->3"@ {
        if n.nodes.len() == 0 {
            (Err(bad), st)
        } else {
            let c = n.nodes[0];
            let is_split = n.typ == "->2"@ || n.typ == "->3"@;
            let tmp = tmp_name(id_after(st.counter as nat, 1), Seq::empty());
            let st0 = if is_split { bumped(st) } else { st };
            let (r, st1) = trans_spec(st0, g, c.2 as int, nonempty_opt(c.1), (fuel - 1) as nat);
            match r {
                Err(e) => (Err(e), st1),
                Ok(b) => if n.typ == "<r>"@ {
                    (Ok(BlkSpec::Area { childs: seq![b, BlkSpec::Get { id: 0, var: "_res_"@ }] }), st1)
                } else if n.typ == "->"@ {
                    (Ok(b), st1)
                } else if n.typ == "<res>"@ {
                    (Ok(BlkSpec::Assign { var: "_res_"@, expr: Box::new(b) }), st1)
                } else if n.typ == "set"@ {
                    (Ok(BlkSpec::Assign { var: n.lbl, expr: Box::new(b) }), st1)
                } else {
                    (
                        Ok(
                            BlkSpec::Area {
                                childs: seq![
                                    BlkSpec::Assign { var: tmp, expr: Box::new(b) },
                                    BlkSpec::Get { id: 0, var: tmp },
                                ],
                            },
                        ),
                        stored(st1, n.id, Seq::empty(), tmp),
                    )
                },
            }
        }
    } else if n.typ == "value"@ {
        if literal_ok(n.lbl) {
            (Ok(BlkSpec::Literal { value: n.lbl }), st)
        } else {
            (Err(ErrSpec::BadLiteralNumber(n.lbl)), st)
        }
    } else if n.typ == "get"@ {
        (Ok(BlkSpec::Get { id: n.id, var: n.lbl }), st)
    } else {
        let (r, st1) = trans_args(st, g, idx, n.nodes.len() as int, (fuel - 1) as nat);
        match r {
            Err(e) => (Err(e), st1),
            Ok(args) => finish_node(st1, n.id, n.typ, n.lbl, my_out, args),
        }
    }
}

/// The statements for a block node with translated arguments: the call
/// itself, or, for a type with several outputs, the call's results stored in
/// temporary variables followed by the one asked for.
pub open spec fn finish_node(
    st1: CompilerSpec,
    id: usize,
    typ: Seq<char>,
    lbl: Seq<char>,
    my_out: Option<Seq<char>>,
    args: Seq<(Option<Seq<char>>, BlkSpec)>,
) -> (Result<BlkSpec, ErrSpec>, CompilerSpec) {
    let node = BlkSpec::Node { id, out: my_out, typ, lbl, childs: args };
    if output_count(st1.lang, typ) > 1 {
        match output_name(st1.lang, typ, 0) {
            None => (Err(ErrSpec::NoOutputAtIdx(typ, 0)), st1),
            Some(o0) => {
                let tmp0 = tmp_name(id_after(st1.counter as nat, 1), o0);
                let st2 = stored(bumped(st1), id, o0, tmp0);
                let (r3, st3) = multi_outs(
                    st2,
                    id,
                    typ,
                    output_count(st1.lang, typ) as int,
                    1,
                    seq![BlkSpec::Assign { var: tmp0, expr: Box::new(node) }],
                );
                outs_result(r3, st3, id, my_out)
            },
        }
    } else {
        (Ok(node), st1)
    }
}

/// The area of a block with several outputs, closed by a read of the output
/// asked for.
pub open spec fn outs_result(
    r3: Result<Seq<BlkSpec>, ErrSpec>,
    st3: CompilerSpec,
    id: usize,
    my_out: Option<Seq<char>>,
) -> (Result<BlkSpec, ErrSpec>, CompilerSpec) {
    match r3 {
        Err(e) => (Err(e), st3),
        Ok(area) => match my_out {
            Some(o) => match var_lookup(st3.vars, idout_key(id, o)) {
                Some(t) => (Ok(BlkSpec::Area { childs: area.push(BlkSpec::Get { id: 0, var: t }) }), st3),
                None => (Err(ErrSpec::NoTmpVarForOutput(id, o)), st3),
            },
            None => (Err(ErrSpec::ASTMissingOutputLabel(id)), st3),
        },
    }
}

/// The translations of the first `k` children of node `idx`, each asked for
/// the output it comes from.
pub open spec fn trans_list(st: CompilerSpec, g: Seq<NodeSpec>, idx: int, k: int, fuel: nat) -> (
    Result<Seq<BlkSpec>, ErrSpec>,
    CompilerSpec,
)
    decreases fuel, (if k > 0 { k + 1 } else { 1 }) as nat,
{
    if k <= 0 {
        (Ok(Seq::empty()), st)
    } else {
        let (r, st1) = trans_list(st, g, idx, k - 1, fuel);
        match r {
            Err(e) => (Err(e), st1),
            Ok(cs) => {
                let c = g[idx].nodes[k - 1];
                let (r2, st2) = trans_spec(st1, g, c.2 as int, nonempty_opt(c.1), fuel);
                match r2 {
                    Err(e) => (Err(e), st2),
                    Ok(b) => (Ok(cs.push(b)), st2),
                }
            },
        }
    }
}

/// The translations of the first `k` children of node `idx` as arguments,
/// with the input each feeds.
pub open spec fn trans_args(st: CompilerSpec, g: Seq<NodeSpec>, idx: int, k: int, fuel: nat) -> (
    Result<Seq<(Option<Seq<char>>, BlkSpec)>, ErrSpec>,
    CompilerSpec,
)
    decreases fuel, (if k > 0 { k + 1 } else { 1 }) as nat,
{
    if k <= 0 {
        (Ok(Seq::empty()), st)
    } else {
        let (r, st1) = trans_args(st, g, idx, k - 1, fuel);
        match r {
            Err(e) => (Err(e), st1),
            Ok(cs) => {
                let c = g[idx].nodes[k - 1];
                let (r2, st2) = trans_spec(st1, g, c.2 as int, nonempty_opt(c.1), fuel);
                match r2 {
                    Err(e) => (Err(e), st2),
                    Ok(b) => (Ok(cs.push((nonempty_opt(c.0), b))), st2),
                }
            },
        }
    }
}

/// The assignments of outputs `i` up to `cnt` of a block with several outputs
/// to temporary variables, appended to `area`.
pub open spec fn multi_outs(st: CompilerSpec, id: usize, typ: Seq<char>, cnt: int, i: int, area: Seq<BlkSpec>) -> (
    Result<Seq<BlkSpec>, ErrSpec>,
    CompilerSpec,
)
    decreases cnt - i,
{
    if i >= cnt {
        (Ok(area), st)
    } else {
        match output_name(st.lang, typ, i) {
            None => (Err(ErrSpec::NoOutputAtIdx(typ, i as usize)), st),
            Some(o) => {
                let tmp = tmp_name(id_after(st.counter as nat, 1), o);
                multi_outs(
                    stored(bumped(st), id, o, tmp),
                    id,
                    typ,
                    cnt,
                    i + 1,
                    area.push(BlkSpec::Assign { var: tmp, expr: Box::new(BlkSpec::Get { id: 0, var: "%"@ + dec_digits(i as nat) }) }),
                )
            },
        }
    }
}


/// A longer list keeps the models of its prefix.
proof fn lemma_blk_list_push(v: Seq<BlkASTNode>, b: BlkASTNode, k: int)
    requires
        0 <= k <= v.len(),
    ensures
        blk_list_view(v.push(b), k) == blk_list_view(v, k),
    decreases k,
{
    if k > 0 {
        lemma_blk_list_push(v, b, k - 1);
        assert(v.push(b)[k - 1] == v[k - 1]);
    }
}

/// A longer argument list keeps the models of its prefix.
proof fn lemma_blk_arg_push(v: Seq<(Option<String>, BlkASTNode)>, b: (Option<String>, BlkASTNode), k: int)
    requires
        0 <= k <= v.len(),
    ensures
        blk_arg_view(v.push(b), k) == blk_arg_view(v, k),
    decreases k,
{
    if k > 0 {
        lemma_blk_arg_push(v, b, k - 1);
        assert(v.push(b)[k - 1] == v[k - 1]);
    }
}

/// Once a child fails, the list translation keeps that failure.
proof fn lemma_list_err_stays(st: CompilerSpec, g: Seq<NodeSpec>, idx: int, k: int, m: int, fuel: nat)
    requires
        0 <= k <= m,
        trans_list(st, g, idx, k, fuel).0 is Err,
    ensures
        trans_list(st, g, idx, m, fuel) == trans_list(st, g, idx, k, fuel),
    decreases m - k,
{
    if k < m {
        lemma_list_err_stays(st, g, idx, k, m - 1, fuel);
    }
}

/// Once an argument fails, the argument translation keeps that failure.
proof fn lemma_args_err_stays(st: CompilerSpec, g: Seq<NodeSpec>, idx: int, k: int, m: int, fuel: nat)
    requires
        0 <= k <= m,
        trans_args(st, g, idx, k, fuel).0 is Err,
    ensures
        trans_args(st, g, idx, m, fuel) == trans_args(st, g, idx, k, fuel),
    decreases m - k,
{
    if k < m {
        lemma_args_err_stays(st, g, idx, k, m - 1, fuel);
    }
}

/// The models of a whole list.
pub open spec fn blk_list(v: Seq<BlkASTNode>) -> Seq<BlkSpec> {
    blk_list_view(v, v.len() as int)
}

/// The name `%i` of the `i`-th result of a call.
fn result_var(i: usize) -> (r: String)
    ensures
        r@ == "%"@ + dec_digits(i as nat),
{
    let mut r = String::new();
    append_str(&mut r, "%");
    append_decimal(&mut r, i);
    r
}

impl Block2JITCompiler {
    /// The compiler's language is well formed.
    pub open spec fn wf(&self) -> bool {
        lang_wf(self@.lang)
    }

    /// Another reference to node `idx` of the same tree.
    fn node_ref(node: &ASTNodeRef, idx: usize) -> (r: ASTNodeRef)
        ensures
            r@ == (ASTSpec { nodes: node@.nodes, idx }),
    {
        ASTNodeRef { graph: share_rc(&node.graph), idx }
    }

    /// Translates the tree below `node`, asked for output `my_out`, into
    /// statements; at most `fuel` levels deep.
    fn trans(&mut self, node: &ASTNodeRef, my_out: Option<String>, fuel: usize) -> (r: Result<BlkASTNode, BlkJITCompileError>)
        requires
            node.wf(),
            old(self).wf(),
        ensures
            final(self).wf(),
            final(self)@.lang == old(self)@.lang,
            (res_view(r), final(self)@) == trans_spec(old(self)@, node@.nodes, node@.idx as int, opt_view(my_out), fuel as nat),
        decreases fuel, 0nat,
    {
        let ghost g = node@.nodes;
        let n = &node.graph[node.idx];
        proof {
            assert(g[node.idx as int] == jast_view(*n));
        }
        let id = n.id;
        let hit = match &my_out {
            Some(o) => self.get_var_for_idout(id, o.as_str()),
            None => self.get_var_for_idout(id, ""),
        };
        proof {
            assert(""@ =~= Seq::<char>::empty()) by {
                reveal_strlit("");
            }
        }
        if let Some(t) = hit {
            return Ok(BlkASTNode::Get { id: 0, var: t.to_owned() });
        }
        if fuel == 0 {
            return Err(BlkJITCompileError::BadTree(Self::node_ref(node, node.idx)));
        }
        let typ = n.typ.as_str();
        if str_eq(typ, "<a>") {
            return match self.trans_list(node, fuel - 1) {
                Ok(childs) => Ok(BlkASTNode::Area { childs }),
                Err(e) => Err(e),
            };
        }
        let is_r = str_eq(typ, "<r>");
        let is_fwd = str_eq(typ, "->");
        let is_set = str_eq(typ, "set");
        let is_res = str_eq(typ, "<res>");
        let is_split = str_eq(typ, "->2") || str_eq(typ, "->3");
        if is_r || is_fwd || is_set || is_res || is_split {
            if n.nodes.len() == 0 {
                return Err(BlkJITCompileError::BadTree(Self::node_ref(node, node.idx)));
            }
            let c = &n.nodes[0];
            proof {
                assert(children_view(n.nodes@)[0] == (c.0@, c.1@, c.2));
                assert(g[node.idx as int].nodes[0].2 < g.len());
            }
            let mut tmp = String::new();
            if is_split {
                tmp = self.next_tmpvar_name("");
            }
            let cref = Self::node_ref(node, c.2);
            let out = if c.1.unicode_len() > 0 { Some(c.1.clone()) } else { None };
            let b = match self.trans(&cref, out, fuel - 1) {
                Ok(b) => b,
                Err(e) => {
                    return Err(e);
                },
            };
            if is_r {
                let mut v: Vec<BlkASTNode> = Vec::new();
                v.push(b);
                v.push(BlkASTNode::Get { id: 0, var: "_res_".to_owned() });
                proof {
                    assert(blk_list_view(v@, 0) =~= Seq::<BlkSpec>::empty());
                    assert(blk_list_view(v@, 1) =~= seq![blk_view(v@[0])]);
                    assert(blk_list(v@) =~= seq![blk_view(v@[0]), blk_view(v@[1])]);
                }
                return Ok(BlkASTNode::Area { childs: v });
            } else if is_fwd {
                return Ok(b);
            } else if is_res {
                return Ok(BlkASTNode::Assign { var: "_res_".to_owned(), expr: Box::new(b) });
            } else if is_set {
                return Ok(BlkASTNode::Assign { var: n.lbl.clone(), expr: Box::new(b) });
            } else {
                let mut v: Vec<BlkASTNode> = Vec::new();
                v.push(BlkASTNode::Assign { var: tmp.clone(), expr: Box::new(b) });
                v.push(BlkASTNode::Get { id: 0, var: tmp.clone() });
                self.store_idout_var(id, "", tmp.as_str());
                proof {
                    assert(blk_list_view(v@, 0) =~= Seq::<BlkSpec>::empty());
                    assert(blk_list_view(v@, 1) =~= seq![blk_view(v@[0])]);
                    assert(blk_list(v@) =~= seq![blk_view(v@[0]), blk_view(v@[1])]);
                }
                return Ok(BlkASTNode::Area { childs: v });
            }
        }
        if str_eq(typ, "value") {
            if is_literal(n.lbl.as_str()) {
                return Ok(BlkASTNode::Literal { value: n.lbl.clone() });
            } else {
                return Err(BlkJITCompileError::BadLiteralNumber(n.lbl.clone()));
            }
        }
        if str_eq(typ, "get") {
            return Ok(BlkASTNode::Get { id, var: n.lbl.clone() });
        }
        match self.trans_args(node, fuel - 1) {
            Ok(args) => self.finish_node(id, typ, n.lbl.as_str(), my_out, args),
            Err(e) => Err(e),
        }
    }

    /// Translates the children of `node` in order, each asked for the output
    /// it comes from.
    fn trans_list(&mut self, node: &ASTNodeRef, fuel: usize) -> (r: Result<Vec<BlkASTNode>, BlkJITCompileError>)
        requires
            node.wf(),
            old(self).wf(),
        ensures
            final(self).wf(),
            final(self)@.lang == old(self)@.lang,
            (match r {
                Ok(v) => Ok(blk_list(v@)),
                Err(e) => Err(err_view(e)),
            }, final(self)@) == trans_list(
                old(self)@,
                node@.nodes,
                node@.idx as int,
                node@.nodes[node@.idx as int].nodes.len() as int,
                fuel as nat,
            ),
        decreases fuel, 1nat,
    {
        let ghost g = node@.nodes;
        let ghost st = self@;
        let n = &node.graph[node.idx];
        proof {
            assert(g[node.idx as int] == jast_view(*n));
        }
        let mut childs: Vec<BlkASTNode> = Vec::new();
        let mut i: usize = 0;
        while i < n.nodes.len()
            invariant
                i <= n.nodes@.len(),
                node.wf(),
                g == node@.nodes,
                g[node.idx as int] == jast_view(*n),
                self.wf(),
                self@.lang == st.lang,
                st == old(self)@,
                (Ok::<Seq<BlkSpec>, ErrSpec>(blk_list(childs@)), self@) == trans_list(st, g, node.idx as int, i as int, fuel as nat),
            decreases n.nodes.len() - i,
        {
            let c = &n.nodes[i];
            proof {
                assert(children_view(n.nodes@)[i as int] == (c.0@, c.1@, c.2));
                assert(g[node.idx as int].nodes[i as int].2 < g.len());
            }
            let cref = Self::node_ref(node, c.2);
            let out = if c.1.unicode_len() > 0 { Some(c.1.clone()) } else { None };
            match self.trans(&cref, out, fuel) {
                Ok(b) => {
                    let ghost before = childs@;
                    childs.push(b);
                    proof {
                        lemma_blk_list_push(before, b, before.len() as int);
                    }
                },
                Err(e) => {
                    proof {
                        lemma_list_err_stays(st, g, node.idx as int, i + 1, n.nodes@.len() as int, fuel as nat);
                    }
                    return Err(e);
                },
            }
            i += 1;
        }
        Ok(childs)
    }

    /// Translates the children of `node` in order as arguments, with the input
    /// each feeds.
    fn trans_args(&mut self, node: &ASTNodeRef, fuel: usize) -> (r: Result<
        Vec<(Option<String>, BlkASTNode)>,
        BlkJITCompileError,
    >)
        requires
            node.wf(),
            old(self).wf(),
        ensures
            final(self).wf(),
            final(self)@.lang == old(self)@.lang,
            (match r {
                Ok(v) => Ok(blk_arg_view(v@, v@.len() as int)),
                Err(e) => Err(err_view(e)),
            }, final(self)@) == trans_args(
                old(self)@,
                node@.nodes,
                node@.idx as int,
                node@.nodes[node@.idx as int].nodes.len() as int,
                fuel as nat,
            ),
        decreases fuel, 1nat,
    {
        let ghost g = node@.nodes;
        let ghost st = self@;
        let n = &node.graph[node.idx];
        proof {
            assert(g[node.idx as int] == jast_view(*n));
        }
        let mut args: Vec<(Option<String>, BlkASTNode)> = Vec::new();
        let mut i: usize = 0;
        while i < n.nodes.len()
            invariant
                i <= n.nodes@.len(),
                node.wf(),
                g == node@.nodes,
                g[node.idx as int] == jast_view(*n),
                self.wf(),
                self@.lang == st.lang,
                st == old(self)@,
                (Ok::<Seq<(Option<Seq<char>>, BlkSpec)>, ErrSpec>(blk_arg_view(args@, args@.len() as int)), self@)
                    == trans_args(st, g, node.idx as int, i as int, fuel as nat),
            decreases n.nodes.len() - i,
        {
            let c = &n.nodes[i];
            proof {
                assert(children_view(n.nodes@)[i as int] == (c.0@, c.1@, c.2));
                assert(g[node.idx as int].nodes[i as int].2 < g.len());
            }
            let cref = Self::node_ref(node, c.2);
            let out = if c.1.unicode_len() > 0 { Some(c.1.clone()) } else { None };
            let inp = if c.0.unicode_len() > 0 { Some(c.0.clone()) } else { None };
            match self.trans(&cref, out, fuel) {
                Ok(b) => {
                    let ghost before = args@;
                    args.push((inp, b));
                    proof {
                        lemma_blk_arg_push(before, (inp, b), before.len() as int);
                    }
                },
                Err(e) => {
                    proof {
                        lemma_args_err_stays(st, g, node.idx as int, i + 1, n.nodes@.len() as int, fuel as nat);
                    }
                    return Err(e);
                },
            }
            i += 1;
        }
        Ok(args)
    }

    /// The statements for a block node with translated arguments.
    fn finish_node(
        &mut self,
        id: usize,
        typ: &str,
        lbl: &str,
        my_out: Option<String>,
        args: Vec<(Option<String>, BlkASTNode)>,
    ) -> (r: Result<BlkASTNode, BlkJITCompileError>)
        requires
            old(self).wf(),
        ensures
            final(self).wf(),
            final(self)@.lang == old(self)@.lang,
            (res_view(r), final(self)@) == finish_node(
                old(self)@,
                id,
                typ@,
                lbl@,
                opt_view(my_out),
                blk_arg_view(args@, args@.len() as int),
            ),
    {
        let ghost st = self@;
        let ghost fin = finish_node(st, id, typ@, lbl@, opt_view(my_out), blk_arg_view(args@, args@.len() as int));
        let cnt = self.lang.type_output_count(typ);
        let nd = BlkASTNode::Node { id, out: my_out.clone(), typ: typ.to_owned(), lbl: lbl.to_owned(), childs: args };
        if cnt <= 1 {
            return Ok(nd);
        }
        let o0 = match self.lang.get_output_name_at_index(typ, 0) {
            Some(o) => o,
            None => {
                return Err(BlkJITCompileError::NoOutputAtIdx(typ.to_owned(), 0));
            },
        };
        let tmp0 = self.next_tmpvar_name(o0.as_str());
        let mut area: Vec<BlkASTNode> = Vec::new();
        area.push(BlkASTNode::Assign { var: tmp0.clone(), expr: Box::new(nd) });
        self.store_idout_var(id, o0.as_str(), tmp0.as_str());
        proof {
            assert(blk_list_view(area@, 0) =~= Seq::<BlkSpec>::empty());
            assert(blk_list(area@) =~= seq![blk_view(area@[0])]);
            assert(self@ == stored(bumped(st), id, o0@, tmp0@));
            let t = multi_outs(self@, id, typ@, cnt as int, 1, blk_list(area@));
            assert(fin == outs_result(t.0, t.1, id, opt_view(my_out)));
        }
        let mut k: usize = 1;
        while k < cnt
            invariant
                1 <= k <= cnt,
                self.wf(),
                st == old(self)@,
                self@.lang == st.lang,
                cnt == output_count(st.lang, typ@),
                fin == finish_node(st, id, typ@, lbl@, opt_view(my_out), blk_arg_view(args@, args@.len() as int)),
                fin == outs_result(
                    multi_outs(self@, id, typ@, cnt as int, k as int, blk_list(area@)).0,
                    multi_outs(self@, id, typ@, cnt as int, k as int, blk_list(area@)).1,
                    id,
                    opt_view(my_out),
                ),
            decreases cnt - k,
        {
            let ghost s0 = self@;
            let o = match self.lang.get_output_name_at_index(typ, k) {
                Some(o) => o,
                None => {
                    return Err(BlkJITCompileError::NoOutputAtIdx(typ.to_owned(), k));
                },
            };
            let tmp = self.next_tmpvar_name(o.as_str());
            let ghost before = area@;
            let rv = result_var(k);
            let gx = BlkASTNode::Get { id: 0, var: rv };
            proof {
                assert(blk_view(gx) == BlkSpec::Get { id: 0, var: "%"@ + dec_digits(k as nat) });
            }
            let x = BlkASTNode::Assign { var: tmp.clone(), expr: Box::new(gx) };
            proof {
                assert(output_name(s0.lang, typ@, k as int) == Some(o@));
                assert(tmp@ == tmp_name(id_after(s0.counter as nat, 1), o@));
                assert(blk_view(x) == BlkSpec::Assign { var: tmp@, expr: Box::new(blk_view(gx)) });
            }
            area.push(x);
            self.store_idout_var(id, o.as_str(), tmp.as_str());
            proof {
                lemma_blk_list_push(before, x, before.len() as int);
                assert(blk_list(area@) == blk_list(before).push(blk_view(x)));
                assert(self@ == stored(bumped(s0), id, o@, tmp@));
            }
            k += 1;
        }
        match &my_out {
            Some(out) => match self.get_var_for_idout(id, out.as_str()) {
                Some(t) => {
                    let gv = BlkASTNode::Get { id: 0, var: t.to_owned() };
                    let ghost before = area@;
                    area.push(gv);
                    proof {
                        lemma_blk_list_push(before, gv, before.len() as int);
                        assert(blk_list(area@) == blk_list(before).push(blk_view(gv)));
                    }
                    let res = BlkASTNode::Area { childs: area };
                    proof {
                        assert(blk_view(res) == BlkSpec::Area { childs: blk_list(before).push(blk_view(gv)) });
                    }
                    Ok(res)
                },
                None => Err(BlkJITCompileError::NoTmpVarForOutput(id, out.clone())),
            },
            None => Err(BlkJITCompileError::ASTMissingOutputLabel(id)),
        }
    }

    /// Translates a generated tree into statements.
    pub fn trans2bjit(&mut self, node: &ASTNodeRef, my_out: Option<String>) -> (r: Result<BlkASTNode, BlkJITCompileError>)
        requires
            node.wf(),
            old(self).wf(),
        ensures
            final(self).wf(),
            final(self)@.lang == old(self)@.lang,
            (res_view(r), final(self)@) == trans_spec(
                old(self)@,
                node@.nodes,
                node@.idx as int,
                opt_view(my_out),
                node@.nodes.len(),
            ),
    {
        let fuel = node.graph.len();
        self.trans(node, my_out, fuel)
    }
}

/// A `set` block assigns what its first child computes to the variable
/// named by its own label, and leaves the result variable alone: when the
/// child translates to `b`, the block translates to an assignment of `b` to
/// the block's label.
pub proof fn law_set_assigns_label(
    st: CompilerSpec,
    g: Seq<NodeSpec>,
    idx: int,
    my_out: Option<Seq<char>>,
    fuel: nat,
    b: BlkSpec,
    st1: CompilerSpec,
)
    requires
        0 <= idx < g.len(),
        g[idx].typ == "set"@,
        g[idx].nodes.len() > 0,
        fuel > 0,
        var_lookup(st.vars, idout_key(g[idx].id, match my_out { Some(o) => o, None => Seq::empty() })) is None,
        trans_spec(st, g, g[idx].nodes[0].2 as int, nonempty_opt(g[idx].nodes[0].1), (fuel - 1) as nat) == (
        Ok::<BlkSpec, ErrSpec>(b), st1),
    ensures
        trans_spec(st, g, idx, my_out, fuel) == (Ok::<BlkSpec, ErrSpec>(BlkSpec::Assign { var: g[idx].lbl, expr: Box::new(b) }), st1),
{
    reveal_strlit("set");
    reveal_strlit("<a>");
    reveal_strlit("<r>");
    reveal_strlit("->");
    reveal_strlit("<res>");
    reveal_strlit("->2");
    reveal_strlit("->3");
    assert("set"@.len() == 3 && "set"@[0] == 's');
    assert("<a>"@[0] == '<' && "<r>"@[0] == '<' && "<res>"@[0] == '<');
    assert("->"@[0] == '-' && "->2"@[0] == '-' && "->3"@[0] == '-');
}

/// A `value` block whose label reads as a number is that number literal.
pub proof fn law_value_is_literal(st: CompilerSpec, g: Seq<NodeSpec>, idx: int, my_out: Option<Seq<char>>, fuel: nat)
    requires
        0 <= idx < g.len(),
        g[idx].typ == "value"@,
        literal_ok(g[idx].lbl),
        fuel > 0,
        var_lookup(st.vars, idout_key(g[idx].id, match my_out { Some(o) => o, None => Seq::empty() })) is None,
    ensures
        trans_spec(st, g, idx, my_out, fuel) == (Ok::<BlkSpec, ErrSpec>(BlkSpec::Literal { value: g[idx].lbl }), st),
{
    reveal_strlit("value");
    reveal_strlit("set");
    reveal_strlit("<a>");
    reveal_strlit("<r>");
    reveal_strlit("->");
    reveal_strlit("<res>");
    reveal_strlit("->2");
    reveal_strlit("->3");
    assert("value"@.len() == 5 && "value"@[0] == 'v');
    assert("set"@.len() == 3);
    assert("<a>"@[0] == '<' && "<r>"@[0] == '<' && "<res>"@[0] == '<');
    assert("->"@[0] == '-' && "->2"@[0] == '-' && "->3"@[0] == '-');
}

/// A result block assigns what its first child computes to the result
/// variable `_res_`.
pub proof fn law_result_assigns_res(
    st: CompilerSpec,
    g: Seq<NodeSpec>,
    idx: int,
    my_out: Option<Seq<char>>,
    fuel: nat,
    b: BlkSpec,
    st1: CompilerSpec,
)
    requires
        0 <= idx < g.len(),
        g[idx].typ == "<res>"@,
        g[idx].nodes.len() > 0,
        fuel > 0,
        var_lookup(st.vars, idout_key(g[idx].id, match my_out { Some(o) => o, None => Seq::empty() })) is None,
        trans_spec(st, g, g[idx].nodes[0].2 as int, nonempty_opt(g[idx].nodes[0].1), (fuel - 1) as nat) == (
        Ok::<BlkSpec, ErrSpec>(b), st1),
    ensures
        trans_spec(st, g, idx, my_out, fuel) == (Ok::<BlkSpec, ErrSpec>(BlkSpec::Assign { var: "_res_"@, expr: Box::new(b) }), st1),
{
    reveal_strlit("<res>");
    reveal_strlit("<a>");
    reveal_strlit("<r>");
    reveal_strlit("->");
    reveal_strlit("->2");
    reveal_strlit("->3");
    assert("->2"@.len() == 3 && "->3"@.len() == 3);
    assert("<res>"@.len() == 5);
    assert("<a>"@.len() == 3 && "<r>"@.len() == 3);
    assert("->"@[0] == '-');
}

/// A forwarding block `->` is what its first child computes.
pub proof fn law_arrow_forwards(
    st: CompilerSpec,
    g: Seq<NodeSpec>,
    idx: int,
    my_out: Option<Seq<char>>,
    fuel: nat,
    b: BlkSpec,
    st1: CompilerSpec,
)
    requires
        0 <= idx < g.len(),
        g[idx].typ == "->"@,
        g[idx].nodes.len() > 0,
        fuel > 0,
        var_lookup(st.vars, idout_key(g[idx].id, match my_out { Some(o) => o, None => Seq::empty() })) is None,
        trans_spec(st, g, g[idx].nodes[0].2 as int, nonempty_opt(g[idx].nodes[0].1), (fuel - 1) as nat) == (
        Ok::<BlkSpec, ErrSpec>(b), st1),
    ensures
        trans_spec(st, g, idx, my_out, fuel) == (Ok::<BlkSpec, ErrSpec>(b), st1),
{
    reveal_strlit("set");
    reveal_strlit("<a>");
    reveal_strlit("<r>");
    reveal_strlit("->");
    reveal_strlit("<res>");
    reveal_strlit("->2");
    reveal_strlit("->3");
    reveal_strlit("value");
    reveal_strlit("get");
    assert("set"@.len() == 3 && "set"@[0] == 's' && "get"@.len() == 3 && "get"@[0] == 'g');
    assert("<a>"@.len() == 3 && "<a>"@[0] == '<' && "<a>"@[1] == 'a');
    assert("<r>"@.len() == 3 && "<r>"@[0] == '<' && "<r>"@[1] == 'r');
    assert("<res>"@.len() == 5 && "value"@.len() == 5 && "value"@[0] == 'v' && "<res>"@[0] == '<');
    assert("->"@.len() == 2 && "->2"@.len() == 3 && "->3"@.len() == 3 && "->2"@[0] == '-' && "->3"@[0] == '-');
}

/// The root runs what the main area computes, then reads the result
/// variable `_res_`.
pub proof fn law_root_reads_res(
    st: CompilerSpec,
    g: Seq<NodeSpec>,
    idx: int,
    my_out: Option<Seq<char>>,
    fuel: nat,
    b: BlkSpec,
    st1: CompilerSpec,
)
    requires
        0 <= idx < g.len(),
        g[idx].typ == "<r>"@,
        g[idx].nodes.len() > 0,
        fuel > 0,
        var_lookup(st.vars, idout_key(g[idx].id, match my_out { Some(o) => o, None => Seq::empty() })) is None,
        trans_spec(st, g, g[idx].nodes[0].2 as int, nonempty_opt(g[idx].nodes[0].1), (fuel - 1) as nat) == (
        Ok::<BlkSpec, ErrSpec>(b), st1),
    ensures
        trans_spec(st, g, idx, my_out, fuel) == (Ok::<BlkSpec, ErrSpec>(BlkSpec::Area { childs: seq![b, BlkSpec::Get { id: 0, var: "_res_"@ }] }), st1),
{
    reveal_strlit("set");
    reveal_strlit("<a>");
    reveal_strlit("<r>");
    reveal_strlit("->");
    reveal_strlit("<res>");
    reveal_strlit("->2");
    reveal_strlit("->3");
    reveal_strlit("value");
    reveal_strlit("get");
    assert("set"@.len() == 3 && "set"@[0] == 's' && "get"@.len() == 3 && "get"@[0] == 'g');
    assert("<a>"@.len() == 3 && "<a>"@[0] == '<' && "<a>"@[1] == 'a');
    assert("<r>"@.len() == 3 && "<r>"@[0] == '<' && "<r>"@[1] == 'r');
    assert("<res>"@.len() == 5 && "value"@.len() == 5 && "value"@[0] == 'v' && "<res>"@[0] == '<');
    assert("->"@.len() == 2 && "->2"@.len() == 3 && "->3"@.len() == 3 && "->2"@[0] == '-' && "->3"@[0] == '-');
}

/// A `get` block reads the variable named by its label.
pub proof fn law_get_reads_label(st: CompilerSpec, g: Seq<NodeSpec>, idx: int, my_out: Option<Seq<char>>, fuel: nat)
    requires
        0 <= idx < g.len(),
        g[idx].typ == "get"@,
        fuel > 0,
        var_lookup(st.vars, idout_key(g[idx].id, match my_out { Some(o) => o, None => Seq::empty() })) is None,
    ensures
        trans_spec(st, g, idx, my_out, fuel) == (Ok::<BlkSpec, ErrSpec>(BlkSpec::Get { id: g[idx].id, var: g[idx].lbl }), st),
{
    reveal_strlit("set");
    reveal_strlit("<a>");
    reveal_strlit("<r>");
    reveal_strlit("->");
    reveal_strlit("<res>");
    reveal_strlit("->2");
    reveal_strlit("->3");
    reveal_strlit("value");
    reveal_strlit("get");
    assert("set"@.len() == 3 && "set"@[0] == 's' && "get"@.len() == 3 && "get"@[0] == 'g');
    assert("<a>"@.len() == 3 && "<a>"@[0] == '<' && "<a>"@[1] == 'a');
    assert("<r>"@.len() == 3 && "<r>"@[0] == '<' && "<r>"@[1] == 'r');
    assert("<res>"@.len() == 5 && "value"@.len() == 5 && "value"@[0] == 'v' && "<res>"@[0] == '<');
    assert("->"@.len() == 2 && "->2"@.len() == 3 && "->3"@.len() == 3 && "->2"@[0] == '-' && "->3"@[0] == '-');
}

} // verus!
