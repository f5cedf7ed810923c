//! The back end of the block compiler: statements to a program tree of the
//! DSP JIT language.

use vstd::prelude::*;
use crate::block_compiler::{
    blk_arg_view, blk_list_view, blk_view, err_view, opt_view, str_eq, trans_spec, BlkASTNode, BlkJITCompileError,
    BlkSpec, Block2JITCompiler, CompilerSpec, ErrSpec, LangView, NodeSpec,
};
use crate::blocklang::{lang_type, ports_view, tree_nodes_ok, tree_ok, BlockFun, FunSpec};

verus! {

/// The arithmetic operators of the JIT language.
#[derive(Debug, Clone, Copy, PartialEq, Eq, Structural)]
pub enum JitOp {
    Add,
    Mul,
    Sub,
    Div,
}

/// A program tree of the DSP JIT language. A literal keeps the text of its
/// number.
#[derive(Debug)]
pub enum JitAst {
    Stmts(Vec<JitAst>),
    Assign(String, Box<JitAst>),
    Var(String),
    Literal(String),
    BinOp(JitOp, Box<JitAst>, Box<JitAst>),
    Call(String, u64, Vec<JitAst>),
}

/// What a JIT program tree is, as the contracts speak of it.
pub ghost enum JitSpec {
    Stmts(Seq<JitSpec>),
    Assign(Seq<char>, Box<JitSpec>),
    Var(Seq<char>),
    Literal(Seq<char>),
    BinOp(JitOp, Box<JitSpec>, Box<JitSpec>),
    Call(Seq<char>, u64, Seq<JitSpec>),
}

/// The model of a JIT program tree.
pub open spec fn jit_view(a: JitAst) -> JitSpec
    decreases a,
{
    match a {
        JitAst::Stmts(v) => JitSpec::Stmts(jit_list_view(v@, v@.len() as int)),
        JitAst::Assign(n, e) => JitSpec::Assign(n@, Box::new(jit_view(*e))),
        JitAst::Var(n) => JitSpec::Var(n@),
        JitAst::Literal(t) => JitSpec::Literal(t@),
        JitAst::BinOp(op, a, b) => JitSpec::BinOp(op, Box::new(jit_view(*a)), Box::new(jit_view(*b))),
        JitAst::Call(n, id, v) => JitSpec::Call(n@, id, jit_list_view(v@, v@.len() as int)),
    }
}

/// The models of the first `k` trees of a list.
pub open spec fn jit_list_view(v: Seq<JitAst>, k: int) -> Seq<JitSpec>
    decreases v, k,
{
    if k <= 0 || k > v.len() {
        Seq::empty()
    } else {
        jit_list_view(v, k - 1).push(jit_view(v[k - 1]))
    }
}

/// The models of all trees of a list.
pub open spec fn jit_all(v: Seq<JitAst>) -> Seq<JitSpec> {
    jit_list_view(v, v.len() as int)
}

/// The model of a back end result.
pub open spec fn jit_res_view(r: Result<JitAst, BlkJITCompileError>) -> Result<JitSpec, ErrSpec> {
    match r {
        Ok(a) => Ok(jit_view(a)),
        Err(e) => Err(err_view(e)),
    }
}

/// The text that `{:?}` gives for an optional port name.
pub uninterp spec fn debug_text(o: Option<Seq<char>>) -> Seq<char>;

/// Formats an optional port name with `{:?}`, as std's `Debug` for
/// `Option<String>` does; the contract names the text and claims only that it
/// depends on the name alone.
#[verifier::external_body]
fn debug_opt(o: &Option<String>) -> (r: String)
    ensures
        r@ == debug_text(opt_view(*o)),
{
    format!("{:?}", o)
}

/// The operator a type name stands for, if any.
pub open spec fn op_of(typ: Seq<char>) -> Option<JitOp> {
    if typ == "+"@ {
        Some(JitOp::Add)
    } else if typ == "*"@ {
        Some(JitOp::Mul)
    } else if typ == "-"@ {
        Some(JitOp::Sub)
    } else if typ == "/"@ {
        Some(JitOp::Div)
    } else {
        None
    }
}

/// The first argument at or after `j` that feeds input `name`.
pub open spec fn first_feed(cs: Seq<(Option<Seq<char>>, BlkSpec)>, name: Option<Seq<char>>, j: int) -> Option<int>
    decreases cs.len() - j,
{
    if j < 0 || j >= cs.len() {
        None
    } else if cs[j].0 == name {
        Some(j)
    } else {
        first_feed(cs, name, j + 1)
    }
}

/// The first feeding argument is in range and feeds the input; without one,
/// no argument at or after `j` feeds it.
pub proof fn lemma_first_feed_range(cs: Seq<(Option<Seq<char>>, BlkSpec)>, name: Option<Seq<char>>, j: int)
    ensures
        first_feed(cs, name, j) matches Some(k) ==> 0 <= j <= k < cs.len() && cs[k].0 == name,
        first_feed(cs, name, j) is None ==> forall|k: int| 0 <= j <= k < cs.len() ==> cs[k].0 != name,
    decreases cs.len() - j,
{
    if 0 <= j < cs.len() && cs[j].0 != name {
        lemma_first_feed_range(cs, name, j + 1);
    }
}

/// The translation of a statement tree into a JIT program tree.
pub open spec fn jit_spec(l: LangView, b: BlkSpec) -> Result<JitSpec, ErrSpec>
    decreases b,
{
    match b {
        BlkSpec::Area { childs } => match jit_list(l, childs, childs.len() as int) {
            Ok(s) => Ok(JitSpec::Stmts(s)),
            Err(e) => Err(e),
        },
        BlkSpec::Assign { var, expr } => match jit_spec(l, *expr) {
            Ok(e) => Ok(JitSpec::Assign(var, Box::new(e))),
            Err(e) => Err(e),
        },
        BlkSpec::Get { var, .. } => Ok(JitSpec::Var(var)),
        BlkSpec::Literal { value } => Ok(JitSpec::Literal(value)),
        BlkSpec::Node { id, typ, childs, .. } => if typ == "if"@ {
            Err(ErrSpec::UnknownError)
        } else if typ == "zero"@ {
            Ok(JitSpec::Literal("0.0"@))
        } else if id == 0 {
            Err(ErrSpec::NodeWithoutID(typ))
        } else {
            match lang_type(l, typ) {
                None => Err(ErrSpec::UnknownType(typ)),
                Some(t) => {
                    let inputs = t.inputs;
                    let args = if childs.len() > inputs.len() {
                        Err(ErrSpec::TooManyInputs(typ, id))
                    } else if inputs.len() > 0 && inputs[0] == Some(Seq::<char>::empty()) {
                        if inputs.len() != childs.len() {
                            Err(ErrSpec::WrongNumberOfChilds(typ, id, childs.len() as usize))
                        } else {
                            jit_args(l, childs, childs.len() as int)
                        }
                    } else {
                        jit_named(l, typ, id, inputs, childs, inputs.len() as int)
                    };
                    match args {
                        Err(e) => Err(e),
                        Ok(a) => jit_call(typ, id, a),
                    }
                },
            }
        },
    }
}

/// The call of a block with translated arguments: an operator with exactly
/// two operands, or a call of the type's function.
pub open spec fn jit_call(typ: Seq<char>, id: usize, a: Seq<JitSpec>) -> Result<JitSpec, ErrSpec> {
    match op_of(typ) {
        Some(op) => if a.len() != 2 {
            Err(ErrSpec::WrongNumberOfChilds(typ, id, a.len() as usize))
        } else {
            Ok(JitSpec::BinOp(op, Box::new(a[0]), Box::new(a[1])))
        },
        None => Ok(JitSpec::Call(typ, id as u64, a)),
    }
}

/// The translations of the first `k` statements, stopping at the first error.
pub open spec fn jit_list(l: LangView, cs: Seq<BlkSpec>, k: int) -> Result<Seq<JitSpec>, ErrSpec>
    decreases cs, k,
{
    if k <= 0 || k > cs.len() {
        Ok(Seq::empty())
    } else {
        match jit_list(l, cs, k - 1) {
            Err(e) => Err(e),
            Ok(s) => match jit_spec(l, cs[k - 1]) {
                Err(e) => Err(e),
                Ok(x) => Ok(s.push(x)),
            },
        }
    }
}

/// The translations of the first `k` arguments in their order.
pub open spec fn jit_args(l: LangView, cs: Seq<(Option<Seq<char>>, BlkSpec)>, k: int) -> Result<Seq<JitSpec>, ErrSpec>
    decreases cs, k,
{
    if k <= 0 || k > cs.len() {
        Ok(Seq::empty())
    } else {
        match jit_args(l, cs, k - 1) {
            Err(e) => Err(e),
            Ok(s) => match jit_spec(l, cs[k - 1].1) {
                Err(e) => Err(e),
                Ok(x) => Ok(s.push(x)),
            },
        }
    }
}

/// The translations of the arguments feeding the first `k` inputs, in the
/// order of the inputs; an input that no argument feeds is an error.
pub open spec fn jit_named(
    l: LangView,
    typ: Seq<char>,
    id: usize,
    inputs: Seq<Option<Seq<char>>>,
    cs: Seq<(Option<Seq<char>>, BlkSpec)>,
    k: int,
) -> Result<Seq<JitSpec>, ErrSpec>
    decreases cs, k,
{
    if k <= 0 || k > inputs.len() {
        Ok(Seq::empty())
    } else {
        match jit_named(l, typ, id, inputs, cs, k - 1) {
            Err(e) => Err(e),
            Ok(s) => match first_feed(cs, inputs[k - 1], 0) {
                None => Err(ErrSpec::UnassignedInput(typ, id, debug_text(inputs[k - 1]))),
                Some(j) => {
                    proof {
                        lemma_first_feed_range(cs, inputs[k - 1], 0);
                    }
                    match jit_spec(l, cs[j].1) {
                        Err(e) => Err(e),
                        Ok(x) => Ok(s.push(x)),
                    }
                },
            },
        }
    }
}

/// The models of a statement list, one by one.
proof fn lemma_blk_list_index(v: Seq<BlkASTNode>, k: int)
    requires
        0 <= k <= v.len(),
    ensures
        blk_list_view(v, k).len() == k,
        forall|i: int| 0 <= i < k ==> blk_list_view(v, k)[i] == blk_view(v[i]),
    decreases k,
{
    if k > 0 {
        lemma_blk_list_index(v, k - 1);
    }
}

/// The models of an argument list, one by one.
proof fn lemma_blk_arg_index(v: Seq<(Option<String>, BlkASTNode)>, k: int)
    requires
        0 <= k <= v.len(),
    ensures
        blk_arg_view(v, k).len() == k,
        forall|i: int|
            0 <= i < k ==> blk_arg_view(v, k)[i] == (opt_view(v[i].0), blk_view(v[i].1)),
    decreases k,
{
    if k > 0 {
        lemma_blk_arg_index(v, k - 1);
    }
}

/// A longer list keeps the models of its prefix.
proof fn lemma_jit_list_push(v: Seq<JitAst>, x: JitAst, k: int)
    requires
        0 <= k <= v.len(),
    ensures
        jit_list_view(v.push(x), k) == jit_list_view(v, k),
    decreases k,
{
    if k > 0 {
        lemma_jit_list_push(v, x, k - 1);
        assert(v.push(x)[k - 1] == v[k - 1]);
    }
}

/// The models of a JIT tree list, one by one.
proof fn lemma_jit_list_index(v: Seq<JitAst>, k: int)
    requires
        0 <= k <= v.len(),
    ensures
        jit_list_view(v, k).len() == k,
        forall|i: int| 0 <= i < k ==> jit_list_view(v, k)[i] == jit_view(v[i]),
    decreases k,
{
    if k > 0 {
        lemma_jit_list_index(v, k - 1);
    }
}

/// Once a statement fails, the list translation keeps that failure.
proof fn lemma_jit_list_err(l: LangView, cs: Seq<BlkSpec>, k: int, m: int)
    requires
        0 <= k <= m <= cs.len(),
        jit_list(l, cs, k) is Err,
    ensures
        jit_list(l, cs, m) == jit_list(l, cs, k),
    decreases m - k,
{
    if k < m {
        lemma_jit_list_err(l, cs, k, m - 1);
    }
}

/// Once an argument fails, the argument translation keeps that failure.
proof fn lemma_jit_args_err(l: LangView, cs: Seq<(Option<Seq<char>>, BlkSpec)>, k: int, m: int)
    requires
        0 <= k <= m <= cs.len(),
        jit_args(l, cs, k) is Err,
    ensures
        jit_args(l, cs, m) == jit_args(l, cs, k),
    decreases m - k,
{
    if k < m {
        lemma_jit_args_err(l, cs, k, m - 1);
    }
}

/// Once an input fails, the named translation keeps that failure.
proof fn lemma_jit_named_err(
    l: LangView,
    typ: Seq<char>,
    id: usize,
    inputs: Seq<Option<Seq<char>>>,
    cs: Seq<(Option<Seq<char>>, BlkSpec)>,
    k: int,
    m: int,
)
    requires
        0 <= k <= m <= inputs.len(),
        jit_named(l, typ, id, inputs, cs, k) is Err,
    ensures
        jit_named(l, typ, id, inputs, cs, m) == jit_named(l, typ, id, inputs, cs, k),
    decreases m - k,
{
    if k < m {
        lemma_jit_named_err(l, typ, id, inputs, cs, k, m - 1);
    }
}

/// Whether two optional port names are equal.
fn opt_str_eq(a: &Option<String>, b: &Option<String>) -> (r: bool)
    ensures
        r == (opt_view(*a) == opt_view(*b)),
{
    match (a, b) {
        (Some(x), Some(y)) => str_eq(x.as_str(), y.as_str()),
        (None, None) => true,
        _ => false,
    }
}

/// The operator a type name stands for, if any.
fn type_op(typ: &str) -> (r: Option<JitOp>)
    ensures
        r == op_of(typ@),
{
    if str_eq(typ, "+") {
        Some(JitOp::Add)
    } else if str_eq(typ, "*") {
        Some(JitOp::Mul)
    } else if str_eq(typ, "-") {
        Some(JitOp::Sub)
    } else if str_eq(typ, "/") {
        Some(JitOp::Div)
    } else {
        None
    }
}

impl Block2JITCompiler {
    /// Translates statements into a JIT program tree.
    pub fn bjit2jit(&self, ast: &BlkASTNode) -> (r: Result<JitAst, BlkJITCompileError>)
        requires
            self.wf(),
        ensures
            jit_res_view(r) == jit_spec(self@.lang, blk_view(*ast)),
        decreases ast,
    {
        match ast {
            BlkASTNode::Area { childs } => {
                let ghost l = self@.lang;
                let ghost cs = blk_list_view(childs@, childs@.len() as int);
                proof {
                    lemma_blk_list_index(childs@, childs@.len() as int);
                }
                let mut stmt: Vec<JitAst> = Vec::new();
                let mut i: usize = 0;
                while i < childs.len()
                    invariant
                        i <= childs.len(),
                        self.wf(),
                        l == self@.lang,
                        *ast == (BlkASTNode::Area { childs: *childs }),
                        cs == blk_list_view(childs@, childs@.len() as int),
                        cs.len() == childs@.len(),
                        forall|j: int| 0 <= j < childs@.len() ==> cs[j] == blk_view(childs@[j]),
                        jit_list(l, cs, i as int) == Ok::<Seq<JitSpec>, ErrSpec>(jit_all(stmt@)),
                    decreases childs.len() - i,
                {
                    let x = match self.bjit2jit(&childs[i]) {
                        Ok(x) => x,
                        Err(e) => {
                            proof {
                                lemma_jit_list_err(l, cs, i + 1, cs.len() as int);
                            }
                            return Err(e);
                        },
                    };
                    let ghost before = stmt@;
                    stmt.push(x);
                    proof {
                        lemma_jit_list_push(before, x, before.len() as int);
                        assert(jit_all(stmt@) == jit_all(before).push(jit_view(x)));
                    }
                    i += 1;
                }
                Ok(JitAst::Stmts(stmt))
            },
            BlkASTNode::Assign { var, expr } => {
                let e = match self.bjit2jit(expr) {
                    Ok(e) => e,
                    Err(e) => {
                        return Err(e);
                    },
                };
                Ok(JitAst::Assign(var.clone(), Box::new(e)))
            },
            BlkASTNode::Get { var, .. } => Ok(JitAst::Var(var.clone())),
            BlkASTNode::Literal { value } => Ok(JitAst::Literal(value.clone())),
            BlkASTNode::Node { id, typ, childs, .. } => self.node2jit(*id, typ, childs),
        }
    }

    /// Translates a block node with its arguments.
    fn node2jit(&self, id: usize, typ: &String, childs: &Vec<(Option<String>, BlkASTNode)>) -> (r: Result<
        JitAst,
        BlkJITCompileError,
    >)
        requires
            self.wf(),
        ensures
            jit_res_view(r) == jit_spec(
                self@.lang,
                BlkSpec::Node {
                    id,
                    out: None,
                    typ: typ@,
                    lbl: Seq::empty(),
                    childs: blk_arg_view(childs@, childs@.len() as int),
                },
            ),
        decreases childs,
    {
        let ghost l = self@.lang;
        let ghost cs = blk_arg_view(childs@, childs@.len() as int);
        proof {
            lemma_blk_arg_index(childs@, childs@.len() as int);
        }
        if str_eq(typ.as_str(), "if") {
            return Err(BlkJITCompileError::UnknownError);
        }
        if str_eq(typ.as_str(), "zero") {
            return Ok(JitAst::Literal("0.0".to_owned()));
        }
        if id == 0 {
            return Err(BlkJITCompileError::NodeWithoutID(typ.clone()));
        }
        let inputs = match self.lang.get_type_inputs(typ.as_str()) {
            Some(inputs) => inputs,
            None => {
                return Err(BlkJITCompileError::UnknownType(typ.clone()));
            },
        };
        let ghost iv = ports_view(inputs@);
        let ghost full = jit_spec(
            l,
            BlkSpec::Node { id, out: None, typ: typ@, lbl: Seq::empty(), childs: cs },
        );
        if childs.len() > inputs.len() {
            return Err(BlkJITCompileError::TooManyInputs(typ.clone(), id));
        }
        let unnamed = inputs.len() > 0 && match &inputs[0] {
            Some(s) => s.unicode_len() == 0,
            None => false,
        };
        proof {
            if inputs@.len() > 0 {
                assert(iv[0] == opt_view(inputs@[0]));
                if let Some(s) = inputs@[0] {
                    if s@.len() == 0 {
                        assert(s@ =~= Seq::<char>::empty());
                    }
                }
            }
            assert(unnamed == (iv.len() > 0 && iv[0] == Some(Seq::<char>::empty())));
        }
        let mut args: Vec<JitAst> = Vec::new();
        if unnamed {
            if inputs.len() != childs.len() {
                return Err(BlkJITCompileError::WrongNumberOfChilds(typ.clone(), id, childs.len()));
            }
            proof {
                assert(full == match jit_args(l, cs, cs.len() as int) {
                    Err(e) => Err(e),
                    Ok(a) => jit_call(typ@, id, a),
                });
            }
            let mut i: usize = 0;
            while i < childs.len()
                invariant
                    i <= childs.len(),
                    self.wf(),
                    l == self@.lang,
                    full == jit_spec(l, BlkSpec::Node { id, out: None, typ: typ@, lbl: Seq::empty(), childs: cs }),
                    full == match jit_args(l, cs, cs.len() as int) {
                        Err(e) => Err(e),
                        Ok(a) => jit_call(typ@, id, a),
                    },
                    cs == blk_arg_view(childs@, childs@.len() as int),
                    cs.len() == childs@.len(),
                    forall|j: int|
                        0 <= j < childs@.len() ==> cs[j] == (opt_view(childs@[j].0), blk_view(childs@[j].1)),
                    jit_args(l, cs, i as int) == Ok::<Seq<JitSpec>, ErrSpec>(jit_all(args@)),
                decreases childs.len() - i,
            {
                let x = match self.bjit2jit(&childs[i].1) {
                    Ok(x) => x,
                    Err(e) => {
                        proof {
                            lemma_jit_args_err(l, cs, i + 1, cs.len() as int);
                        }
                        return Err(e);
                    },
                };
                let ghost before = args@;
                args.push(x);
                proof {
                    lemma_jit_list_push(before, x, before.len() as int);
                    assert(jit_all(args@) == jit_all(before).push(jit_view(x)));
                }
                i += 1;
            }
        } else {
            proof {
                assert(full == match jit_named(l, typ@, id, iv, cs, iv.len() as int) {
                    Err(e) => Err(e),
                    Ok(a) => jit_call(typ@, id, a),
                });
            }
            let mut k: usize = 0;
            while k < inputs.len()
                invariant
                    k <= inputs.len(),
                    self.wf(),
                    l == self@.lang,
                    full == jit_spec(l, BlkSpec::Node { id, out: None, typ: typ@, lbl: Seq::empty(), childs: cs }),
                    full == match jit_named(l, typ@, id, iv, cs, iv.len() as int) {
                        Err(e) => Err(e),
                        Ok(a) => jit_call(typ@, id, a),
                    },
                    iv == ports_view(inputs@),
                    cs == blk_arg_view(childs@, childs@.len() as int),
                    cs.len() == childs@.len(),
                    forall|j: int|
                        0 <= j < childs@.len() ==> cs[j] == (opt_view(childs@[j].0), blk_view(childs@[j].1)),
                    jit_named(l, typ@, id, iv, cs, k as int) == Ok::<Seq<JitSpec>, ErrSpec>(jit_all(args@)),
                decreases inputs.len() - k,
            {
                let ghost name = iv[k as int];
                proof {
                    assert(name == opt_view(inputs@[k as int]));
                }
                let mut j: usize = 0;
                while j < childs.len() && !opt_str_eq(&childs[j].0, &inputs[k])
                    invariant
                        j <= childs.len(),
                        k < inputs.len(),
                        name == opt_view(inputs@[k as int]),
                        cs.len() == childs@.len(),
                        forall|m: int|
                            0 <= m < childs@.len() ==> cs[m] == (opt_view(childs@[m].0), blk_view(childs@[m].1)),
                        first_feed(cs, name, 0) == first_feed(cs, name, j as int),
                    decreases childs.len() - j,
                {
                    j += 1;
                }
                if j == childs.len() {
                    proof {
                        assert(first_feed(cs, name, j as int) is None);
                        lemma_jit_named_err(l, typ@, id, iv, cs, k + 1, iv.len() as int);
                    }
                    return Err(BlkJITCompileError::UnassignedInput(typ.clone(), id, debug_opt(&inputs[k])));
                }
                proof {
                    assert(first_feed(cs, name, j as int) == Some(j as int));
                }
                let x = match self.bjit2jit(&childs[j].1) {
                    Ok(x) => x,
                    Err(e) => {
                        proof {
                            lemma_jit_named_err(l, typ@, id, iv, cs, k + 1, iv.len() as int);
                        }
                        return Err(e);
                    },
                };
                let ghost before = args@;
                args.push(x);
                proof {
                    lemma_jit_list_push(before, x, before.len() as int);
                    assert(jit_all(args@) == jit_all(before).push(jit_view(x)));
                }
                k += 1;
            }
        }
        let ghost av = jit_all(args@);
        proof {
            lemma_jit_list_index(args@, args@.len() as int);
        }
        match type_op(typ.as_str()) {
            Some(op) => {
                if args.len() != 2 {
                    return Err(BlkJITCompileError::WrongNumberOfChilds(typ.clone(), id, args.len()));
                }
                let b = args.pop().unwrap();
                let a = args.pop().unwrap();
                let r = JitAst::BinOp(op, Box::new(a), Box::new(b));
                proof {
                    assert(jit_view(r) == JitSpec::BinOp(op, Box::new(av[0]), Box::new(av[1])));
                }
                Ok(r)
            },
            None => Ok(JitAst::Call(typ.clone(), id as u64, args)),
        }
    }
}


/// What compiling the tree `g` gives, and the compiler state after it: the
/// statements of the tree, translated into a JIT program tree.
pub open spec fn compiled(st: CompilerSpec, g: Seq<NodeSpec>) -> (Result<JitSpec, ErrSpec>, CompilerSpec) {
    let (t, st1) = trans_spec(st, g, 0, None, g.len());
    (
        match t {
            Err(e) => Err(e),
            Ok(b) => jit_spec(st.lang, b),
        },
        st1,
    )
}

/// The trees that a block function generates with `zero` as its empty value:
/// the shape that `BlockFun::generate_tree` promises, block nodes with the
/// children it promises.
pub open spec fn zero_tree(f: FunSpec, g: Seq<NodeSpec>) -> bool {
    &&& tree_ok(f, g, 0, lang_type(f.lang, "zero"@)->0.name)
    &&& tree_nodes_ok(f, g, lang_type(f.lang, "zero"@)->0.name)
}

impl Block2JITCompiler {
    /// Compiles a block function: its tree, generated with `zero` as the
    /// empty value, translated into statements and those into a JIT program
    /// tree.
    pub fn compile(&mut self, fun: &BlockFun) -> (r: Result<JitAst, BlkJITCompileError>)
        requires
            old(self).wf(),
            fun.wf(),
            lang_type(fun@.lang, "zero"@) is Some,
        ensures
            final(self).wf(),
            exists|g: Seq<NodeSpec>|
                #[trigger] zero_tree(fun@, g) && (jit_res_view(r), final(self)@) == compiled(old(self)@, g),
    {
        let tree = match fun.generate_tree("zero") {
            Ok(t) => t,
            Err(_) => {
                proof {
                    assert(false);
                }
                return Err(BlkJITCompileError::UnknownError);
            },
        };
        let ghost g = tree@.nodes;
        let blkast = match self.trans2bjit(&tree, None) {
            Ok(b) => b,
            Err(e) => {
                proof {
                    assert(zero_tree(fun@, g));
                }
                return Err(e);
            },
        };
        let r = self.bjit2jit(&blkast);
        proof {
            assert(zero_tree(fun@, g));
            assert(compiled(old(self)@, g).0 == jit_res_view(r));
        }
        r
    }
}

/// An operator block whose two inputs take their arguments in order
/// computes that operator on the translations of its first and its second
/// argument: `+` adds, `-` subtracts the second from the first, `*`
/// multiplies and `/` divides the first by the second.
pub proof fn law_operator_blocks(
    l: LangView,
    id: usize,
    out: Option<Seq<char>>,
    typ: Seq<char>,
    lbl: Seq<char>,
    n0: Option<Seq<char>>,
    n1: Option<Seq<char>>,
    a: BlkSpec,
    b: BlkSpec,
    x: JitSpec,
    y: JitSpec,
)
    requires
        id != 0,
        lang_type(l, typ) matches Some(t) && t.inputs.len() == 2 && t.inputs[0] == Some(Seq::<char>::empty()),
        jit_spec(l, a) == Ok::<JitSpec, ErrSpec>(x),
        jit_spec(l, b) == Ok::<JitSpec, ErrSpec>(y),
    ensures
        ({
            let r = jit_spec(l, BlkSpec::Node { id, out, typ, lbl, childs: seq![(n0, a), (n1, b)] });
            &&& typ == "+"@ ==> r == Ok::<JitSpec, ErrSpec>(JitSpec::BinOp(JitOp::Add, Box::new(x), Box::new(y)))
            &&& typ == "-"@ ==> r == Ok::<JitSpec, ErrSpec>(JitSpec::BinOp(JitOp::Sub, Box::new(x), Box::new(y)))
            &&& typ == "*"@ ==> r == Ok::<JitSpec, ErrSpec>(JitSpec::BinOp(JitOp::Mul, Box::new(x), Box::new(y)))
            &&& typ == "/"@ ==> r == Ok::<JitSpec, ErrSpec>(JitSpec::BinOp(JitOp::Div, Box::new(x), Box::new(y)))
        }),
{
    reveal_strlit("+");
    reveal_strlit("-");
    reveal_strlit("*");
    reveal_strlit("/");
    reveal_strlit("if");
    reveal_strlit("zero");
    assert("+"@.len() == 1 && "+"@[0] == '+');
    assert("-"@.len() == 1 && "-"@[0] == '-');
    assert("*"@.len() == 1 && "*"@[0] == '*');
    assert("/"@.len() == 1 && "/"@[0] == '/');
    assert("if"@.len() == 2);
    assert("zero"@.len() == 4);
    let cs = seq![(n0, a), (n1, b)];
    assert(cs[0].1 == a && cs[1].1 == b);
    assert(jit_args(l, cs, 0) == Ok::<Seq<JitSpec>, ErrSpec>(Seq::empty()));
    assert(jit_args(l, cs, 1) == Ok::<Seq<JitSpec>, ErrSpec>(Seq::<JitSpec>::empty().push(x)));
    assert(jit_args(l, cs, 2) == Ok::<Seq<JitSpec>, ErrSpec>(Seq::<JitSpec>::empty().push(x).push(y)));
    let args = Seq::<JitSpec>::empty().push(x).push(y);
    assert(args.len() == 2 && args[0] == x && args[1] == y);
}

/// The statements of a list translate one by one, in order.
proof fn lemma_jit_list_all(l: LangView, cs: Seq<BlkSpec>, xs: Seq<JitSpec>, k: int)
    requires
        0 <= k <= cs.len(),
        xs.len() == cs.len(),
        forall|i: int| 0 <= i < cs.len() ==> jit_spec(l, #[trigger] cs[i]) == Ok::<JitSpec, ErrSpec>(xs[i]),
    ensures
        jit_list(l, cs, k) == Ok::<Seq<JitSpec>, ErrSpec>(xs.take(k)),
    decreases k,
{
    if k > 0 {
        lemma_jit_list_all(l, cs, xs, k - 1);
        assert(jit_spec(l, cs[k - 1]) == Ok::<JitSpec, ErrSpec>(xs[k - 1]));
        assert(xs.take(k - 1).push(xs[k - 1]) =~= xs.take(k));
    } else {
        assert(xs.take(0) =~= Seq::<JitSpec>::empty());
    }
}

/// Statements keep their meaning in the program tree: a read of a variable
/// reads it, a literal stays that literal, an assignment assigns the
/// translation of its expression to the same variable, and a list of
/// statements becomes the list of their translations in the same order.
pub proof fn law_jit_statements(l: LangView, id: usize, var: Seq<char>, value: Seq<char>, e: BlkSpec, x: JitSpec, cs: Seq<BlkSpec>, xs: Seq<JitSpec>)
    ensures
        jit_spec(l, BlkSpec::Get { id, var }) == Ok::<JitSpec, ErrSpec>(JitSpec::Var(var)),
        jit_spec(l, BlkSpec::Literal { value }) == Ok::<JitSpec, ErrSpec>(JitSpec::Literal(value)),
        jit_spec(l, e) == Ok::<JitSpec, ErrSpec>(x) ==> jit_spec(l, BlkSpec::Assign { var, expr: Box::new(e) }) == Ok::<
            JitSpec,
            ErrSpec,
        >(JitSpec::Assign(var, Box::new(x))),
        xs.len() == cs.len() && (forall|i: int| 0 <= i < cs.len() ==> jit_spec(l, #[trigger] cs[i]) == Ok::<JitSpec, ErrSpec>(xs[i]))
            ==> jit_spec(l, BlkSpec::Area { childs: cs }) == Ok::<JitSpec, ErrSpec>(JitSpec::Stmts(xs)),
{
    if xs.len() == cs.len() && (forall|i: int| 0 <= i < cs.len() ==> jit_spec(l, #[trigger] cs[i]) == Ok::<JitSpec, ErrSpec>(xs[i])) {
        lemma_jit_list_all(l, cs, xs, cs.len() as int);
        assert(xs.take(cs.len() as int) =~= xs);
    }
}

} // verus!
