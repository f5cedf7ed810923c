use std::rc::Rc;

use hexodsp::block_compiler::number::is_literal;
use hexodsp::block_compiler::{BlkASTNode, BlkJITCompileError, Block2JITCompiler};
use hexodsp::blocklang::BlockLanguage;

#[test]
fn tmpvar_names_count_up() {
    let mut c = Block2JITCompiler::new(Rc::new(BlockLanguage::new()));
    assert_eq!(c.next_tmpvar_name("x"), "_tmp1_x_");
    assert_eq!(c.next_tmpvar_name(""), "_tmp2__");
}

#[test]
fn idout_vars_read_back() {
    let mut c = Block2JITCompiler::new(Rc::new(BlockLanguage::new()));
    assert_eq!(c.get_var_for_idout(3, "out"), None);
    c.store_idout_var(3, "out", "v1");
    assert_eq!(c.get_var_for_idout(3, "out"), Some("v1"));
    assert_eq!(c.get_var_for_idout(3, "o"), None);
    assert_eq!(c.get_var_for_idout(31, "out"), None);
    c.store_idout_var(3, "out", "v2");
    assert_eq!(c.get_var_for_idout(3, "out"), Some("v2"));
}

#[test]
fn tmpvar_names_are_distinct() {
    let mut c = Block2JITCompiler::new(Rc::new(BlockLanguage::new()));
    let mut seen = std::collections::HashSet::new();
    for _ in 0..120 {
        assert!(seen.insert(c.next_tmpvar_name("v")));
    }
    assert!(seen.contains("_tmp100_v_"));
}

#[test]
fn idout_vars_of_other_outputs_stay() {
    let mut c = Block2JITCompiler::new(Rc::new(BlockLanguage::new()));
    c.store_idout_var(1, "1/a", "first");
    c.store_idout_var(11, "a", "second");
    c.store_idout_var(1, "b", "third");
    assert_eq!(c.get_var_for_idout(1, "1/a"), Some("first"));
    assert_eq!(c.get_var_for_idout(11, "a"), Some("second"));
    assert_eq!(c.get_var_for_idout(1, "b"), Some("third"));
}

#[test]
fn literals_read_as_numbers() {
    for ok in ["1", "1.5", "-0.3", "+2.", ".5", "1e5", "1.5E-3", "inf", "-Infinity", "NaN", "007"] {
        assert!(is_literal(ok), "{}", ok);
        assert_eq!(ok.parse::<f64>().is_ok(), true);
    }
    for bad in ["", ".", "-", "1.2.3", "e5", "1e", "1e+", " 1", "1 ", "abc", "infinit", "0x10", "1_0"] {
        assert!(!is_literal(bad), "{}", bad);
        assert_eq!(bad.parse::<f64>().is_ok(), false, "{}", bad);
    }
    assert!(matches!(BlkASTNode::new_literal("0.25"), Ok(BlkASTNode::Literal { value }) if value == "0.25"));
    assert!(matches!(BlkASTNode::new_literal("x"), Err(BlkJITCompileError::BadLiteralNumber(t)) if t == "x"));
}
