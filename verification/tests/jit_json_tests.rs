use std::rc::Rc;

use hexodsp::block_compiler::{BlkASTNode, BlkJITCompileError, Block2JITCompiler, JitAst, JitOp};
use hexodsp::blocklang::{Block, BlockArea, BlockFun, BlockFunSnapshot, BlockLanguage, BlockType, BlockUserInput, BlockView};
use hexodsp::dsp::helpers::SplitMix64;
use hexodsp::dsp::{get_rand_node_id, pick_rand_node_ids, rand_node_satisfies_spec, NodeId, RandNodeSelector, UICategory};
use hexodsp::json::JsonValue;

fn ports(names: &[Option<&str>]) -> Vec<Option<String>> {
    names.iter().map(|p| p.map(|s| s.to_string())).collect()
}

fn typ(name: &str, rows: usize, inputs: &[Option<&str>], outputs: &[Option<&str>], color: usize) -> BlockType {
    BlockType {
        category: "test".to_string(),
        name: name.to_string(),
        rows,
        inputs: ports(inputs),
        outputs: ports(outputs),
        area_count: 0,
        user_input: if name == "value" { BlockUserInput::Float } else { BlockUserInput::NoInput },
        description: format!("the {} block", name),
        color,
    }
}

fn jit_language() -> Rc<BlockLanguage> {
    let mut lang = BlockLanguage::new();
    lang.define(typ("value", 1, &[None], &[Some("")], 1));
    lang.define(typ("+", 2, &[Some(""), Some("")], &[Some("")], 4));
    lang.define(typ("add", 2, &[Some("a"), Some("b")], &[Some("")], 4));
    lang.define(typ("sin", 1, &[Some("")], &[Some("")], 4));
    lang.define(typ("zero", 1, &[], &[Some("")], 1));
    lang.define(typ("if", 1, &[Some("")], &[Some("")], 2));
    Rc::new(lang)
}

fn to_serde(v: &JsonValue) -> serde_json::Value {
    match v {
        JsonValue::Null => serde_json::Value::Null,
        JsonValue::Bool(b) => serde_json::Value::Bool(*b),
        JsonValue::Int(n) => {
            if *n < 0 {
                serde_json::Value::from(*n as i64)
            } else {
                serde_json::Value::from(*n as u64)
            }
        }
        JsonValue::Float(t) => serde_json::from_str(t).unwrap(),
        JsonValue::Str(s) => serde_json::Value::String(s.clone()),
        JsonValue::Array(a) => serde_json::Value::Array(a.iter().map(to_serde).collect()),
        JsonValue::Object(m) => {
            let mut map = serde_json::Map::new();
            for (k, x) in m.iter() {
                map.insert(k.clone(), to_serde(x));
            }
            serde_json::Value::Object(map)
        }
    }
}

fn from_serde(v: &serde_json::Value) -> JsonValue {
    match v {
        serde_json::Value::Null => JsonValue::Null,
        serde_json::Value::Bool(b) => JsonValue::Bool(*b),
        serde_json::Value::Number(n) => {
            if let Some(i) = n.as_i64() {
                JsonValue::Int(i as i128)
            } else if let Some(u) = n.as_u64() {
                JsonValue::Int(u as i128)
            } else {
                JsonValue::Float(n.to_string())
            }
        }
        serde_json::Value::String(s) => JsonValue::Str(s.clone()),
        serde_json::Value::Array(a) => JsonValue::Array(a.iter().map(from_serde).collect()),
        serde_json::Value::Object(m) => {
            JsonValue::Object(m.iter().map(|(k, x)| (k.clone(), from_serde(x))).collect())
        }
    }
}

#[test]
fn compile_one_value() {
    let mut fun = BlockFun::new(jit_language());
    fun.instanciate_at(0, 0, 1, "value", Some("0.3".to_string())).unwrap();
    let mut c = Block2JITCompiler::new(fun.block_language());
    let ast = c.compile(&fun).expect("compiles");
    assert_eq!(format!("{:?}", ast), "Stmts([Stmts([Assign(\"_res_\", Literal(\"0.3\"))]), Var(\"_res_\")])");
}

#[test]
fn compile_addition_with_zero_filled_input() {
    let mut fun = BlockFun::new(jit_language());
    fun.instanciate_at(0, 0, 0, "value", Some("1".to_string())).unwrap();
    fun.instanciate_at(0, 1, 0, "add", None).unwrap();
    let mut c = Block2JITCompiler::new(fun.block_language());
    let ast = c.compile(&fun).expect("compiles");
    assert_eq!(
        format!("{:?}", ast),
        "Stmts([Stmts([Assign(\"_res_\", Call(\"add\", 2, [Literal(\"1\"), Literal(\"0.0\")]))]), Var(\"_res_\")])"
    );
}

#[test]
fn compile_operator_block() {
    let mut fun = BlockFun::new(jit_language());
    fun.instanciate_at(0, 0, 0, "value", Some("2".to_string())).unwrap();
    fun.instanciate_at(0, 0, 1, "value", Some("3".to_string())).unwrap();
    fun.instanciate_at(0, 1, 0, "+", None).unwrap();
    let mut c = Block2JITCompiler::new(fun.block_language());
    let ast = c.compile(&fun).expect("compiles");
    match ast {
        JitAst::Stmts(v) => match &v[0] {
            JitAst::Stmts(w) => match &w[0] {
                JitAst::Assign(n, e) => {
                    assert_eq!(n, "_res_");
                    match &**e {
                        JitAst::BinOp(op, a, b) => {
                            assert_eq!(*op, JitOp::Add);
                            assert_eq!(format!("{:?}", a), "Literal(\"2\")");
                            assert_eq!(format!("{:?}", b), "Literal(\"3\")");
                        }
                        other => panic!("not an operator: {:?}", other),
                    }
                }
                other => panic!("not an assignment: {:?}", other),
            },
            other => panic!("not a statement list: {:?}", other),
        },
        other => panic!("not a statement list: {:?}", other),
    }
}

fn lit(t: &str) -> BlkASTNode {
    BlkASTNode::Literal { value: t.to_string() }
}

#[test]
fn dump_statement_tree() {
    let node = BlkASTNode::new_node(3, Some("o".to_string()), "+", "plus", vec![(Some("a".to_string()), lit("1"))]);
    let tree = BlkASTNode::new_area(vec![BlkASTNode::new_set("x", node), BlkASTNode::new_get(0, "x")]);
    assert_eq!(
        tree.dump(0, None),
        "   <= Area\n      <= set 'x'=\n         <= +[plus] (id=3/o)\n            a<= 1\n      <= get 'x' (id=0)\n"
    );
    let same = BlkASTNode::new_node(7, None, "sin", "sin", vec![]);
    assert_eq!(same.dump(1, Some("in")), "      in<= sin (id=7)\n");
}

#[test]
fn bjit2jit_errors() {
    let c = Block2JITCompiler::new(jit_language());
    let n = |id: usize, t: &str, childs: Vec<(Option<String>, BlkASTNode)>| BlkASTNode::new_node(id, None, t, t, childs);
    assert!(matches!(c.bjit2jit(&n(1, "if", vec![])), Err(BlkJITCompileError::UnknownError)));
    assert!(matches!(c.bjit2jit(&n(0, "sin", vec![])), Err(BlkJITCompileError::NodeWithoutID(t)) if t == "sin"));
    assert!(matches!(c.bjit2jit(&n(1, "nope", vec![])), Err(BlkJITCompileError::UnknownType(t)) if t == "nope"));
    assert!(matches!(
        c.bjit2jit(&n(4, "sin", vec![(None, lit("1")), (None, lit("2"))])),
        Err(BlkJITCompileError::TooManyInputs(t, 4)) if t == "sin"
    ));
    assert!(matches!(
        c.bjit2jit(&n(5, "+", vec![(None, lit("1"))])),
        Err(BlkJITCompileError::WrongNumberOfChilds(t, 5, 1)) if t == "+"
    ));
    assert!(matches!(
        c.bjit2jit(&n(6, "add", vec![(Some("a".to_string()), lit("1"))])),
        Err(BlkJITCompileError::UnassignedInput(t, 6, i)) if t == "add" && i == "Some(\"b\")"
    ));
    let ok = c.bjit2jit(&n(8, "add", vec![(Some("b".to_string()), lit("2")), (Some("a".to_string()), lit("1"))]));
    assert_eq!(format!("{:?}", ok.unwrap()), "Call(\"add\", 8, [Literal(\"1\"), Literal(\"2\")])");
    let zero = c.bjit2jit(&n(0, "zero", vec![]));
    assert_eq!(format!("{:?}", zero.unwrap()), "Literal(\"0.0\")");
}

#[test]
fn check_blockfun_serialize_empty() {
    let fun = BlockFun::new(jit_language());
    let sn = fun.save_snapshot();
    let serialized = to_serde(&sn.serialize()).to_string();
    assert_eq!(
        serialized,
        "{\"VERSION\":1,\"areas\":[{\"auto_shrink\":false,\"blocks\":[],\"header\":\"\",\"size\":[16,16]}],\"current_block_id_counter\":0}"
    );
    let v: serde_json::Value = serde_json::from_str(&serialized).unwrap();
    let sn = BlockFunSnapshot::deserialize(&from_serde(&v)).expect("No deserialization error");
    let mut bf2 = BlockFun::new(jit_language());
    bf2.load_snapshot(&sn);
    assert!(bf2.block_at(0, 0, 0).is_none());
}

#[test]
fn check_blockfun_serialize_1() {
    let mut bf = BlockFun::new(jit_language());
    bf.instanciate_at(0, 0, 0, "+", None).unwrap();
    let sn = bf.save_snapshot();
    let serialized = to_serde(&sn.serialize()).to_string();
    assert_eq!(serialized,
        "{\"VERSION\":1,\"areas\":[{\"auto_shrink\":false,\"blocks\":[{\"block\":{\"color\":4,\"contains\":[null,null],\"expanded\":true,\"id\":1,\"inputs\":[\"\",\"\"],\"lbl\":\"+\",\"outputs\":[\"\"],\"rows\":2,\"typ\":\"+\"},\"x\":0,\"y\":0}],\"header\":\"\",\"size\":[16,16]}],\"current_block_id_counter\":1}");
    let v: serde_json::Value = serde_json::from_str(&serialized).unwrap();
    let sn = BlockFunSnapshot::deserialize(&from_serde(&v)).expect("No deserialization error");
    let mut bf2 = BlockFun::new(jit_language());
    bf2.load_snapshot(&sn);
    let bv = bf2.block_at(0, 0, 0).unwrap();
    assert!(bv.has_input(0));
}

#[test]
fn block_json_defaults_and_round_trip() {
    let empty = Block::deserialize(&JsonValue::Null).unwrap();
    let v = to_serde(&empty.serialize()).to_string();
    assert_eq!(
        v,
        "{\"color\":0,\"contains\":[null,null],\"expanded\":true,\"id\":0,\"inputs\":[],\"lbl\":\"?\",\"outputs\":[],\"rows\":0,\"typ\":\"?\"}"
    );
    let text = "{\"color\":3,\"contains\":[5,\"x\"],\"expanded\":false,\"id\":9,\"inputs\":[\"a\",null,7],\"lbl\":\"L\",\"outputs\":[\"\"],\"rows\":3,\"typ\":\"T\"}";
    let b = Block::deserialize(&from_serde(&serde_json::from_str(text).unwrap())).unwrap();
    assert_eq!(
        to_serde(&b.serialize()).to_string(),
        "{\"color\":3,\"contains\":[5,null],\"expanded\":false,\"id\":9,\"inputs\":[\"a\",null,null],\"lbl\":\"L\",\"outputs\":[\"\"],\"rows\":3,\"typ\":\"T\"}"
    );
}

#[test]
fn area_json_later_block_replaces_same_origin() {
    let text = "{\"blocks\":[{\"block\":{\"id\":1,\"rows\":1},\"x\":2,\"y\":3},{\"block\":{\"id\":2,\"rows\":1},\"x\":2,\"y\":3}],\"size\":[4,5]}";
    let a = BlockArea::deserialize(&from_serde(&serde_json::from_str(text).unwrap())).unwrap();
    assert_eq!(
        to_serde(&a.serialize()).to_string(),
        "{\"auto_shrink\":true,\"blocks\":[{\"block\":{\"color\":0,\"contains\":[null,null],\"expanded\":true,\"id\":2,\"inputs\":[],\"lbl\":\"?\",\"outputs\":[],\"rows\":1,\"typ\":\"?\"},\"x\":2,\"y\":3}],\"header\":\"\",\"size\":[4,5]}"
    );
}

#[test]
fn json_lookups() {
    let v = from_serde(&serde_json::from_str("{\"a\":[1,true,\"s\",1.5],\"b\":-3}").unwrap());
    let a = v.get("a").unwrap();
    assert_eq!(a.at(0).unwrap().as_i64(), Some(1));
    assert_eq!(a.at(1).unwrap().as_bool(), Some(true));
    assert_eq!(a.at(2).unwrap().as_str(), Some("s"));
    assert_eq!(a.at(3).unwrap().as_i64(), None);
    assert!(a.at(4).is_none());
    assert_eq!(v.get("b").unwrap().as_i64(), Some(-3));
    assert!(v.get("c").is_none());
    assert_eq!(JsonValue::Int(i64::MAX as i128 + 1).as_i64(), None);
}

#[test]
fn category_node_lists() {
    assert_eq!(
        UICategory::Osc.get_node_ids(0),
        vec![NodeId::Sampl(0), NodeId::Sin(0), NodeId::BOsc(0), NodeId::VOsc(0), NodeId::BowStri(0), NodeId::Noise(0)]
    );
    assert_eq!(UICategory::Osc.get_node_ids(4), vec![NodeId::BowStri(0), NodeId::Noise(0)]);
    assert_eq!(UICategory::NtoM.get_node_ids(0), vec![NodeId::Mix3(0), NodeId::Mux9(0)]);
    assert!(UICategory::NtoM.get_node_ids(5).is_empty());
    assert!(UICategory::Uncategorized.get_node_ids(0).is_empty());
}

#[test]
fn random_node_picks() {
    assert!(!rand_node_satisfies_spec(NodeId::Nop, RandNodeSelector::Any));
    assert!(rand_node_satisfies_spec(NodeId::Out(0), RandNodeSelector::Any));
    assert!(!rand_node_satisfies_spec(NodeId::Out(0), RandNodeSelector::OnlyUseful));
    assert!(!rand_node_satisfies_spec(NodeId::FbRd(1), RandNodeSelector::OnlyUseful));
    assert!(!rand_node_satisfies_spec(NodeId::Test(0), RandNodeSelector::OnlyUseful));
    assert!(rand_node_satisfies_spec(NodeId::Sin(2), RandNodeSelector::OnlyUseful));

    let picked = get_rand_node_id(7, RandNodeSelector::OnlyUseful);
    assert_eq!(picked.len(), 7);
    for n in picked.iter() {
        assert!(rand_node_satisfies_spec(*n, RandNodeSelector::OnlyUseful) || *n == NodeId::Nop);
    }
    let mut a = SplitMix64::new(42);
    let mut b = SplitMix64::new(42);
    let pa = pick_rand_node_ids(&mut a, 5, RandNodeSelector::Any);
    assert_eq!(pa, pick_rand_node_ids(&mut b, 5, RandNodeSelector::Any));
    assert!(pa.iter().all(|n| *n != NodeId::Nop));
    assert_eq!(get_rand_node_id(0, RandNodeSelector::Any), vec![]);
}

#[test]
fn node_instances() {
    assert_eq!(NodeId::Sin(3).instance(), 3);
    assert_eq!(NodeId::Nop.instance(), 0);
    assert_eq!(NodeId::Amp(0).to_instance(5), NodeId::Amp(5));
    assert_eq!(NodeId::Sin(1).to_instance(258), NodeId::Sin(2));
    assert_eq!(NodeId::Nop.to_instance(5), NodeId::Nop);
    assert_eq!(NodeId::TSeq(1).ui_category(), UICategory::Mod);
}

#[test]
fn snapshot_json_round_trip_keeps_the_text() {
    let mut bf = BlockFun::new(jit_language());
    bf.instanciate_at(0, 0, 0, "value", Some("0.5".to_string())).unwrap();
    bf.instanciate_at(0, 1, 0, "add", None).unwrap();
    bf.instanciate_at(0, 3, 4, "sin", None).unwrap();
    let text = to_serde(&bf.save_snapshot().serialize()).to_string();
    let v: serde_json::Value = serde_json::from_str(&text).unwrap();
    let sn = BlockFunSnapshot::deserialize(&from_serde(&v)).unwrap();
    assert_eq!(to_serde(&sn.serialize()).to_string(), text);
    let mut bf2 = BlockFun::new(jit_language());
    bf2.load_snapshot(&sn);
    assert_eq!(bf2.block_at(0, 1, 0).unwrap().id(), 2);
    assert_eq!(bf2.block_at(0, 3, 4).unwrap().id(), 3);
}

#[test]
fn node_names_and_labels() {
    assert_eq!(NodeId::from_str("sin"), NodeId::Sin(0));
    assert_eq!(NodeId::from_str("map"), NodeId::MapRange(0));
    assert_eq!(NodeId::from_str("goertzel"), NodeId::Gz3Filt(0));
    assert_eq!(NodeId::from_str("nop"), NodeId::Nop);
    assert_eq!(NodeId::from_str("nothing"), NodeId::Nop);
    assert_eq!(NodeId::Sin(3).name(), "sin");
    assert_eq!(NodeId::MapRange(0).name(), "map");
    assert_eq!(NodeId::MapRange(0).label(), "Map");
    assert_eq!(NodeId::Gz3Filt(1).label(), "Gz3Filt");
    assert_eq!(NodeId::Nop.label(), "Nop");
    for n in hexodsp::dsp::node_id::all_node_ids() {
        assert_eq!(NodeId::from_str(n.name()), n);
    }
}

#[test]
fn node_variants_compare_without_instance() {
    assert!(NodeId::Sin(0).eq_variant(&NodeId::Sin(7)));
    assert!(!NodeId::Sin(0).eq_variant(&NodeId::BOsc(0)));
    assert!(NodeId::Nop.eq_variant(&NodeId::Nop));
    assert!(!NodeId::Nop.eq_variant(&NodeId::Amp(0)));
}

#[test]
fn deserialized_snapshots_are_checked_before_loading() {
    let mut bf = BlockFun::new(jit_language());
    bf.instanciate_at(0, 0, 0, "+", None).unwrap();
    assert!(bf.save_snapshot().is_loadable());
    let good = "{\"VERSION\":1,\"areas\":[{\"auto_shrink\":false,\"blocks\":[{\"block\":{\"color\":4,\"contains\":[null,null],\"expanded\":true,\"id\":1,\"inputs\":[\"\",\"\"],\"lbl\":\"+\",\"outputs\":[\"\"],\"rows\":2,\"typ\":\"+\"},\"x\":0,\"y\":0}],\"header\":\"\",\"size\":[16,16]}],\"current_block_id_counter\":1}";
    let v: serde_json::Value = serde_json::from_str(good).unwrap();
    assert!(BlockFunSnapshot::deserialize(&from_serde(&v)).unwrap().is_loadable());
    let overlapping = "{\"VERSION\":1,\"areas\":[{\"auto_shrink\":false,\"blocks\":[{\"block\":{\"id\":1,\"rows\":2,\"typ\":\"+\"},\"x\":0,\"y\":0},{\"block\":{\"id\":2,\"rows\":1,\"typ\":\"+\"},\"x\":0,\"y\":1}],\"header\":\"\",\"size\":[16,16]}],\"current_block_id_counter\":2}";
    let v: serde_json::Value = serde_json::from_str(overlapping).unwrap();
    assert!(!BlockFunSnapshot::deserialize(&from_serde(&v)).unwrap().is_loadable());
    let dangling = "{\"VERSION\":1,\"areas\":[{\"auto_shrink\":false,\"blocks\":[{\"block\":{\"id\":1,\"rows\":1,\"typ\":\"if\",\"contains\":[3,null]},\"x\":0,\"y\":0}],\"header\":\"\",\"size\":[16,16]}],\"current_block_id_counter\":1}";
    let v: serde_json::Value = serde_json::from_str(dangling).unwrap();
    assert!(!BlockFunSnapshot::deserialize(&from_serde(&v)).unwrap().is_loadable());
    let no_areas = "{\"VERSION\":1,\"areas\":[],\"current_block_id_counter\":0}";
    let v: serde_json::Value = serde_json::from_str(no_areas).unwrap();
    assert!(!BlockFunSnapshot::deserialize(&from_serde(&v)).unwrap().is_loadable());
}

#[test]
fn compile_refuses_values_that_are_no_numbers() {
    let mut fun = BlockFun::new(jit_language());
    fun.instanciate_at(0, 0, 1, "value", Some("0.3x".to_string())).unwrap();
    let mut c = Block2JITCompiler::new(fun.block_language());
    assert!(matches!(c.compile(&fun), Err(BlkJITCompileError::BadLiteralNumber(t)) if t == "0.3x"));
}
