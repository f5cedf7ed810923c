use std::rc::Rc;

use hexodsp::blocklang::{
    BlockCodeView, BlockDSPError, BlockFun, BlockIDGenerator, BlockLanguage, BlockType, BlockUserInput, BlockView,
};

fn ports(names: &[Option<&str>]) -> Vec<Option<String>> {
    names.iter().map(|p| p.map(|s| s.to_string())).collect()
}

fn typ(
    name: &str,
    rows: usize,
    inputs: &[Option<&str>],
    outputs: &[Option<&str>],
    area_count: usize,
    user_input: BlockUserInput,
) -> BlockType {
    BlockType {
        category: "test".to_string(),
        name: name.to_string(),
        rows,
        inputs: ports(inputs),
        outputs: ports(outputs),
        area_count,
        user_input,
        description: format!("the {} block", name),
        color: 1,
    }
}

fn test_language() -> Rc<BlockLanguage> {
    let mut lang = BlockLanguage::new();
    lang.define(typ("value", 1, &[None], &[Some("")], 0, BlockUserInput::Float));
    lang.define(typ("+", 2, &[Some("a"), Some("b")], &[Some(""), None], 0, BlockUserInput::NoInput));
    lang.define(typ("->", 1, &[Some("")], &[Some("")], 0, BlockUserInput::NoInput));
    lang.define(typ("zero", 1, &[], &[Some("")], 0, BlockUserInput::NoInput));
    lang.define(typ("if", 1, &[Some("")], &[Some("")], 2, BlockUserInput::NoInput));
    lang.define(typ("out2", 2, &[], &[Some("x"), Some("y")], 0, BlockUserInput::NoInput));
    Rc::new(lang)
}

fn label_of(b: &dyn BlockView) -> String {
    let mut buf = [0u8; 64];
    let n = b.label(&mut buf);
    String::from_utf8(buf[..n].to_vec()).unwrap()
}

#[test]
fn id_generator_counts_up() {
    let mut g = BlockIDGenerator::new();
    assert_eq!(g.current(), 0);
    assert_eq!(g.next(), 1);
    assert_eq!(g.next(), 2);
    assert_eq!(g.current(), 2);
    let mut h = BlockIDGenerator::new_with_id(41);
    assert_eq!(h.next(), 42);
    let mut w = BlockIDGenerator::new_with_id(usize::MAX);
    assert_eq!(w.next(), 0);
}

#[test]
fn new_fun_is_unset() {
    let fun = BlockFun::new(test_language());
    assert!(fun.is_unset());
    assert_eq!(fun.area_size(0), (16, 16));
    assert_eq!(fun.area_size(1), (0, 0));
    assert!(fun.block_at(0, 0, 0).is_none());
}

#[test]
fn instanciate_and_read_back() {
    let mut fun = BlockFun::new(test_language());
    assert!(fun.instanciate_at(0, 1, 1, "value", Some("0.3".to_string())).is_ok());
    assert!(!fun.is_unset());
    let b = fun.block_at(0, 1, 1).expect("block at its origin");
    assert_eq!(b.id(), 1);
    assert_eq!(label_of(b), "0.3");
    assert_eq!(fun.origin_at(0, 1, 1), Some((1, 1)));
    assert_eq!(fun.origin_at(0, 1, 2), None);
    assert!(fun.block_ref(0, 1, 1).is_some());
}

#[test]
fn instanciate_errors() {
    let mut fun = BlockFun::new(test_language());
    assert!(matches!(
        fun.instanciate_at(0, 0, 0, "nothing", None),
        Err(BlockDSPError::UnknownLanguageType(s)) if s == "nothing"
    ));
    assert!(matches!(fun.instanciate_at(3, 0, 0, "value", None), Err(BlockDSPError::UnknownArea(3))));
    fun.instanciate_at(0, 0, 0, "+", None).unwrap();
    assert!(matches!(
        fun.instanciate_at(0, 0, 1, "value", None),
        Err(BlockDSPError::NoSpaceAvailable(0, 0, 1, 1))
    ));
}

#[test]
fn multi_row_block_occupies_its_cells() {
    let mut fun = BlockFun::new(test_language());
    fun.instanciate_at(0, 2, 3, "+", None).unwrap();
    assert_eq!(fun.origin_at(0, 2, 3), Some((2, 3)));
    assert_eq!(fun.origin_at(0, 2, 4), Some((2, 3)));
    assert_eq!(fun.origin_at(0, 2, 5), None);
    assert!(fun.block_at(0, 2, 4).is_none());
    let b = fun.block_ref(0, 2, 4).unwrap();
    assert_eq!(b.rows(), 2);
    assert!(b.has_input(0));
    assert!(b.has_input(1));
    assert!(b.has_output(0));
    assert!(!b.has_output(1));
}

#[test]
fn remove_block() {
    let mut fun = BlockFun::new(test_language());
    fun.instanciate_at(0, 1, 1, "value", None).unwrap();
    assert!(matches!(fun.remove_at(0, 5, 5), Err(BlockDSPError::NoBlockAt(0, 5, 5))));
    assert!(matches!(fun.remove_at(4, 1, 1), Err(BlockDSPError::UnknownArea(4))));
    assert!(fun.remove_at(0, 1, 1).is_ok());
    assert!(fun.block_at(0, 1, 1).is_none());
}

#[test]
fn sub_areas_are_created_and_sized() {
    let mut fun = BlockFun::new(test_language());
    fun.instanciate_at(0, 0, 0, "if", None).unwrap();
    let b = fun.block_at(0, 0, 0).unwrap();
    assert_eq!(b.contains(0), Some(1));
    assert_eq!(b.contains(1), Some(2));
    assert_eq!(fun.area_size(1), (1, 1));
    assert_eq!(fun.area_size(2), (1, 1));
    assert!(fun.area_is_subarea_of(1, 0, 0, 0));
    assert!(fun.area_is_subarea_of(2, 0, 0, 0));
    assert!(!fun.area_is_subarea_of(0, 0, 0, 0));
    let mut v = vec![];
    let block = fun.block_ref(0, 0, 0).unwrap();
    fun.all_sub_areas_of(block, &mut v);
    assert_eq!(v, vec![1, 2]);
    fun.recalculate_area_sizes();
    assert_eq!(fun.area_size(0), (16, 16));
    assert_eq!(fun.area_size(1), (1, 1));
}

#[test]
fn area_sizes_grow_with_blocks() {
    let mut fun = BlockFun::new(test_language());
    fun.instanciate_at(0, 20, 30, "value", None).unwrap();
    fun.recalculate_area_sizes();
    assert_eq!(fun.area_size(0), (21, 31));
}

#[test]
fn move_single_block() {
    let mut fun = BlockFun::new(test_language());
    fun.instanciate_at(0, 1, 0, "+", None).unwrap();
    // grabbed at the second row, dropped at (4, 4): the block starts at (4, 3)
    assert!(fun.move_block_from_to(0, 1, 1, 0, 4, 4).is_ok());
    assert!(fun.block_at(0, 1, 0).is_none());
    assert!(fun.block_at(0, 4, 3).is_some());
    assert!(matches!(fun.move_block_from_to(0, 9, 9, 0, 4, 4), Err(BlockDSPError::NoBlockAt(0, 9, 9))));
}

#[test]
fn move_block_without_space_goes_back() {
    let mut fun = BlockFun::new(test_language());
    fun.instanciate_at(0, 0, 0, "value", None).unwrap();
    fun.instanciate_at(0, 3, 3, "value", None).unwrap();
    assert!(matches!(
        fun.move_block_from_to(0, 0, 0, 0, 3, 3),
        Err(BlockDSPError::NoSpaceAvailable(0, 3, 3, 1))
    ));
    assert!(fun.block_at(0, 0, 0).is_some());
}

#[test]
fn move_block_into_own_sub_area_is_circular() {
    let mut fun = BlockFun::new(test_language());
    fun.instanciate_at(0, 0, 0, "if", None).unwrap();
    assert!(matches!(fun.move_block_from_to(0, 0, 0, 1, 0, 0), Err(BlockDSPError::CircularAction(0, 1))));
}

#[test]
fn clone_block_gets_new_id_and_areas() {
    let mut fun = BlockFun::new(test_language());
    fun.instanciate_at(0, 0, 0, "if", None).unwrap();
    assert!(fun.clone_block_from_to(0, 0, 0, 0, 5, 5).is_ok());
    let b = fun.block_at(0, 5, 5).unwrap();
    assert_eq!(b.id(), 2);
    assert_eq!(b.contains(0), Some(3));
    assert_eq!(b.contains(1), Some(4));
    assert!(matches!(
        fun.clone_block_from_to(0, 0, 0, 0, 5, 5),
        Err(BlockDSPError::NoSpaceAvailable(0, 5, 5, 1))
    ));
}

#[test]
fn shift_input_port() {
    let mut fun = BlockFun::new(test_language());
    fun.instanciate_at(0, 0, 0, "+", None).unwrap();
    fun.shift_port(0, 0, 0, 0, false);
    let b = fun.block_at(0, 0, 0).unwrap();
    let mut buf = [0u8; 8];
    let n = b.input_label(0, &mut buf);
    assert_eq!(&buf[..n], b"b");
    let n = b.input_label(1, &mut buf);
    assert_eq!(&buf[..n], b"a");
}

fn connected_pair(fun: &mut BlockFun) {
    fun.instanciate_at(0, 0, 0, "value", Some("1".to_string())).unwrap();
    fun.instanciate_at(0, 1, 0, "+", None).unwrap();
}

#[test]
fn generate_tree_of_one_value() {
    let mut fun = BlockFun::new(test_language());
    fun.instanciate_at(0, 0, 1, "value", Some("0.3".to_string())).unwrap();
    let tree = fun.generate_tree("zero").unwrap();
    assert_eq!(
        tree.walk_dump("", "", 0),
        "   0#<r>[] \n      0#<a>[] \n         0#<res>[] \n            1#value[0.3] \n"
    );
}

#[test]
fn generate_tree_fills_unconnected_inputs() {
    let mut fun = BlockFun::new(test_language());
    connected_pair(&mut fun);
    let tree = fun.generate_tree("zero").unwrap();
    assert_eq!(
        tree.walk_dump("", "", 0),
        "   0#<r>[] \n      0#<a>[] \n         0#<res>[] \n            2#+[+] \n               1#value[1] (in: a)\n               0#zero[] (in: b)\n"
    );
    let area = tree.first_child_ref().unwrap();
    let (inp, out, res) = area.first_child().unwrap();
    assert_eq!(inp, "");
    assert_eq!(out, "");
    let (_, _, plus) = res.nth_child(0).unwrap();
    let (a_in, _, _) = plus.nth_child(0).unwrap();
    assert_eq!(a_in, "a");
    assert!(plus.nth_child(2).is_none());
}

#[test]
fn generate_tree_needs_known_null_type() {
    let fun = BlockFun::new(test_language());
    assert!(matches!(
        fun.generate_tree("nope"),
        Err(BlockDSPError::UnknownLanguageType(s)) if s == "nope"
    ));
}

#[test]
fn retrieve_chain_by_cloning_and_removing() {
    let mut fun = BlockFun::new(test_language());
    connected_pair(&mut fun);
    assert!(fun.retrieve_block_chain_at(0, 5, 5, false).is_none());
    let chain = fun.retrieve_block_chain_at(0, 1, 1, false).unwrap();
    drop(chain);
    assert!(fun.block_at(0, 0, 0).is_some());
    let chain = fun.retrieve_block_chain_at(0, 1, 1, true).unwrap();
    drop(chain);
    assert!(fun.block_at(0, 0, 0).is_none());
    assert!(fun.block_at(0, 1, 0).is_none());
}

#[test]
fn move_chain_within_area() {
    let mut fun = BlockFun::new(test_language());
    connected_pair(&mut fun);
    let g = fun.generation();
    assert!(fun.move_block_chain_from_to(0, 1, 0, 0, 3, 2).is_ok());
    assert_eq!(fun.generation(), g + 2);
    assert!(fun.block_at(0, 0, 0).is_none());
    assert!(fun.block_at(0, 1, 0).is_none());
    assert_eq!(fun.block_at(0, 2, 2).unwrap().id(), 1);
    assert_eq!(fun.block_at(0, 3, 2).unwrap().id(), 2);
}

#[test]
fn move_chain_into_sub_area() {
    let mut fun = BlockFun::new(test_language());
    connected_pair(&mut fun);
    fun.instanciate_at(0, 5, 5, "if", None).unwrap();
    assert!(fun.move_block_chain_from_to(0, 0, 0, 1, 0, 0).is_ok());
    assert!(fun.block_at(0, 0, 0).is_none());
    assert_eq!(fun.block_at(1, 0, 0).unwrap().id(), 1);
    assert_eq!(fun.block_at(1, 1, 0).unwrap().id(), 2);
    assert!(matches!(fun.move_block_chain_from_to(0, 5, 5, 1, 0, 0), Err(BlockDSPError::CircularAction(0, 1))));
}

#[test]
fn split_chain_with_filler() {
    let mut fun = BlockFun::new(test_language());
    fun.instanciate_at(0, 0, 0, "value", None).unwrap();
    fun.instanciate_at(0, 0, 1, "value", None).unwrap();
    fun.instanciate_at(0, 1, 0, "+", None).unwrap();
    assert!(fun.split_block_chain_after(0, 0, 0, Some("->")).is_ok());
    assert_eq!(fun.block_at(0, 2, 0).unwrap().id(), 3);
    let filler = fun.block_at(0, 1, 1).unwrap();
    assert_eq!(filler.id(), 4);
    assert_eq!(label_of(filler), "->");
    assert!(fun.block_at(0, 1, 0).is_none());
    assert!(matches!(
        fun.split_block_chain_after(0, 0, 0, Some("nope")),
        Err(BlockDSPError::UnknownLanguageType(s)) if s == "nope"
    ));
}

#[test]
fn snapshot_round_trip() {
    let mut fun = BlockFun::new(test_language());
    fun.instanciate_at(0, 1, 1, "value", None).unwrap();
    let snap = fun.save_snapshot();
    fun.remove_at(0, 1, 1).unwrap();
    assert!(fun.block_at(0, 1, 1).is_none());
    fun.load_snapshot(&snap);
    assert_eq!(fun.block_at(0, 1, 1).unwrap().id(), 1);
}

#[test]
fn language_lookups() {
    let lang = test_language();
    assert_eq!(lang.get_output_name_at_index("+", 0), Some("".to_string()));
    assert_eq!(lang.get_output_name_at_index("+", 1), None);
    assert_eq!(lang.get_output_name_at_index("out2", 1), Some("y".to_string()));
    assert_eq!(lang.type_output_count("out2"), 2);
    assert_eq!(lang.type_output_count("nope"), 0);
    assert_eq!(lang.get_type_inputs("+").unwrap().len(), 2);
    assert!(lang.get_type_outputs("nope").is_none());
    assert_eq!(lang.get_type_list().len(), 6);
}

#[test]
fn identifiers_are_listed_sorted() {
    let mut lang = BlockLanguage::new();
    lang.define_identifier("beta");
    lang.define_identifier("alpha");
    lang.define_identifier("gamma");
    lang.define_identifier("alpha");
    assert!(lang.is_identifier("beta"));
    assert!(!lang.is_identifier("delta"));
    assert_eq!(lang.list_identifiers(), vec!["alpha".to_string(), "beta".to_string(), "gamma".to_string()]);
}

#[test]
fn redefining_a_type_replaces_it() {
    let mut lang = BlockLanguage::new();
    lang.define(typ("t", 1, &[], &[Some("o")], 0, BlockUserInput::NoInput));
    lang.define(typ("t", 1, &[], &[Some("p"), Some("q")], 0, BlockUserInput::NoInput));
    assert_eq!(lang.get_type_list().len(), 1);
    assert_eq!(lang.type_output_count("t"), 2);
}

#[test]
fn user_input_kinds() {
    assert!(!BlockUserInput::NoInput.needs_input());
    assert!(BlockUserInput::Float.needs_input());
    assert!(BlockUserInput::Identifier.needs_input());
    assert_eq!(BlockUserInput::default(), BlockUserInput::NoInput);
}

#[test]
fn unconnected_output_is_found() {
    let mut fun = BlockFun::new(test_language());
    connected_pair(&mut fun);
    let chain = fun.retrieve_block_chain_at(0, 0, 0, false).unwrap();
    drop(chain);
    let snap = fun.save_snapshot();
    drop(snap);
    let lang = fun.block_language();
    assert!(lang.get_type_inputs("value").is_some());
}

#[test]
fn moving_a_block_onto_its_own_cell_keeps_it() {
    let mut fun = BlockFun::new(test_language());
    fun.instanciate_at(0, 2, 2, "+", None).unwrap();
    assert!(fun.move_block_from_to(0, 2, 3, 0, 2, 3).is_ok());
    let b = fun.block_at(0, 2, 2).unwrap();
    assert_eq!(b.id(), 1);
    assert_eq!(fun.origin_at(0, 2, 3), Some((2, 2)));
}

#[test]
fn block_ref_mut_changes_the_block_in_place() {
    let mut fun = BlockFun::new(test_language());
    fun.instanciate_at(0, 1, 1, "+", None).unwrap();
    assert!(fun.block_ref_mut(0, 5, 5).is_none());
    assert!(fun.block_ref_mut(7, 1, 1).is_none());
    let b = fun.block_ref_mut(0, 1, 2).unwrap();
    assert_eq!(b.id(), 1);
    b.shift_port(0, false);
    let v = fun.block_at(0, 1, 1).unwrap();
    let mut buf = [0u8; 8];
    let n = v.input_label(0, &mut buf);
    assert_eq!(&buf[..n], b"b");
}

#[test]
fn generate_tree_hangs_sub_areas_below_their_block() {
    let mut fun = BlockFun::new(test_language());
    fun.instanciate_at(0, 0, 0, "if", None).unwrap();
    fun.instanciate_at(1, 0, 0, "value", Some("5".to_string())).unwrap();
    let dump = fun.generate_tree("zero").unwrap().walk_dump("", "", 0);
    assert_eq!(dump.matches("#<a>[]").count(), 3);
    let at_if = dump.find("#if[").unwrap();
    let first_area = dump.find("#<a>[]").unwrap();
    assert!(first_area < at_if);
    assert_eq!(dump[at_if..].matches("#<a>[]").count(), 2);
    assert!(dump[at_if..].contains("#value[5]"));
}

#[test]
fn sub_areas_come_breadth_first() {
    let mut fun = BlockFun::new(test_language());
    fun.instanciate_at(0, 0, 0, "if", None).unwrap();
    fun.instanciate_at(2, 0, 0, "if", None).unwrap();
    fun.instanciate_at(1, 0, 0, "if", None).unwrap();
    let mut v = vec![];
    let block = fun.block_ref(0, 0, 0).unwrap();
    fun.all_sub_areas_of(block, &mut v);
    assert_eq!(v, vec![1, 2, 5, 6, 3, 4]);
}

#[test]
fn generate_tree_orders_inputs_by_row() {
    let mut fun = BlockFun::new(test_language());
    fun.instanciate_at(0, 0, 0, "value", Some("1".to_string())).unwrap();
    fun.instanciate_at(0, 0, 1, "value", Some("2".to_string())).unwrap();
    fun.instanciate_at(0, 1, 0, "+", None).unwrap();
    let tree = fun.generate_tree("zero").unwrap();
    assert_eq!(
        tree.walk_dump("", "", 0),
        "   0#<r>[] \n      0#<a>[] \n         0#<res>[] \n            3#+[+] \n               1#value[1] (in: a)\n               2#value[2] (in: b)\n"
    );
}

#[test]
fn blocks_go_far_from_the_origin() {
    let mut fun = BlockFun::new(test_language());
    let far: i64 = (1 << 60) + 1;
    fun.instanciate_at(0, far, -far, "value", None).unwrap();
    assert!(fun.block_at(0, far, -far).is_some());
    fun.move_block_from_to(0, far, -far, 0, -far, far).unwrap();
    assert!(fun.block_at(0, -far, far).is_some());
}

#[test]
fn listed_identifiers_are_distinct() {
    let mut lang = BlockLanguage::new();
    lang.define_identifier("b");
    lang.define_identifier("a");
    lang.define_identifier("b");
    assert_eq!(lang.list_identifiers(), vec!["a".to_string(), "b".to_string()]);
}

#[test]
fn blocks_go_to_the_last_rows() {
    let mut fun = BlockFun::new(test_language());
    fun.instanciate_at(0, 5, i64::MAX, "value", None).unwrap();
    fun.instanciate_at(0, 5, i64::MIN, "+", None).unwrap();
    assert!(fun.block_at(0, 5, i64::MAX).is_some());
    assert!(fun.block_at(0, 5, i64::MIN).is_some());
    assert!(fun.origin_at(0, 5, i64::MIN + 1) == Some((5, i64::MIN)));
}
