//! Snapshots as JSON: blocks, areas and the whole snapshot written to and
//! read from JSON values. Reading never fails: a missing or mistyped member
//! reads as its default.

use vstd::prelude::*;
use crate::blocklang::{
    insert_all, insert_placed, origin_index, origins_distinct, placed_view, ports_view, AreaSpec, Block, BlockArea,
    BlockFunSnapshot, BlockSpec, PlacedSpec, SnapSpec,
};
use crate::json::{
    json_all, json_at, json_list_view, json_bool, json_elems, json_get, json_i64, json_members, json_str, json_view,
    lemma_json_list_index, lemma_json_list_push, lemma_json_members_index, get_bool_or, get_i64_or, get_str_or,
    JsonSpec, JsonValue,
};

verus! {

/// The error type of the snapshot readers; they never return it.
#[verifier::external_type_specification]
#[verifier::external_body]
pub struct ExJsonError(serde_json::Error);

/// A port label as JSON: its text, or null for an absent port.
pub open spec fn port_json(p: Option<Seq<char>>) -> JsonSpec {
    match p {
        Some(s) => JsonSpec::Str(s),
        None => JsonSpec::Null,
    }
}

/// An optional sub area ID as JSON.
pub open spec fn opt_id_json(c: Option<usize>) -> JsonSpec {
    match c {
        Some(c) => JsonSpec::Int(c as int),
        None => JsonSpec::Null,
    }
}

/// A block as a JSON object, members in name order.
pub open spec fn block_json(b: BlockSpec) -> JsonSpec {
    JsonSpec::Object(
        seq![
            ("color"@, JsonSpec::Int(b.color as int)),
            ("contains"@, JsonSpec::Array(seq![opt_id_json(b.contains.0), opt_id_json(b.contains.1)])),
            ("expanded"@, JsonSpec::Bool(b.expanded)),
            ("id"@, JsonSpec::Int((b.id as i64) as int)),
            ("inputs"@, JsonSpec::Array(b.inputs.map_values(|p: Option<Seq<char>>| port_json(p)))),
            ("lbl"@, JsonSpec::Str(b.lbl)),
            ("outputs"@, JsonSpec::Array(b.outputs.map_values(|p: Option<Seq<char>>| port_json(p)))),
            ("rows"@, JsonSpec::Int((b.rows as i64) as int)),
            ("typ"@, JsonSpec::Str(b.typ)),
        ],
    )
}

/// A port label read from JSON: a string, or an absent port.
pub open spec fn port_from_json(v: JsonSpec) -> Option<Seq<char>> {
    match v {
        JsonSpec::Str(s) => Some(s),
        _ => None,
    }
}

/// An integer read from JSON as `usize`, or `dflt`.
pub open spec fn usize_or(v: JsonSpec, dflt: usize) -> usize {
    match json_i64(v) {
        Some(n) => n as usize,
        None => dflt,
    }
}

/// An optional sub area ID read from JSON.
pub open spec fn opt_id_from_json(v: JsonSpec) -> Option<usize> {
    match json_i64(v) {
        Some(n) => Some(n as usize),
        None => None,
    }
}

/// The block that a JSON value describes.
pub open spec fn block_from_json(v: JsonSpec) -> BlockSpec {
    BlockSpec {
        id: usize_or(json_get(v, "id"@), 0),
        rows: usize_or(json_get(v, "rows"@), 0),
        contains: (
            opt_id_from_json(json_at(json_get(v, "contains"@), 0)),
            opt_id_from_json(json_at(json_get(v, "contains"@), 1)),
        ),
        expanded: match json_bool(json_get(v, "expanded"@)) {
            Some(b) => b,
            None => true,
        },
        typ: match json_str(json_get(v, "typ"@)) {
            Some(s) => s,
            None => "?"@,
        },
        lbl: match json_str(json_get(v, "lbl"@)) {
            Some(s) => s,
            None => "?"@,
        },
        inputs: json_elems(json_get(v, "inputs"@)).map_values(|e: JsonSpec| port_from_json(e)),
        outputs: json_elems(json_get(v, "outputs"@)).map_values(|e: JsonSpec| port_from_json(e)),
        color: usize_or(json_get(v, "color"@), 0),
    }
}

/// A port list as a JSON array.
fn ports_to_json(ports: &Vec<Option<String>>) -> (r: JsonValue)
    ensures
        json_view(r) == JsonSpec::Array(ports_view(ports@).map_values(|p: Option<Seq<char>>| port_json(p))),
{
    let mut a: Vec<JsonValue> = Vec::new();
    let mut i: usize = 0;
    while i < ports.len()
        invariant
            i <= ports.len(),
            json_all(a@) == ports_view(ports@).subrange(0, i as int).map_values(
                |p: Option<Seq<char>>| port_json(p),
            ),
        decreases ports.len() - i,
    {
        let x = match &ports[i] {
            Some(s) => JsonValue::Str(s.clone()),
            None => JsonValue::Null,
        };
        let ghost before = a@;
        a.push(x);
        proof {
            lemma_json_list_push(before, x, before.len() as int);
            assert(json_all(a@) == json_all(before).push(json_view(x)));
            assert(ports_view(ports@).subrange(0, i + 1).map_values(|p: Option<Seq<char>>| port_json(p))
                =~= ports_view(ports@).subrange(0, i as int).map_values(|p: Option<Seq<char>>| port_json(p)).push(
                port_json(ports_view(ports@)[i as int]),
            ));
        }
        i += 1;
    }
    proof {
        assert(ports_view(ports@).subrange(0, ports@.len() as int) =~= ports_view(ports@));
    }
    JsonValue::Array(a)
}

/// A port list read from a JSON array; nothing for another kind of value.
fn ports_from_json(v: Option<&JsonValue>) -> (r: Vec<Option<String>>)
    ensures
        ports_view(r@) == json_elems(
            match v {
                Some(x) => json_view(*x),
                None => JsonSpec::Null,
            },
        ).map_values(|e: JsonSpec| port_from_json(e)),
{
    let mut r: Vec<Option<String>> = Vec::new();
    if let Some(JsonValue::Array(a)) = v {
        let ghost av = json_all(a@);
        proof {
            lemma_json_list_index(a@, a@.len() as int);
        }
        let mut i: usize = 0;
        while i < a.len()
            invariant
                i <= a.len(),
                av == json_all(a@),
                av.len() == a@.len(),
                forall|j: int| 0 <= j < a@.len() ==> av[j] == json_view(a@[j]),
                ports_view(r@) == av.subrange(0, i as int).map_values(|e: JsonSpec| port_from_json(e)),
            decreases a.len() - i,
        {
            let p = match &a[i] {
                JsonValue::Str(s) => Some(s.clone()),
                _ => None,
            };
            proof {
                assert(json_view(a@[i as int]) == av[i as int]);
            }
            r.push(p);
            proof {
                assert(av.subrange(0, i + 1).map_values(|e: JsonSpec| port_from_json(e)) =~= av.subrange(
                    0,
                    i as int,
                ).map_values(|e: JsonSpec| port_from_json(e)).push(port_from_json(av[i as int])));
                assert(ports_view(r@) =~= av.subrange(0, i + 1).map_values(|e: JsonSpec| port_from_json(e)));
            }
            i += 1;
        }
        proof {
            assert(av.subrange(0, a@.len() as int) =~= av);
        }
    } else {
        proof {
            assert(ports_view(r@) =~= Seq::<Option<Seq<char>>>::empty());
        }
    }
    r
}

/// An optional sub area ID as JSON.
fn opt_id_to_json(c: Option<usize>) -> (r: JsonValue)
    ensures
        json_view(r) == opt_id_json(c),
{
    match c {
        Some(c) => JsonValue::Int(c as i128),
        None => JsonValue::Null,
    }
}

/// An optional sub area ID read from JSON.
fn opt_id_read(v: Option<&JsonValue>) -> (r: Option<usize>)
    ensures
        r == opt_id_from_json(
            match v {
                Some(x) => json_view(*x),
                None => JsonSpec::Null,
            },
        ),
{
    match v {
        Some(x) => match x.as_i64() {
            Some(n) => Some(n as usize),
            None => None,
        },
        None => None,
    }
}

impl Block {
    /// This block as a JSON object.
    pub fn serialize(&self) -> (r: JsonValue)
        ensures
            json_view(r) == block_json(self@),
    {
        let mut contains: Vec<JsonValue> = Vec::new();
        contains.push(opt_id_to_json(self.contains.0));
        contains.push(opt_id_to_json(self.contains.1));
        let cj = JsonValue::Array(contains);
        proof {
            lemma_json_list_index(contains@, 2);
            assert(json_list_view(contains@, 2) =~= seq![opt_id_json(self.contains.0), opt_id_json(self.contains.1)]);
            assert(json_view(cj) == JsonSpec::Array(
                seq![opt_id_json(self.contains.0), opt_id_json(self.contains.1)],
            ));
        }
        let mut m: Vec<(String, JsonValue)> = Vec::new();
        m.push(("color".to_string(), JsonValue::Int(self.color as i128)));
        m.push(("contains".to_string(), cj));
        m.push(("expanded".to_string(), JsonValue::Bool(self.expanded)));
        m.push(("id".to_string(), JsonValue::Int(#[verifier::truncate] (self.id as i64) as i128)));
        m.push(("inputs".to_string(), ports_to_json(&self.inputs)));
        m.push(("lbl".to_string(), JsonValue::Str(self.lbl.clone())));
        m.push(("outputs".to_string(), ports_to_json(&self.outputs)));
        m.push(("rows".to_string(), JsonValue::Int(#[verifier::truncate] (self.rows as i64) as i128)));
        m.push(("typ".to_string(), JsonValue::Str(self.typ.clone())));
        proof {
            lemma_json_members_index(m@, 9);
            assert(json_members(m@) =~= match block_json(self@) {
                JsonSpec::Object(s) => s,
                _ => Seq::empty(),
            });
        }
        JsonValue::Object(m)
    }

    /// The block that a JSON object describes; a missing or mistyped member
    /// reads as its default.
    pub fn deserialize(v: &JsonValue) -> (r: Result<Box<Block>, serde_json::Error>)
        ensures
            r matches Ok(b) && b@ == block_from_json(json_view(*v)),
    {
        let inputs = ports_from_json(v.get("inputs"));
        let outputs = ports_from_json(v.get("outputs"));
        let cv = v.get("contains");
        let c0 = match cv {
            Some(c) => opt_id_read(c.at(0)),
            None => None,
        };
        let c1 = match cv {
            Some(c) => opt_id_read(c.at(1)),
            None => None,
        };
        let b = Block {
            id: get_i64_or(v, "id", 0) as usize,
            rows: get_i64_or(v, "rows", 0) as usize,
            contains: (c0, c1),
            expanded: get_bool_or(v, "expanded", true),
            typ: get_str_or(v, "typ", "?"),
            lbl: get_str_or(v, "lbl", "?"),
            inputs,
            outputs,
            color: get_i64_or(v, "color", 0) as usize,
        };
        proof {
            assert(b@ == block_from_json(json_view(*v)));
        }
        Ok(Box::new(b))
    }
}


/// A placed block as a JSON object.
pub open spec fn placed_json(e: PlacedSpec) -> JsonSpec {
    JsonSpec::Object(
        seq![("block"@, block_json(e.2)), ("x"@, JsonSpec::Int(e.0 as int)), ("y"@, JsonSpec::Int(e.1 as int))],
    )
}

/// An area as a JSON object, members in name order.
pub open spec fn area_json(a: AreaSpec) -> JsonSpec {
    JsonSpec::Object(
        seq![
            ("auto_shrink"@, JsonSpec::Bool(a.auto_shrink)),
            ("blocks"@, JsonSpec::Array(a.blocks.map_values(|e: PlacedSpec| placed_json(e)))),
            ("header"@, JsonSpec::Str(a.header)),
            (
                "size"@,
                JsonSpec::Array(seq![JsonSpec::Int((a.size.0 as i64) as int), JsonSpec::Int((a.size.1 as i64) as int)]),
            ),
        ],
    )
}

/// An integer read from JSON, or `dflt`.
pub open spec fn i64_or(v: JsonSpec, dflt: i64) -> i64 {
    match json_i64(v) {
        Some(n) => n,
        None => dflt,
    }
}

/// The block, with its origin, that an entry of an area's block list
/// describes.
pub open spec fn entry_from_json(e: JsonSpec) -> (BlockSpec, i64, i64) {
    (block_from_json(json_get(e, "block"@)), i64_or(json_get(e, "x"@), 0), i64_or(json_get(e, "y"@), 0))
}

/// The area that a JSON value describes: its blocks placed in list order, a
/// later block replacing one with the same origin.
pub open spec fn area_from_json(v: JsonSpec) -> AreaSpec {
    AreaSpec {
        blocks: insert_all(
            Seq::empty(),
            json_elems(json_get(v, "blocks"@)).map_values(|e: JsonSpec| entry_from_json(e)),
        ),
        size: (usize_or(json_at(json_get(v, "size"@), 0), 0), usize_or(json_at(json_get(v, "size"@), 1), 0)),
        auto_shrink: match json_bool(json_get(v, "auto_shrink"@)) {
            Some(b) => b,
            None => true,
        },
        header: match json_str(json_get(v, "header"@)) {
            Some(s) => s,
            None => Seq::empty(),
        },
    }
}

/// A snapshot as a JSON object, members in name order.
pub open spec fn snap_json(s: SnapSpec) -> JsonSpec {
    JsonSpec::Object(
        seq![
            ("VERSION"@, JsonSpec::Int(1)),
            ("areas"@, JsonSpec::Array(s.areas.map_values(|a: AreaSpec| area_json(a)))),
            ("current_block_id_counter"@, JsonSpec::Int(s.cur_id as int)),
        ],
    )
}

/// The snapshot that a JSON value describes.
pub open spec fn snap_from_json(v: JsonSpec) -> SnapSpec {
    SnapSpec {
        areas: json_elems(json_get(v, "areas"@)).map_values(|a: JsonSpec| area_from_json(a)),
        cur_id: usize_or(json_get(v, "current_block_id_counter"@), 0),
    }
}

/// Places `b` at `(x, y)`, replacing a block with the same origin.
fn insert_entry(blocks: &mut Vec<(i64, i64, Box<Block>)>, x: i64, y: i64, b: Box<Block>)
    requires
        origins_distinct(placed_view(old(blocks)@)),
    ensures
        placed_view(final(blocks)@) == insert_placed(placed_view(old(blocks)@), x, y, b@),
        origins_distinct(placed_view(final(blocks)@)),
{
    let ghost s = placed_view(blocks@);
    let mut i: usize = 0;
    while i < blocks.len()
        invariant
            i <= blocks@.len(),
            s == placed_view(blocks@),
            s == placed_view(old(blocks)@),
            origins_distinct(s),
            forall|j: int| 0 <= j < i ==> !(#[trigger] s[j].0 == x && s[j].1 == y),
        decreases blocks.len() - i,
    {
        if blocks[i].0 == x && blocks[i].1 == y {
            proof {
                crate::blocklang::lemma_origin_index(s, x as int, y as int, i as int);
            }
            blocks.set(i, (x, y, b));
            proof {
                assert(placed_view(blocks@) =~= s.update(i as int, (x, y, b@)));
            }
            return;
        }
        i += 1;
    }
    blocks.push((x, y, b));
    proof {
        assert(placed_view(blocks@) =~= s.push((x, y, b@)));
    }
}

/// Two integers as a JSON array.
fn pair_json(a: i128, b: i128) -> (r: JsonValue)
    ensures
        json_view(r) == JsonSpec::Array(seq![JsonSpec::Int(a as int), JsonSpec::Int(b as int)]),
{
    let mut v: Vec<JsonValue> = Vec::new();
    v.push(JsonValue::Int(a));
    v.push(JsonValue::Int(b));
    proof {
        lemma_json_list_index(v@, 2);
        assert(json_list_view(v@, 2) =~= seq![JsonSpec::Int(a as int), JsonSpec::Int(b as int)]);
    }
    JsonValue::Array(v)
}

impl BlockArea {
    /// This area as a JSON object.
    pub fn serialize(&self) -> (r: JsonValue)
        ensures
            json_view(r) == area_json(self@),
    {
        let ghost bs = self@.blocks;
        let mut blks: Vec<JsonValue> = Vec::new();
        let mut i: usize = 0;
        while i < self.blocks.len()
            invariant
                i <= self.blocks@.len(),
                bs == self@.blocks,
                bs == placed_view(self.blocks@),
                json_all(blks@) == bs.subrange(0, i as int).map_values(|e: PlacedSpec| placed_json(e)),
            decreases self.blocks.len() - i,
        {
            let e = &self.blocks[i];
            let mut m: Vec<(String, JsonValue)> = Vec::new();
            m.push(("block".to_string(), e.2.serialize()));
            m.push(("x".to_string(), JsonValue::Int(e.0 as i128)));
            m.push(("y".to_string(), JsonValue::Int(e.1 as i128)));
            let x = JsonValue::Object(m);
            proof {
                lemma_json_members_index(m@, 3);
                assert(bs[i as int] == (e.0, e.1, e.2@));
                assert(json_members(m@) =~= match placed_json(bs[i as int]) {
                    JsonSpec::Object(s) => s,
                    _ => Seq::empty(),
                });
            }
            let ghost before = blks@;
            blks.push(x);
            proof {
                lemma_json_list_push(before, x, before.len() as int);
                assert(json_all(blks@) == json_all(before).push(json_view(x)));
                assert(bs.subrange(0, i + 1).map_values(|e: PlacedSpec| placed_json(e)) =~= bs.subrange(
                    0,
                    i as int,
                ).map_values(|e: PlacedSpec| placed_json(e)).push(placed_json(bs[i as int])));
            }
            i += 1;
        }
        proof {
            assert(bs.subrange(0, bs.len() as int) =~= bs);
        }
        let mut m: Vec<(String, JsonValue)> = Vec::new();
        m.push(("auto_shrink".to_string(), JsonValue::Bool(self.auto_shrink)));
        m.push(("blocks".to_string(), JsonValue::Array(blks)));
        m.push(("header".to_string(), JsonValue::Str(self.header.clone())));
        m.push(
            (
                "size".to_string(),
                pair_json(
                    #[verifier::truncate]
                    (self.size.0 as i64) as i128,
                    #[verifier::truncate]
                    (self.size.1 as i64) as i128,
                ),
            ),
        );
        proof {
            lemma_json_members_index(m@, 4);
            assert(json_members(m@) =~= match area_json(self@) {
                JsonSpec::Object(s) => s,
                _ => Seq::empty(),
            });
        }
        JsonValue::Object(m)
    }

    /// The area that a JSON object describes: its blocks placed in list
    /// order, a later block replacing one with the same origin.
    pub fn deserialize(v: &JsonValue) -> (r: Result<Box<BlockArea>, serde_json::Error>)
        ensures
            r matches Ok(a) && a@ == area_from_json(json_view(*v)),
    {
        let ghost list = json_elems(json_get(json_view(*v), "blocks"@)).map_values(
            |e: JsonSpec| entry_from_json(e),
        );
        let mut blocks: Vec<(i64, i64, Box<Block>)> = Vec::new();
        let null = JsonValue::Null;
        proof {
            assert(placed_view(blocks@) =~= insert_all(Seq::empty(), list.subrange(0, 0)));
        }
        if let Some(JsonValue::Array(a)) = v.get("blocks") {
            let ghost av = json_all(a@);
            proof {
                lemma_json_list_index(a@, a@.len() as int);
                assert(av == json_elems(json_get(json_view(*v), "blocks"@)));
            }
            let mut i: usize = 0;
            while i < a.len()
                invariant
                    i <= a.len(),
                    av == json_all(a@),
                    av.len() == a@.len(),
                    forall|j: int| 0 <= j < a@.len() ==> av[j] == json_view(a@[j]),
                    list == av.map_values(|e: JsonSpec| entry_from_json(e)),
                    json_view(null) == JsonSpec::Null,
                    origins_distinct(placed_view(blocks@)),
                    placed_view(blocks@) == insert_all(Seq::empty(), list.subrange(0, i as int)),
                decreases a.len() - i,
            {
                let e = &a[i];
                let x = get_i64_or(e, "x", 0);
                let y = get_i64_or(e, "y", 0);
                let bj = match e.get("block") {
                    Some(b) => b,
                    None => &null,
                };
                let b = match Block::deserialize(bj) {
                    Ok(b) => b,
                    Err(err) => {
                        return Err(err);
                    },
                };
                proof {
                    assert(av[i as int] == json_view(*e));
                    assert(list[i as int] == entry_from_json(json_view(*e)));
                    assert(list[i as int] == (b@, x, y));
                    assert(list.subrange(0, i + 1).drop_last() =~= list.subrange(0, i as int));
                    assert(list.subrange(0, i + 1).last() == list[i as int]);
                }
                insert_entry(&mut blocks, x, y, b);
                i += 1;
            }
            proof {
                assert(list.subrange(0, a@.len() as int) =~= list);
            }
        } else {
            proof {
                assert(list =~= Seq::<(BlockSpec, i64, i64)>::empty());
                assert(list.subrange(0, 0) =~= list);
            }
        }
        let sv = v.get("size");
        let s0 = match sv {
            Some(s) => match s.at(0) {
                Some(x) => get_usize_or(x, 0),
                None => 0,
            },
            None => 0,
        };
        let s1 = match sv {
            Some(s) => match s.at(1) {
                Some(x) => get_usize_or(x, 0),
                None => 0,
            },
            None => 0,
        };
        let a = BlockArea {
            blocks,
            size: (s0, s1),
            auto_shrink: get_bool_or(v, "auto_shrink", true),
            header: get_str_or(v, "header", ""),
        };
        proof {
            assert(""@ =~= Seq::<char>::empty()) by {
                reveal_strlit("");
            }
            assert(a@ == area_from_json(json_view(*v)));
        }
        Ok(Box::new(a))
    }
}

/// An integer value read as `usize`, or `dflt`.
fn get_usize_or(v: &JsonValue, dflt: usize) -> (r: usize)
    ensures
        r == usize_or(json_view(*v), dflt),
{
    match v.as_i64() {
        Some(n) => n as usize,
        None => dflt,
    }
}

impl BlockFunSnapshot {
    /// This snapshot as a JSON object.
    pub fn serialize(&self) -> (r: JsonValue)
        ensures
            json_view(r) == snap_json(self@),
    {
        let ghost areas = self@.areas;
        let mut av: Vec<JsonValue> = Vec::new();
        let mut i: usize = 0;
        while i < self.areas.len()
            invariant
                i <= self.areas@.len(),
                areas == self@.areas,
                areas.len() == self.areas@.len(),
                forall|j: int| 0 <= j < areas.len() ==> areas[j] == self.areas@[j]@,
                json_all(av@) == areas.subrange(0, i as int).map_values(|a: AreaSpec| area_json(a)),
            decreases self.areas.len() - i,
        {
            let x = self.areas[i].serialize();
            let ghost before = av@;
            av.push(x);
            proof {
                lemma_json_list_push(before, x, before.len() as int);
                assert(json_all(av@) == json_all(before).push(json_view(x)));
                assert(areas.subrange(0, i + 1).map_values(|a: AreaSpec| area_json(a)) =~= areas.subrange(
                    0,
                    i as int,
                ).map_values(|a: AreaSpec| area_json(a)).push(area_json(areas[i as int])));
            }
            i += 1;
        }
        proof {
            assert(areas.subrange(0, areas.len() as int) =~= areas);
        }
        let mut m: Vec<(String, JsonValue)> = Vec::new();
        m.push(("VERSION".to_string(), JsonValue::Int(1)));
        m.push(("areas".to_string(), JsonValue::Array(av)));
        m.push(("current_block_id_counter".to_string(), JsonValue::Int(self.cur_id as i128)));
        proof {
            lemma_json_members_index(m@, 3);
            assert(json_members(m@) =~= match snap_json(self@) {
                JsonSpec::Object(s) => s,
                _ => Seq::empty(),
            });
        }
        JsonValue::Object(m)
    }

    /// The snapshot that a JSON object describes.
    pub fn deserialize(v: &JsonValue) -> (r: Result<BlockFunSnapshot, serde_json::Error>)
        ensures
            r matches Ok(s) && s@ == snap_from_json(json_view(*v)),
    {
        let ghost want = json_elems(json_get(json_view(*v), "areas"@)).map_values(|a: JsonSpec| area_from_json(a));
        let mut areas: Vec<Box<BlockArea>> = Vec::new();
        if let Some(JsonValue::Array(a)) = v.get("areas") {
            let ghost av = json_all(a@);
            proof {
                lemma_json_list_index(a@, a@.len() as int);
            }
            let mut i: usize = 0;
            while i < a.len()
                invariant
                    i <= a.len(),
                    av == json_all(a@),
                    av.len() == a@.len(),
                    forall|j: int| 0 <= j < a@.len() ==> av[j] == json_view(a@[j]),
                    want == av.map_values(|x: JsonSpec| area_from_json(x)),
                    areas@.len() == i,
                    forall|j: int| 0 <= j < i ==> areas@[j]@ == want[j],
                decreases a.len() - i,
            {
                let x = match BlockArea::deserialize(&a[i]) {
                    Ok(x) => x,
                    Err(err) => {
                        return Err(err);
                    },
                };
                areas.push(x);
                i += 1;
            }
        }
        let s = BlockFunSnapshot { areas, cur_id: get_i64_or(v, "current_block_id_counter", 0) as usize };
        proof {
            assert(s@.areas =~= want);
        }
        Ok(s)
    }
}


/// The numbers of a block that JSON integers read back as `i64` carry over:
/// its color and sub area IDs are at most `i64::MAX`.
pub open spec fn block_json_safe(b: BlockSpec) -> bool {
    &&& b.color <= i64::MAX
    &&& (b.contains.0 matches Some(c) ==> c <= i64::MAX)
    &&& (b.contains.1 matches Some(c) ==> c <= i64::MAX)
}

/// An area carries over into JSON and back: no two blocks share an origin
/// and all its blocks carry over.
pub open spec fn area_json_safe(a: AreaSpec) -> bool {
    &&& origins_distinct(a.blocks)
    &&& forall|i: int| 0 <= i < a.blocks.len() ==> block_json_safe(#[trigger] a.blocks[i].2)
}

/// A snapshot carries over into JSON and back.
pub open spec fn snap_json_safe(s: SnapSpec) -> bool {
    &&& s.cur_id <= i64::MAX
    &&& forall|i: int| 0 <= i < s.areas.len() ==> area_json_safe(#[trigger] s.areas[i])
}

/// Reading back a written block gives the block.
pub proof fn law_block_json_round_trip(b: BlockSpec)
    requires
        block_json_safe(b),
    ensures
        block_from_json(block_json(b)) == b,
{
    reveal_strlit("color");
    reveal_strlit("contains");
    reveal_strlit("expanded");
    reveal_strlit("id");
    reveal_strlit("inputs");
    reveal_strlit("lbl");
    reveal_strlit("outputs");
    reveal_strlit("rows");
    reveal_strlit("typ");
    assert("color"@.len() == 5 && "color"@[0] == 'c');
    assert("contains"@.len() == 8 && "contains"@[0] == 'c');
    assert("expanded"@.len() == 8 && "expanded"@[0] == 'e');
    assert("id"@.len() == 2 && "id"@[0] == 'i');
    assert("inputs"@.len() == 6 && "inputs"@[0] == 'i');
    assert("lbl"@.len() == 3 && "lbl"@[0] == 'l');
    assert("outputs"@.len() == 7 && "outputs"@[0] == 'o');
    assert("rows"@.len() == 4 && "rows"@[0] == 'r');
    assert("typ"@.len() == 3 && "typ"@[0] == 't');
    reveal_with_fuel(crate::json::member_index, 10);
    let j = block_json(b);
    let id = b.id;
    let rows = b.rows;
    assert(((id as i64) as usize) == id) by (bit_vector);
    assert(((rows as i64) as usize) == rows) by (bit_vector);
    assert(json_get(j, "id"@) == JsonSpec::Int((b.id as i64) as int));
    assert(json_get(j, "rows"@) == JsonSpec::Int((b.rows as i64) as int));
    assert(json_get(j, "color"@) == JsonSpec::Int(b.color as int));
    assert(json_get(j, "expanded"@) == JsonSpec::Bool(b.expanded));
    assert(json_get(j, "typ"@) == JsonSpec::Str(b.typ));
    assert(json_get(j, "lbl"@) == JsonSpec::Str(b.lbl));
    let ins = json_get(j, "inputs"@);
    let outs = json_get(j, "outputs"@);
    assert(ins == JsonSpec::Array(b.inputs.map_values(|p: Option<Seq<char>>| port_json(p))));
    assert(outs == JsonSpec::Array(b.outputs.map_values(|p: Option<Seq<char>>| port_json(p))));
    assert(json_elems(ins).map_values(|e: JsonSpec| port_from_json(e)) =~= b.inputs);
    assert(json_elems(outs).map_values(|e: JsonSpec| port_from_json(e)) =~= b.outputs);
    let c = json_get(j, "contains"@);
    assert(c == JsonSpec::Array(seq![opt_id_json(b.contains.0), opt_id_json(b.contains.1)]));
    assert(opt_id_from_json(json_at(c, 0)) == b.contains.0);
    assert(opt_id_from_json(json_at(c, 1)) == b.contains.1);
}

/// Placing blocks with distinct origins one by one into an empty area keeps
/// them in list order.
proof fn lemma_insert_all_distinct(blocks: Seq<PlacedSpec>, n: int)
    requires
        0 <= n <= blocks.len(),
        origins_distinct(blocks),
    ensures
        insert_all(Seq::empty(), blocks.subrange(0, n).map_values(|e: PlacedSpec| (e.2, e.0, e.1)))
            == blocks.subrange(0, n),
    decreases n,
{
    let list = blocks.subrange(0, n).map_values(|e: PlacedSpec| (e.2, e.0, e.1));
    if n == 0 {
        assert(list =~= Seq::<(BlockSpec, i64, i64)>::empty());
        assert(blocks.subrange(0, 0) =~= Seq::<PlacedSpec>::empty());
    } else {
        lemma_insert_all_distinct(blocks, n - 1);
        let prev = blocks.subrange(0, n - 1);
        assert(list.drop_last() =~= prev.map_values(|e: PlacedSpec| (e.2, e.0, e.1)));
        let e = blocks[n - 1];
        assert(list.last() == (e.2, e.0, e.1));
        assert(forall|i: int| 0 <= i < prev.len() ==> !(prev[i].0 == e.0 && prev[i].1 == e.1)) by {
            assert forall|i: int| 0 <= i < prev.len() implies !(prev[i].0 == e.0 && prev[i].1 == e.1) by {
                assert(prev[i] == blocks[i]);
            }
        }
        assert(origin_index(prev, e.0 as int, e.1 as int) is None);
        assert(prev.push((e.0, e.1, e.2)) =~= blocks.subrange(0, n));
    }
}

/// Reading back a written area gives the area.
pub proof fn law_area_json_round_trip(a: AreaSpec)
    requires
        area_json_safe(a),
    ensures
        area_from_json(area_json(a)) == a,
{
    reveal_strlit("auto_shrink");
    reveal_strlit("blocks");
    reveal_strlit("header");
    reveal_strlit("size");
    reveal_strlit("block");
    reveal_strlit("x");
    reveal_strlit("y");
    assert("auto_shrink"@.len() == 11 && "auto_shrink"@[0] == 'a');
    assert("blocks"@.len() == 6 && "blocks"@[0] == 'b');
    assert("header"@.len() == 6 && "header"@[0] == 'h');
    assert("size"@.len() == 4 && "size"@[0] == 's');
    assert("block"@.len() == 5 && "block"@[0] == 'b');
    assert("x"@.len() == 1 && "x"@[0] == 'x');
    assert("y"@.len() == 1 && "y"@[0] == 'y');
    reveal_with_fuel(crate::json::member_index, 5);
    let j = area_json(a);
    let s0 = a.size.0;
    let s1 = a.size.1;
    assert(((s0 as i64) as usize) == s0) by (bit_vector);
    assert(((s1 as i64) as usize) == s1) by (bit_vector);
    assert(json_get(j, "auto_shrink"@) == JsonSpec::Bool(a.auto_shrink));
    assert(json_get(j, "header"@) == JsonSpec::Str(a.header));
    assert(json_get(j, "size"@) == JsonSpec::Array(
        seq![JsonSpec::Int((a.size.0 as i64) as int), JsonSpec::Int((a.size.1 as i64) as int)],
    ));
    let bl = json_get(j, "blocks"@);
    assert(bl == JsonSpec::Array(a.blocks.map_values(|e: PlacedSpec| placed_json(e))));
    let list = json_elems(bl).map_values(|e: JsonSpec| entry_from_json(e));
    assert forall|i: int| 0 <= i < a.blocks.len() implies list[i] == (a.blocks[i].2, a.blocks[i].0, a.blocks[i].1) by {
        let e = a.blocks[i];
        let pj = placed_json(e);
        assert(json_get(pj, "block"@) == block_json(e.2));
        assert(json_get(pj, "x"@) == JsonSpec::Int(e.0 as int));
        assert(json_get(pj, "y"@) == JsonSpec::Int(e.1 as int));
        assert(block_json_safe(e.2));
        law_block_json_round_trip(e.2);
    }
    assert(list =~= a.blocks.subrange(0, a.blocks.len() as int).map_values(|e: PlacedSpec| (e.2, e.0, e.1)));
    lemma_insert_all_distinct(a.blocks, a.blocks.len() as int);
    assert(a.blocks.subrange(0, a.blocks.len() as int) =~= a.blocks);
}

/// Reading back a written snapshot gives the snapshot.
pub proof fn law_snapshot_json_round_trip(s: SnapSpec)
    requires
        snap_json_safe(s),
    ensures
        snap_from_json(snap_json(s)) == s,
{
    reveal_strlit("VERSION");
    reveal_strlit("areas");
    reveal_strlit("current_block_id_counter");
    assert("VERSION"@.len() == 7 && "VERSION"@[0] == 'V');
    assert("areas"@.len() == 5 && "areas"@[0] == 'a');
    assert("current_block_id_counter"@.len() == 24 && "current_block_id_counter"@[0] == 'c');
    reveal_with_fuel(crate::json::member_index, 4);
    let j = snap_json(s);
    assert(json_get(j, "current_block_id_counter"@) == JsonSpec::Int(s.cur_id as int));
    let al = json_get(j, "areas"@);
    assert(al == JsonSpec::Array(s.areas.map_values(|a: AreaSpec| area_json(a))));
    assert forall|i: int| 0 <= i < s.areas.len() implies area_from_json(area_json(s.areas[i])) == s.areas[i] by {
        law_area_json_round_trip(s.areas[i]);
    }
    assert(json_elems(al).map_values(|a: JsonSpec| area_from_json(a)) =~= s.areas);
}

} // verus!
