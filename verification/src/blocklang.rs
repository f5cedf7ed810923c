//! The block language: blocks placed on the grid of areas, connected by their
//! ports, edited by moving, cloning and splitting chains of them, and turned
//! into an abstract syntax tree.
//!
//! Positions in an area are `(x, y)` cells. A block spans `rows` cells of one
//! column, starting at its origin; all its cells are `i64` coordinates. The
//! two outermost columns count as occupied: every block has columns on both
//! sides, where its inputs and outputs connect.
use vstd::prelude::*;
use std::rc::Rc;
use std::collections::VecDeque;
use crate::text::{share_rc, str_equal};
use crate::block_compiler::{ASTNodeRef, JASTNode, NodeSpec, graph_view, graph_wf, children_view};
use vstd::string::StringSliceAdditionalSpecFns;
use vstd::utf8::encode_utf8;

pub mod json_io;

verus! {

/// The largest coordinate magnitude of the blocks of a chain and of its
/// target when the chain moves: the offsets and shifts of the move stay
/// within `i64`.
pub const MAX_COORD: i64 = 0x400_0000_0000_0000;

// ---------------------------------------------------------------------------
// Models
// ---------------------------------------------------------------------------

/// What a block is, as the contracts speak of it.
pub ghost struct BlockSpec {
    pub id: usize,
    pub rows: usize,
    pub contains: (Option<usize>, Option<usize>),
    pub expanded: bool,
    pub typ: Seq<char>,
    pub lbl: Seq<char>,
    pub inputs: Seq<Option<Seq<char>>>,
    pub outputs: Seq<Option<Seq<char>>>,
    pub color: usize,
}

/// The labels of a port list.
pub open spec fn ports_view(v: Seq<Option<String>>) -> Seq<Option<Seq<char>>> {
    v.map_values(|p: Option<String>| match p {
        Some(s) => Some(s@),
        None => None,
    })
}

/// Rows and labels of a list of ports.
pub open spec fn labels_view(v: Seq<(usize, String)>) -> Seq<(usize, Seq<char>)> {
    v.map_values(|p: (usize, String)| (p.0, p.1@))
}

/// The UTF-8 bytes of a character sequence.
pub open spec fn utf8_of(s: Seq<char>) -> Seq<u8> {
    encode_utf8(s)
}

// ---------------------------------------------------------------------------
// Block IDs
// ---------------------------------------------------------------------------

/// The ID `k` steps after `id`, counting modulo the `usize` range.
pub open spec fn id_after(id: nat, k: nat) -> usize {
    ((id + k) % (usize::MAX as nat + 1)) as usize
}

/// One step after `id` is `id + 1`, or 0 after the largest `usize`.
pub(crate) proof fn lemma_id_after_one(id: nat)
    requires
        id <= usize::MAX,
    ensures
        id_after(id, 1) == if id == usize::MAX { 0usize } else { (id + 1) as usize },
{
    if id == usize::MAX {
        assert((usize::MAX as nat + 1) % (usize::MAX as nat + 1) == 0) by (nonlinear_arith);
    } else {
        assert((id + 1) % (usize::MAX as nat + 1) == id + 1) by (nonlinear_arith)
            requires
                id + 1 <= usize::MAX,
        ;
    }
}

/// Zero steps after an ID is the ID.
proof fn lemma_id_after_zero(id: nat)
    requires
        id <= usize::MAX,
    ensures
        id_after(id, 0) == id,
{
    vstd::arithmetic::div_mod::lemma_small_mod(id, usize::MAX as nat + 1);
}

/// Stepping `k` IDs and then one more steps `k + 1`.
proof fn lemma_id_after_step(id: nat, k: nat)
    ensures
        id_after(id_after(id, k) as nat, 1) == id_after(id, k + 1),
{
    let m: int = usize::MAX as int + 1;
    vstd::arithmetic::div_mod::lemma_add_mod_noop((id + k) as int, 1, m);
    vstd::arithmetic::div_mod::lemma_small_mod(1, m as nat);
    vstd::arithmetic::div_mod::lemma_mod_bound((id + k) as int, m);
}

/// Hands out increasing block IDs. The counter holds the last ID given out.
#[derive(Debug)]
pub struct BlockIDGenerator {
    counter: usize,
}

impl View for BlockIDGenerator {
    type V = usize;

    closed spec fn view(&self) -> usize {
        self.counter
    }
}

impl BlockIDGenerator {
    /// A generator whose first ID will be 1.
    pub fn new() -> (r: Self)
        ensures
            r@ == 0,
    {
        Self { counter: 0 }
    }

    /// A generator that continues after `id`.
    pub fn new_with_id(id: usize) -> (r: Self)
        ensures
            r@ == id,
    {
        Self { counter: id }
    }

    /// The last ID that was handed out.
    pub fn current(&self) -> (r: usize)
        ensures
            r == self@,
    {
        self.counter
    }

    /// Hands out the next ID; after the largest `usize` the count wraps to 0.
    pub fn next(&mut self) -> (r: usize)
        ensures
            final(self)@ == id_after(old(self)@ as nat, 1),
            r == final(self)@,
    {
        proof {
            lemma_id_after_one(self.counter as nat);
        }
        self.counter = self.counter.wrapping_add(1);
        self.counter
    }
}

// ---------------------------------------------------------------------------
// Blocks
// ---------------------------------------------------------------------------

/// A block inside a block area. It spans `rows` cells of one column.
#[derive(Debug)]
pub struct Block {
    /// An ID to track this block.
    id: usize,
    /// How many rows this block spans.
    rows: usize,
    /// Up to two sub areas, by their ID.
    contains: (Option<usize>, Option<usize>),
    /// Whether the sub areas are shown.
    expanded: bool,
    /// The type name of this block, as the language defines it.
    typ: String,
    /// The label of the block.
    lbl: String,
    /// The input ports; the index is the row, the string the port label.
    inputs: Vec<Option<String>>,
    /// The output ports; the index is the row, the string the port label.
    outputs: Vec<Option<String>>,
    /// The color index of this block.
    color: usize,
}

impl View for Block {
    type V = BlockSpec;

    closed spec fn view(&self) -> BlockSpec {
        BlockSpec {
            id: self.id,
            rows: self.rows,
            contains: self.contains,
            expanded: self.expanded,
            typ: self.typ@,
            lbl: self.lbl@,
            inputs: ports_view(self.inputs@),
            outputs: ports_view(self.outputs@),
            color: self.color,
        }
    }
}

/// The ports among the first `n` rows of `ports` that are present, with their
/// row, in increasing row order.
pub open spec fn ports_upto(ports: Seq<Option<Seq<char>>>, n: int) -> Seq<(usize, Seq<char>)>
    decreases n,
{
    if n <= 0 {
        Seq::empty()
    } else {
        let prev = ports_upto(ports, n - 1);
        if n - 1 < ports.len() && ports[n - 1] is Some {
            prev.push(((n - 1) as usize, ports[n - 1]->0))
        } else {
            prev
        }
    }
}

/// The present ports of a block with `rows` rows, in increasing row order.
pub open spec fn port_list(ports: Seq<Option<Seq<char>>>, rows: usize) -> Seq<(usize, Seq<char>)> {
    ports_upto(ports, if rows < ports.len() { rows as int } else { ports.len() as int })
}

/// The number of present ports among the first `n` rows.
pub open spec fn port_count_upto(ports: Seq<Option<Seq<char>>>, n: int) -> nat
    decreases n,
{
    if n <= 0 {
        0
    } else {
        port_count_upto(ports, n - 1) + if n - 1 < ports.len() && ports[n - 1] is Some {
            1nat
        } else {
            0nat
        }
    }
}

/// Whether row `i` of `ports` holds a port.
pub open spec fn has_port(ports: Seq<Option<Seq<char>>>, i: int) -> bool {
    0 <= i < ports.len() && ports[i] is Some
}

/// The ports after the port at `idx` was moved one row down, wrapping around
/// at the end; a port list shorter than `rows` is first padded with empty rows.
pub open spec fn shifted_ports(ports: Seq<Option<Seq<char>>>, rows: usize, idx: int) -> Seq<Option<Seq<char>>> {
    let v = if ports.len() < rows {
        ports + Seq::new((rows - ports.len()) as nat, |i: int| None::<Seq<char>>)
    } else {
        ports
    };
    v.remove(idx).insert((idx + 1) % (v.len() as int), v[idx])
}

/// The port at row `j`: none beyond the listed ports.
pub open spec fn port_row(ports: Seq<Option<Seq<char>>>, j: int) -> Option<Seq<char>> {
    if 0 <= j < ports.len() {
        ports[j]
    } else {
        None
    }
}

/// Shifting the port at row `idx` moves it one row down and the port below
/// it one row up, all other rows unchanged; the port at the last row moves
/// to the first row, and every other port one row down. The block keeps one
/// port row for each of its rows, at least.
pub proof fn law_shift_port_positions(ports: Seq<Option<Seq<char>>>, rows: usize, idx: int)
    requires
        rows > 1,
        0 <= idx,
        idx < ports.len() || idx < rows,
    ensures
        ({
            let r = shifted_ports(ports, rows, idx);
            let n = if ports.len() < rows { rows as int } else { ports.len() as int };
            &&& r.len() == n
            &&& idx + 1 < n ==> r[idx] == port_row(ports, idx + 1) && r[idx + 1] == port_row(ports, idx) && forall|j: int|
                0 <= j < n && j != idx && j != idx + 1 ==> #[trigger] r[j] == port_row(ports, j)
            &&& idx + 1 == n ==> r[0] == port_row(ports, idx) && forall|j: int| 0 < j < n ==> #[trigger] r[j] == port_row(ports, j - 1)
        }),
{
    let v = if ports.len() < rows {
        ports + Seq::new((rows - ports.len()) as nat, |i: int| None::<Seq<char>>)
    } else {
        ports
    };
    let n = v.len() as int;
    assert forall|j: int| 0 <= j < n implies #[trigger] v[j] == port_row(ports, j) by {}
    let w = v.remove(idx);
    assert(w.len() == n - 1);
    assert forall|j: int| 0 <= j < n - 1 implies #[trigger] w[j] == (if j < idx { v[j] } else { v[j + 1] }) by {}
    let to = (idx + 1) % n;
    let r = w.insert(to, v[idx]);
    assert(r == shifted_ports(ports, rows, idx));
    if idx + 1 < n {
        vstd::arithmetic::div_mod::lemma_small_mod((idx + 1) as nat, n as nat);
        assert(to == idx + 1);
        assert forall|j: int| 0 <= j < n implies #[trigger] r[j] == (if j < idx + 1 { w[j] } else if j == idx + 1 { v[idx] } else {
            w[j - 1]
        }) by {}
        assert(r[idx] == w[idx]);
        assert(r[idx + 1] == v[idx]);
        assert forall|j: int| 0 <= j < n && j != idx && j != idx + 1 implies #[trigger] r[j] == port_row(ports, j) by {
            if j < idx {
                assert(r[j] == w[j]);
            } else {
                assert(r[j] == w[j - 1]);
            }
        }
    } else {
        vstd::arithmetic::div_mod::lemma_mod_multiples_basic(1, n);
        assert(1 * n == n);
        assert(to == 0);
        assert forall|j: int| 0 < j < n implies #[trigger] r[j] == port_row(ports, j - 1) by {
            assert(r[j] == w[j - 1]);
        }
        assert(r[0] == v[idx]);
    }
}

/// Whether `idx` names a port row that can be shifted in a block with `rows` rows.
pub open spec fn shift_index_ok(ports: Seq<Option<Seq<char>>>, rows: usize, idx: usize) -> bool {
    rows > 1 ==> (idx < ports.len() || idx < rows)
}

/// Number of bytes the label writer keeps in its buffer; it reports the
/// length of labels below that size and 0 for longer ones.
pub open spec fn label_buffer_limit() -> nat {
    8192
}

/// What the label writer reports for a label with `len` bytes.
pub open spec fn label_report(len: nat) -> usize {
    if len < label_buffer_limit() {
        len as usize
    } else {
        0
    }
}

/// `new_buf` is `old_buf` with the label bytes copied into its start, as far as they fit.
pub open spec fn label_copied(old_buf: Seq<u8>, new_buf: Seq<u8>, bytes: Seq<u8>) -> bool {
    &&& new_buf.len() == old_buf.len()
    &&& forall|i: int| 0 <= i < new_buf.len() && i < bytes.len() ==> new_buf[i] == bytes[i]
    &&& forall|i: int| bytes.len() <= i < new_buf.len() ==> new_buf[i] == old_buf[i]
}

/// Copies the ports, cloning every label.
fn clone_ports(ports: &Vec<Option<String>>) -> (r: Vec<Option<String>>)
    ensures
        ports_view(r@) == ports_view(ports@),
        r@.len() == ports@.len(),
{
    let mut r: Vec<Option<String>> = Vec::new();
    let mut i: usize = 0;
    while i < ports.len()
        invariant
            i <= ports.len(),
            r@.len() == i,
            forall|j: int| 0 <= j < i ==> r@[j] == ports@[j],
        decreases ports.len() - i,
    {
        let p = match &ports[i] {
            Some(s) => Some(s.clone()),
            None => None,
        };
        r.push(p);
        i += 1;
    }
    proof {
        assert(r@ =~= ports@);
    }
    r
}

/// Copies `bytes` into the start of `buf` as far as they fit.
fn copy_label(bytes: &[u8], buf: &mut [u8])
    ensures
        label_copied(old(buf)@, final(buf)@, bytes@),
{
    let mut i: usize = 0;
    while i < bytes.len() && i < buf.len()
        invariant
            i <= bytes.len(),
            i <= buf.len(),
            buf@.len() == old(buf)@.len(),
            forall|j: int| 0 <= j < i ==> buf@[j] == bytes@[j],
            forall|j: int| i <= j < buf@.len() ==> buf@[j] == old(buf)@[j],
        decreases bytes.len() - i,
    {
        buf[i] = bytes[i];
        i += 1;
    }
}

/// Writes a label into `buf` as the label views do, and returns the reported length.
fn write_label(lbl: &str, buf: &mut [u8]) -> (r: usize)
    ensures
        r == label_report(utf8_of(lbl@).len()),
        label_copied(old(buf)@, final(buf)@, utf8_of(lbl@)),
{
    let bytes = lbl.as_bytes();
    copy_label(bytes, buf);
    if bytes.len() < 8192 {
        bytes.len()
    } else {
        0
    }
}

/// Moves the port at `idx` one row down in `v`, padding `v` to `rows` first.
fn shift_port_in(v: &mut Vec<Option<String>>, rows: usize, idx: usize)
    requires
        idx < old(v)@.len() || idx < rows,
    ensures
        ports_view(final(v)@) == shifted_ports(ports_view(old(v)@), rows, idx as int),
{
    let ghost before = v@;
    while v.len() < rows
        invariant
            before.len() <= v@.len(),
            v@.len() <= rows || v@ == before,
            v@ =~= before + Seq::new((v@.len() - before.len()) as nat, |i: int| None::<String>),
        decreases rows - v@.len(),
    {
        v.push(None);
        proof {
            assert(v@ =~= before + Seq::new((v@.len() - before.len()) as nat, |i: int| None::<String>));
        }
    }
    let ghost padded = v@;
    let idx_to = (idx + 1) % v.len();
    let elem = v.remove(idx);
    v.insert(idx_to, elem);
    proof {
        let pv = ports_view(before);
        let w = if pv.len() < rows {
            pv + Seq::new((rows - pv.len()) as nat, |i: int| None::<Seq<char>>)
        } else {
            pv
        };
        assert(ports_view(padded) =~= w);
        assert(ports_view(v@) =~= w.remove(idx as int).insert((idx + 1) % (w.len() as int), w[idx as int]));
    }
}

/// The present ports among the first `rows` rows, with their row.
fn collect_ports(ports: &Vec<Option<String>>, rows: usize) -> (r: Vec<(usize, String)>)
    ensures
        labels_view(r@) == port_list(ports_view(ports@), rows),
{
    let n: usize = if rows < ports.len() { rows } else { ports.len() };
    let mut r: Vec<(usize, String)> = Vec::new();
    let mut i: usize = 0;
    while i < n
        invariant
            i <= n,
            n <= ports.len(),
            n == (if rows < ports@.len() { rows as int } else { ports@.len() as int }),
            labels_view(r@) == ports_upto(ports_view(ports@), i as int),
        decreases n - i,
    {
        match &ports[i] {
            Some(s) => {
                r.push((i, s.clone()));
                proof {
                    assert(labels_view(r@) =~= ports_upto(ports_view(ports@), i as int).push(
                        (i, s@),
                    ));
                }
            },
            None => {},
        }
        i += 1;
    }
    r
}

impl Block {
    /// The block's ID.
    pub fn id(&self) -> (r: usize)
        ensures
            r == self@.id,
    {
        self.id
    }

    /// A copy of this block under a new ID.
    pub fn clone_with_new_id(&self, new_id: usize) -> (r: Self)
        ensures
            r@ == (BlockSpec { id: new_id, ..self@ }),
    {
        let inputs = clone_ports(&self.inputs);
        let outputs = clone_ports(&self.outputs);
        Self {
            id: new_id,
            rows: self.rows,
            contains: self.contains,
            expanded: self.expanded,
            typ: self.typ.clone(),
            lbl: self.lbl.clone(),
            inputs,
            outputs,
            color: self.color,
        }
    }

    /// Moves the (input or, if `output`, output) port at row `idx` one row
    /// down, wrapping around at the end. Blocks of one row are left alone.
    pub fn shift_port(&mut self, idx: usize, output: bool)
        requires
            shift_index_ok(if output { old(self)@.outputs } else { old(self)@.inputs }, old(self)@.rows, idx),
        ensures
            old(self)@.rows <= 1 ==> final(self)@ == old(self)@,
            old(self)@.rows > 1 && output ==> final(self)@ == (BlockSpec {
                outputs: shifted_ports(old(self)@.outputs, old(self)@.rows, idx as int),
                ..old(self)@
            }),
            old(self)@.rows > 1 && !output ==> final(self)@ == (BlockSpec {
                inputs: shifted_ports(old(self)@.inputs, old(self)@.rows, idx as int),
                ..old(self)@
            }),
    {
        if self.rows <= 1 {
            return;
        }
        if output {
            shift_port_in(&mut self.outputs, self.rows, idx);
        } else {
            shift_port_in(&mut self.inputs, self.rows, idx);
        }
    }

    /// The present output ports with their rows, in increasing row order.
    pub fn for_output_ports(&self) -> (r: Vec<(usize, String)>)
        ensures
            labels_view(r@) == port_list(self@.outputs, self@.rows),
    {
        collect_ports(&self.outputs, self.rows)
    }

    /// The number of output ports of this block.
    pub fn count_outputs(&self) -> (r: usize)
        ensures
            r == port_count_upto(self@.outputs, self@.rows as int),
    {
        let mut count: usize = 0;
        let mut i: usize = 0;
        while i < self.rows
            invariant
                i <= self.rows,
                count == port_count_upto(ports_view(self.outputs@), i as int),
                count <= i,
            decreases self.rows - i,
        {
            if i < self.outputs.len() {
                if self.outputs[i].is_some() {
                    count += 1;
                }
            }
            i += 1;
        }
        count
    }

    /// The present input ports with their rows, in increasing row order.
    pub fn for_input_ports(&self) -> (r: Vec<(usize, String)>)
        ensures
            labels_view(r@) == port_list(self@.inputs, self@.rows),
    {
        collect_ports(&self.inputs, self.rows)
    }

    /// The present input ports with their rows, in decreasing row order.
    pub fn for_input_ports_reverse(&self) -> (r: Vec<(usize, String)>)
        ensures
            labels_view(r@) == port_list(self@.inputs, self@.rows).reverse(),
    {
        let fwd = collect_ports(&self.inputs, self.rows);
        let mut r: Vec<(usize, String)> = Vec::new();
        let mut i: usize = fwd.len();
        while i > 0
            invariant
                i <= fwd.len(),
                r@.len() == fwd.len() - i,
                forall|j: int| 0 <= j < r@.len() ==> r@[j].0 == fwd@[fwd.len() - 1 - j].0 && r@[j].1@
                    == fwd@[fwd.len() - 1 - j].1@,
            decreases i,
        {
            i -= 1;
            let row = fwd[i].0;
            let lbl = fwd[i].1.clone();
            r.push((row, lbl));
        }
        proof {
            assert(labels_view(r@) =~= labels_view(fwd@).reverse());
        }
        r
    }
}

/// The read-only view of a block that an editor draws.
pub trait BlockView {
    fn rows(&self) -> usize;

    fn contains(&self, idx: usize) -> Option<usize>;

    fn expanded(&self) -> bool;

    fn label(&self, buf: &mut [u8]) -> usize;

    fn has_input(&self, idx: usize) -> bool;

    fn has_output(&self, idx: usize) -> bool;

    fn input_label(&self, idx: usize, buf: &mut [u8]) -> usize;

    fn output_label(&self, idx: usize, buf: &mut [u8]) -> usize;

    fn custom_color(&self) -> Option<usize>;
}

impl BlockView for Block {
    fn rows(&self) -> (r: usize)
        ensures
            r == self@.rows,
    {
        self.rows
    }

    fn contains(&self, idx: usize) -> (r: Option<usize>)
        ensures
            r == (if idx == 0 { self@.contains.0 } else { self@.contains.1 }),
    {
        if idx == 0 {
            self.contains.0
        } else {
            self.contains.1
        }
    }

    fn expanded(&self) -> (r: bool)
        ensures
            r,
    {
        true
    }

    fn label(&self, buf: &mut [u8]) -> (r: usize)
        ensures
            r == label_report(utf8_of(self@.lbl).len()),
            label_copied(old(buf)@, final(buf)@, utf8_of(self@.lbl)),
    {
        write_label(self.lbl.as_str(), buf)
    }

    fn has_input(&self, idx: usize) -> (r: bool)
        ensures
            r == has_port(self@.inputs, idx as int),
    {
        idx < self.inputs.len() && self.inputs[idx].is_some()
    }

    fn has_output(&self, idx: usize) -> (r: bool)
        ensures
            r == has_port(self@.outputs, idx as int),
    {
        idx < self.outputs.len() && self.outputs[idx].is_some()
    }

    fn input_label(&self, idx: usize, buf: &mut [u8]) -> (r: usize)
        ensures
            has_port(self@.inputs, idx as int) ==> r == label_report(
                utf8_of(self@.inputs[idx as int]->0).len(),
            ) && label_copied(old(buf)@, final(buf)@, utf8_of(self@.inputs[idx as int]->0)),
            !has_port(self@.inputs, idx as int) ==> r == 0 && final(buf)@ == old(buf)@,
    {
        if idx < self.inputs.len() {
            match &self.inputs[idx] {
                Some(lbl) => write_label(lbl.as_str(), buf),
                None => 0,
            }
        } else {
            0
        }
    }

    fn output_label(&self, idx: usize, buf: &mut [u8]) -> (r: usize)
        ensures
            has_port(self@.outputs, idx as int) ==> r == label_report(
                utf8_of(self@.outputs[idx as int]->0).len(),
            ) && label_copied(old(buf)@, final(buf)@, utf8_of(self@.outputs[idx as int]->0)),
            !has_port(self@.outputs, idx as int) ==> r == 0 && final(buf)@ == old(buf)@,
    {
        if idx < self.outputs.len() {
            match &self.outputs[idx] {
                Some(lbl) => write_label(lbl.as_str(), buf),
                None => 0,
            }
        } else {
            0
        }
    }

    fn custom_color(&self) -> (r: Option<usize>)
        ensures
            r == Some(self@.color),
    {
        Some(self.color)
    }
}

// ---------------------------------------------------------------------------
// Areas
// ---------------------------------------------------------------------------

/// A block placed in an area: its origin cell and the block.
pub type PlacedSpec = (i64, i64, BlockSpec);

/// What an area is, as the contracts speak of it: the placed blocks in their
/// storage order, the size, the auto-shrink flag and the header.
pub ghost struct AreaSpec {
    pub blocks: Seq<PlacedSpec>,
    pub size: (usize, usize),
    pub auto_shrink: bool,
    pub header: Seq<char>,
}

/// Whether the placed block `e` covers the cell `(x, y)`.
pub open spec fn covers(e: PlacedSpec, x: int, y: int) -> bool {
    e.0 == x && e.1 <= y < e.1 + e.2.rows
}

/// `i` is the first placed block that covers `(x, y)`.
pub open spec fn is_first_cover(s: Seq<PlacedSpec>, x: int, y: int, i: int) -> bool {
    &&& 0 <= i < s.len()
    &&& covers(s[i], x, y)
    &&& forall|j: int| 0 <= j < i ==> !covers(#[trigger] s[j], x, y)
}

/// The placed block that occupies the cell `(x, y)`, by its index.
pub open spec fn cell_index(s: Seq<PlacedSpec>, x: int, y: int) -> Option<int> {
    if exists|i: int| is_first_cover(s, x, y, i) {
        Some(choose|i: int| is_first_cover(s, x, y, i))
    } else {
        None
    }
}

/// The origin of the block that occupies the cell `(x, y)`.
pub open spec fn origin_of(s: Seq<PlacedSpec>, x: int, y: int) -> Option<(i64, i64)> {
    match cell_index(s, x, y) {
        Some(i) => Some((s[i].0, s[i].1)),
        None => None,
    }
}

/// The index of the placed block with origin `(x, y)`.
pub open spec fn origin_index(s: Seq<PlacedSpec>, x: int, y: int) -> Option<int> {
    if exists|i: int| 0 <= i < s.len() && s[i].0 == x && s[i].1 == y {
        Some(choose|i: int| 0 <= i < s.len() && s[i].0 == x && s[i].1 == y)
    } else {
        None
    }
}

/// No two placed blocks share an origin.
pub open spec fn origins_distinct(s: Seq<PlacedSpec>) -> bool {
    forall|i: int, j: int|
        0 <= i < s.len() && 0 <= j < s.len() && i != j ==> !(s[i].0 == s[j].0 && s[i].1 == s[j].1)
}

/// No cell is covered by two placed blocks.
pub open spec fn no_overlap(s: Seq<PlacedSpec>) -> bool {
    forall|i: int, j: int, y: int|
        0 <= i < s.len() && 0 <= j < s.len() && i != j && covers(s[i], s[i].0 as int, y) ==> !covers(
            s[j],
            s[i].0 as int,
            y,
        )
}

/// A block with `rows` rows fits at origin `(x, y)`: its cells are `i64`
/// cells, and it has a column on either side.
pub open spec fn in_domain(x: int, y: int, rows: int) -> bool {
    &&& i64::MIN < x < i64::MAX
    &&& 0 <= rows <= i64::MAX
    &&& y + rows <= i64::MAX + 1
}

/// Every placed block lies inside the coordinate range.
pub open spec fn all_in_domain(s: Seq<PlacedSpec>) -> bool {
    forall|i: int| 0 <= i < s.len() ==> in_domain(s[i].0 as int, s[i].1 as int, s[i].2.rows as int)
}

/// The placed blocks of an area are well formed: distinct origins, no
/// overlapping cells, inside the coordinate range.
pub open spec fn blocks_wf(s: Seq<PlacedSpec>) -> bool {
    &&& origins_distinct(s)
    &&& no_overlap(s)
    &&& all_in_domain(s)
}

/// Whether a block of `rows` rows can be placed at `(x, y)`: the cells are inside
/// the coordinate range and not occupied.
pub open spec fn space_at(s: Seq<PlacedSpec>, x: int, y: int, rows: int) -> bool {
    &&& in_domain(x, y, rows)
    &&& forall|c: int| y <= c < y + rows ==> #[trigger] cell_index(s, x, c) is None
}

/// The placed blocks after placing `b` at `(x, y)`; a block with the same
/// origin is replaced.
pub open spec fn insert_placed(s: Seq<PlacedSpec>, x: i64, y: i64, b: BlockSpec) -> Seq<PlacedSpec> {
    match origin_index(s, x as int, y as int) {
        Some(k) => s.update(k, (x, y, b)),
        None => s.push((x, y, b)),
    }
}

/// The placed blocks after placing all of `list` in order.
pub open spec fn insert_all(s: Seq<PlacedSpec>, list: Seq<(BlockSpec, i64, i64)>) -> Seq<PlacedSpec>
    decreases list.len(),
{
    if list.len() == 0 {
        s
    } else {
        let l = list.last();
        insert_placed(insert_all(s, list.drop_last()), l.1, l.2, l.0)
    }
}

/// The model of a chain's loaded blocks.
pub open spec fn load_view(v: Seq<(Box<Block>, i64, i64)>) -> Seq<(BlockSpec, i64, i64)> {
    v.map_values(|e: (Box<Block>, i64, i64)| (e.0@, e.1, e.2))
}

/// The sub area IDs of the placed blocks, in storage order, first before second.
pub open spec fn sub_area_list(s: Seq<PlacedSpec>) -> Seq<usize>
    decreases s.len(),
{
    if s.len() == 0 {
        Seq::empty()
    } else {
        let e = s.last().2;
        let a = sub_area_list(s.drop_last());
        let a = match e.contains.0 {
            Some(c) => a.push(c),
            None => a,
        };
        match e.contains.1 {
            Some(c) => a.push(c),
            None => a,
        }
    }
}

/// `v` clamped to the `usize` range.
pub open spec fn sat(v: int) -> int {
    if v > usize::MAX { usize::MAX as int } else { v }
}

/// The larger of two integers.
pub open spec fn imax(a: int, b: int) -> int {
    if a < b { b } else { a }
}

/// The width and height a placed block needs, given the sizes of the sub areas.
pub open spec fn placed_extent(e: PlacedSpec, sizes: Seq<(usize, usize)>) -> (int, int) {
    let x = imax(e.0 as int, 0);
    let y = imax(e.1 as int, 0);
    let cell_w = if e.2.rows > 0 { x + 1 } else { 1 };
    let cell_h = if e.2.rows > 0 { imax(e.1 + e.2.rows - 1, 0) + 1 } else { 1 };
    let (w0, h0, prev_h) = match e.2.contains.0 {
        Some(c) => (x + sizes[c as int].0 + 1, y + sizes[c as int].1 + 2, sizes[c as int].1 + 2),
        None => (1, 1, 1),
    };
    let (w1, h1) = match e.2.contains.1 {
        Some(c) => (x + sizes[c as int].0 + 1, y + sizes[c as int].1 + prev_h + 1),
        None => (1, 1),
    };
    (imax(cell_w, imax(w0, w1)), imax(cell_h, imax(h0, h1)))
}

/// The smallest size that holds all placed blocks and their sub areas.
pub open spec fn min_extent(s: Seq<PlacedSpec>, sizes: Seq<(usize, usize)>) -> (int, int)
    decreases s.len(),
{
    if s.len() == 0 {
        (1, 1)
    } else {
        let prev = min_extent(s.drop_last(), sizes);
        let e = placed_extent(s.last(), sizes);
        (imax(prev.0, e.0), imax(prev.1, e.1))
    }
}

/// The size an area resolves to, given the sizes of all areas: the smallest
/// extent when it shrinks automatically, else at least its current size.
pub open spec fn resolved_size(a: AreaSpec, sizes: Seq<(usize, usize)>) -> (usize, usize) {
    let m = min_extent(a.blocks, sizes);
    if a.auto_shrink {
        (sat(m.0) as usize, sat(m.1) as usize)
    } else {
        (
            if (a.size.0 as int) < sat(m.0) { sat(m.0) as usize } else { a.size.0 },
            if (a.size.1 as int) < sat(m.1) { sat(m.1) as usize } else { a.size.1 },
        )
    }
}

/// Every sub area ID of the placed blocks is below `n`.
pub open spec fn subs_below(s: Seq<PlacedSpec>, n: nat) -> bool {
    forall|i: int| #![trigger s[i]] 0 <= i < s.len() ==> (s[i].2.contains.0 matches Some(c) ==> c < n) && (
    s[i].2.contains.1 matches Some(c) ==> c < n)
}


/// The port at cell `(x, y)`: the index of the block occupying the cell and
/// the port row, if that block has an (output, if `expect_output`, else input)
/// port in that row.
pub open spec fn port_at(s: Seq<PlacedSpec>, x: int, y: int, expect_output: bool) -> Option<(int, usize)> {
    match cell_index(s, x, y) {
        Some(i) => {
            let py = if y - s[i].1 > 0 { y - s[i].1 } else { 0 };
            let ports = if expect_output { s[i].2.outputs } else { s[i].2.inputs };
            if has_port(ports, py) {
                Some((i, py as usize))
            } else {
                None
            }
        },
        None => None,
    }
}

/// The sink candidates of the first `n` placed blocks in storage order: a block
/// without outputs at its origin, and every output not connected to an input
/// in the next column, at the output's cell with its row.
pub open spec fn sink_candidates(s: Seq<PlacedSpec>, n: int) -> Seq<(i64, i64, Option<usize>)>
    decreases n,
{
    if n <= 0 {
        Seq::empty()
    } else {
        let prev = sink_candidates(s, n - 1);
        let e = s[n - 1];
        if port_count_upto(e.2.outputs, e.2.rows as int) == 0 {
            prev.push((e.0, e.1, None))
        } else {
            prev + unconnected_outputs(s, e, port_list(e.2.outputs, e.2.rows))
        }
    }
}

/// The outputs among `ports` of the placed block `e` with no input next to them.
pub open spec fn unconnected_outputs(s: Seq<PlacedSpec>, e: PlacedSpec, ports: Seq<(usize, Seq<char>)>) -> Seq<
    (i64, i64, Option<usize>),
>
    decreases ports.len(),
{
    if ports.len() == 0 {
        Seq::empty()
    } else {
        let prev = unconnected_outputs(s, e, ports.drop_last());
        let row = ports.last().0;
        if port_at(s, e.0 + 1, e.1 + row, false) is None {
            prev.push((e.0, (e.1 + row) as i64, Some(row)))
        } else {
            prev
        }
    }
}

/// `a` comes before `b` among sinks: lower rows first, then right columns first.
pub open spec fn sink_before(a: (i64, i64, Option<usize>), b: (i64, i64, Option<usize>)) -> bool {
    a.1 > b.1 || (a.1 == b.1 && a.0 >= b.0)
}

/// The sinks are ordered bottom right first.
pub open spec fn sinks_sorted(v: Seq<(i64, i64, Option<usize>)>) -> bool {
    forall|i: int, j: int| 0 <= i < j < v.len() ==> sink_before(v[i], v[j])
}

/// The last unconnected output over the first `n` candidates: the candidate
/// furthest down, and among those furthest right, if it lies after `(0, 0)`
/// in that order; `(x, y, label)`.
pub open spec fn last_unconnected(c: Seq<(i64, i64, Seq<char>)>) -> (int, int, Option<(i64, i64, Seq<char>)>)
    decreases c.len(),
{
    if c.len() == 0 {
        (0, 0, None)
    } else {
        let prev = last_unconnected(c.drop_last());
        let e = c.last();
        if e.1 > prev.1 || (e.1 == prev.1 && e.0 > prev.0) {
            (e.0 as int, e.1 as int, Some(e))
        } else {
            prev
        }
    }
}

/// The unconnected outputs of the first `n` placed blocks, with their labels.
pub open spec fn output_candidates(s: Seq<PlacedSpec>, n: int) -> Seq<(i64, i64, Seq<char>)>
    decreases n,
{
    if n <= 0 {
        Seq::empty()
    } else {
        let e = s[n - 1];
        output_candidates(s, n - 1) + labeled_outputs(s, e, port_list(e.2.outputs, e.2.rows))
    }
}

/// The outputs among `ports` of `e` with no input next to them, with labels.
pub open spec fn labeled_outputs(s: Seq<PlacedSpec>, e: PlacedSpec, ports: Seq<(usize, Seq<char>)>) -> Seq<
    (i64, i64, Seq<char>),
>
    decreases ports.len(),
{
    if ports.len() == 0 {
        Seq::empty()
    } else {
        let prev = labeled_outputs(s, e, ports.drop_last());
        let p = ports.last();
        if port_at(s, e.0 + 1, e.1 + p.0, false) is None {
            prev.push((e.0, (e.1 + p.0) as i64, p.1))
        } else {
            prev
        }
    }
}


/// Every row in a port list is below the row count and the port length, and
/// holds a port.
proof fn lemma_ports_upto_rows(ports: Seq<Option<Seq<char>>>, n: int)
    requires
        n <= usize::MAX,
    ensures
        forall|t: int| 0 <= t < ports_upto(ports, n).len() ==> (ports_upto(ports, n)[t].0 as int) < n
            && has_port(ports, ports_upto(ports, n)[t].0 as int) && ports_upto(ports, n)[t].1 == ports[ports_upto(
            ports,
            n,
        )[t].0 as int]->0,
    decreases n,
{
    if n > 0 {
        lemma_ports_upto_rows(ports, n - 1);
        let prev = ports_upto(ports, n - 1);
        let cur = ports_upto(ports, n);
        assert forall|t: int| 0 <= t < cur.len() implies (cur[t].0 as int) < n && has_port(ports, cur[t].0 as int)
            && cur[t].1 == ports[cur[t].0 as int]->0 by {
            if t < prev.len() {
                assert(cur[t] == prev[t]);
            }
        }
    }
}

/// Every row in a block's port list is below its row count and holds a port.
/// The ports up to `n` come in strictly increasing row order.
proof fn lemma_ports_upto_increasing(ports: Seq<Option<Seq<char>>>, n: int)
    requires
        n <= usize::MAX,
    ensures
        forall|i: int, j: int| 0 <= i < j < ports_upto(ports, n).len() ==> ports_upto(ports, n)[i].0 < ports_upto(ports, n)[j].0,
    decreases n,
{
    if n > 0 {
        lemma_ports_upto_increasing(ports, n - 1);
        lemma_ports_upto_rows(ports, n - 1);
    }
}

/// The input ports that [`Block::for_input_ports_reverse`] lists come
/// in strictly decreasing row order.
pub proof fn law_input_ports_descending(ports: Seq<Option<Seq<char>>>, rows: usize)
    ensures
        forall|i: int, j: int|
            0 <= i < j < port_list(ports, rows).len() ==> port_list(ports, rows).reverse()[i].0 > port_list(ports, rows).reverse()[j].0,
{
    let n = if rows < ports.len() { rows as int } else { ports.len() as int };
    lemma_ports_upto_increasing(ports, n);
    let pl = port_list(ports, rows);
    assert forall|i: int, j: int| 0 <= i < j < pl.len() implies pl.reverse()[i].0 > pl.reverse()[j].0 by {
        assert(pl.reverse()[i] == pl[pl.len() - 1 - i]);
        assert(pl.reverse()[j] == pl[pl.len() - 1 - j]);
    }
}

proof fn lemma_port_list_rows(ports: Seq<Option<Seq<char>>>, rows: usize)
    ensures
        forall|t: int| 0 <= t < port_list(ports, rows).len() ==> #[trigger] port_list(ports, rows)[t].0 < rows
            && has_port(ports, port_list(ports, rows)[t].0 as int) && port_list(ports, rows)[t].1
            == ports[port_list(ports, rows)[t].0 as int]->0,
{
    lemma_ports_upto_rows(ports, if rows < ports.len() { rows as int } else { ports.len() as int });
}

/// Sorts sink candidates bottom right first, keeping the order of equal positions.
fn sort_sinks(v: &mut Vec<(i64, i64, Option<usize>)>)
    ensures
        final(v)@.to_multiset() == old(v)@.to_multiset(),
        sinks_sorted(final(v)@),
{
    broadcast use vstd::seq_lib::group_to_multiset_ensures;
    let mut out: Vec<(i64, i64, Option<usize>)> = Vec::new();
    let mut i: usize = 0;
    while i < v.len()
        invariant
            i <= v@.len(),
            v@ == old(v)@,
            out@.to_multiset() == v@.subrange(0, i as int).to_multiset(),
            sinks_sorted(out@),
        decreases v.len() - i,
    {
        let e = v[i];
        let mut k: usize = out.len();
        while k > 0 && !sink_before_exec(&out[k - 1], &e)
            invariant
                k <= out@.len(),
                forall|j: int| k <= j < out@.len() ==> !sink_before(out@[j], e),
            decreases k,
        {
            k -= 1;
        }
        proof {
            assert(forall|j: int| 0 <= j < k ==> sink_before(out@[j], e)) by {
                if k > 0 {
                    assert(sink_before(out@[k - 1], e));
                    assert forall|j: int| 0 <= j < k implies sink_before(out@[j], e) by {
                        assert(sink_before(out@[j], out@[k - 1]));
                    }
                }
            }
        }
        let ghost before = out@;
        out.insert(k, e);
        proof {
            assert(v@.subrange(0, i + 1) =~= v@.subrange(0, i as int).push(e));
            vstd::seq_lib::to_multiset_insert(before, k as int, e);
            vstd::seq_lib::to_multiset_build(v@.subrange(0, i as int), e);
            assert forall|a: int, b: int| 0 <= a < b < out@.len() implies sink_before(out@[a], out@[b]) by {
                if a < k && b == k {
                } else if a == k {
                    assert(!sink_before(before[b - 1], e));
                } else if b < k {
                } else if a < k {
                    assert(sink_before(before[a], before[b - 1]));
                } else {
                    assert(sink_before(before[a - 1], before[b - 1]));
                }
            }
        }
        i += 1;
    }
    proof {
        assert(v@.subrange(0, v@.len() as int) =~= v@);
    }
    *v = out;
}

/// Whether `a` comes before `b` among sinks.
fn sink_before_exec(a: &(i64, i64, Option<usize>), b: &(i64, i64, Option<usize>)) -> (r: bool)
    ensures
        r == sink_before(*a, *b),
{
    a.1 > b.1 || (a.1 == b.1 && a.0 >= b.0)
}


/// The block reached from block `i` through its port in row `r`: through an
/// input, the output in the previous column; through an output, the input in
/// the next column.
pub open spec fn port_partner(s: Seq<PlacedSpec>, i: int, r: int, input: bool) -> Option<int> {
    let p = if input {
        port_at(s, s[i].0 - 1, s[i].1 + r, true)
    } else {
        port_at(s, s[i].0 + 1, s[i].1 + r, false)
    };
    match p {
        Some((k, _)) => Some(k),
        None => None,
    }
}

/// Block `k` is connected to block `i` through one of the ports of `i`.
pub open spec fn linked(s: Seq<PlacedSpec>, i: int, k: int) -> bool {
    exists|r: int|
        0 <= r < s[i].2.rows && ((has_port(s[i].2.inputs, r) && port_partner(s, i, r, true) == Some(k)) || (
        has_port(s[i].2.outputs, r) && port_partner(s, i, r, false) == Some(k)))
}

/// `p` is a sequence of connected blocks starting at block `a`.
pub open spec fn is_chain_path(s: Seq<PlacedSpec>, a: int, p: Seq<int>) -> bool {
    &&& p.len() > 0
    &&& p[0] == a
    &&& forall|i: int| 0 <= i < p.len() ==> 0 <= #[trigger] p[i] < s.len()
    &&& forall|i: int| 1 <= i < p.len() ==> linked(s, p[i - 1], #[trigger] p[i])
}

/// Block `k` belongs to the chain of connected blocks that contains block `a`.
pub open spec fn chain_member(s: Seq<PlacedSpec>, a: int, k: int) -> bool {
    0 <= k < s.len() && exists|p: Seq<int>| #[trigger] is_chain_path(s, a, p) && p.last() == k
}

/// Whether a block has no input ports.
pub open spec fn no_inputs(b: BlockSpec) -> bool {
    port_list(b.inputs, b.rows).len() == 0
}

/// Whether a block has no output ports.
pub open spec fn no_outputs(b: BlockSpec) -> bool {
    port_list(b.outputs, b.rows).len() == 0
}

/// What a chain is, as the contracts speak of it.
pub ghost struct ChainSpec {
    pub area_id: usize,
    pub blocks: Seq<(i64, i64)>,
    pub sources: Seq<(i64, i64)>,
    pub sinks: Seq<(i64, i64)>,
    pub load: Seq<(BlockSpec, i64, i64)>,
}

/// The chain's block origins are exactly those of the chain of block `a` in
/// `s`; its sources those without inputs and its sinks those without outputs.
pub open spec fn chain_of(s: Seq<PlacedSpec>, a: int, c: ChainSpec) -> bool {
    &&& c.blocks.no_duplicates()
    &&& c.sources.no_duplicates()
    &&& c.sinks.no_duplicates()
    &&& forall|p: (i64, i64)| c.blocks.contains(p) <==> exists|k: int| #[trigger]
        chain_member(s, a, k) && p == (s[k].0, s[k].1)
    &&& forall|p: (i64, i64)| c.sources.contains(p) <==> exists|k: int| #[trigger]
        chain_member(s, a, k) && p == (s[k].0, s[k].1) && no_inputs(s[k].2)
    &&& forall|p: (i64, i64)| c.sinks.contains(p) <==> exists|k: int| #[trigger]
        chain_member(s, a, k) && p == (s[k].0, s[k].1) && no_outputs(s[k].2)
}


/// `a` comes before or together with `b` among loaded blocks: by column, then row.
pub open spec fn load_le(a: (BlockSpec, i64, i64), b: (BlockSpec, i64, i64)) -> bool {
    a.1 < b.1 || (a.1 == b.1 && a.2 <= b.2)
}

/// The loaded blocks are sorted by column, then row.
pub open spec fn load_sorted(v: Seq<(BlockSpec, i64, i64)>) -> bool {
    forall|i: int, j: int| 0 <= i < j < v.len() ==> load_le(v[i], v[j])
}

/// The loaded blocks moved by `(xo, yo)`.
pub open spec fn load_moved(v: Seq<(BlockSpec, i64, i64)>, xo: int, yo: int) -> Seq<(BlockSpec, i64, i64)> {
    v.map_values(|e: (BlockSpec, i64, i64)| (e.0, (e.1 + xo) as i64, (e.2 + yo) as i64))
}

/// Moving every loaded block by `(xo, yo)` stays inside the `i64` range.
pub open spec fn load_move_fits(v: Seq<(BlockSpec, i64, i64)>, xo: int, yo: int) -> bool {
    forall|i: int| #![trigger v[i]] 0 <= i < v.len() ==> i64::MIN <= v[i].1 + xo <= i64::MAX && i64::MIN <= v[i].2
        + yo <= i64::MAX
}

/// The smallest column and row among the loaded blocks, starting from 100000000.
pub open spec fn load_min(v: Seq<(BlockSpec, i64, i64)>) -> (i64, i64)
    decreases v.len(),
{
    if v.len() == 0 {
        (100000000, 100000000)
    } else {
        let m = load_min(v.drop_last());
        let e = v.last();
        (if e.1 < m.0 { e.1 } else { m.0 }, if e.2 < m.1 { e.2 } else { m.1 })
    }
}

/// The state of an area and the loaded blocks after taking the blocks at the
/// first `k` positions out of the area, in order.
pub open spec fn removal_steps(s: Seq<PlacedSpec>, pos: Seq<(i64, i64)>, k: int) -> (Seq<PlacedSpec>, Seq<(BlockSpec, i64, i64)>)
    decreases k,
{
    if k <= 0 {
        (s, Seq::empty())
    } else {
        let (a, l) = removal_steps(s, pos, k - 1);
        match cell_index(a, pos[k - 1].0 as int, pos[k - 1].1 as int) {
            Some(i) => (a.remove(i), l.push((a[i].2, a[i].0, a[i].1))),
            None => (a, l),
        }
    }
}

/// The blocks at the first `k` positions, copied out of the area with IDs
/// counting up from `id + 1`.
pub open spec fn clone_steps(s: Seq<PlacedSpec>, pos: Seq<(i64, i64)>, id: nat, k: int) -> Seq<(BlockSpec, i64, i64)>
    decreases k,
{
    if k <= 0 {
        Seq::empty()
    } else {
        let l = clone_steps(s, pos, id, k - 1);
        match cell_index(s, pos[k - 1].0 as int, pos[k - 1].1 as int) {
            Some(i) => l.push((BlockSpec { id: id_after(id, l.len() + 1), ..s[i].2 }, s[i].0, s[i].1)),
            None => l,
        }
    }
}

/// The input cells in column `x + 1` that are connected to an output in column `x`.
pub open spec fn load_outputs_at(v: Seq<(BlockSpec, i64, i64)>, x: int) -> Seq<int>
    decreases v.len(),
{
    if v.len() == 0 {
        Seq::empty()
    } else {
        let e = v.last();
        load_outputs_at(v.drop_last(), x) + if e.1 == x {
            port_list(e.0.outputs, e.0.rows).map_values(|p: (usize, Seq<char>)| e.2 + p.0)
        } else {
            Seq::empty()
        }
    }
}

/// The input cells in column `x + 1` whose row is among `outs`.
pub open spec fn load_connected_inputs(v: Seq<(BlockSpec, i64, i64)>, x: int, outs: Seq<int>) -> Seq<(i64, i64)>
    decreases v.len(),
{
    if v.len() == 0 {
        Seq::empty()
    } else {
        let e = v.last();
        load_connected_inputs(v.drop_last(), x, outs) + if e.1 == x + 1 {
            port_list(e.0.inputs, e.0.rows).filter(|p: (usize, Seq<char>)| outs.contains(e.2 + p.0)).map_values(
                |p: (usize, Seq<char>)| (e.1, (e.2 + p.0) as i64),
            )
        } else {
            Seq::empty()
        }
    }
}

/// Every loaded block, moved by `(xo, yo)`, has space in the placed blocks `s`.
pub open spec fn load_has_space(s: Seq<PlacedSpec>, v: Seq<(BlockSpec, i64, i64)>, xo: int, yo: int) -> bool {
    forall|i: int| #![trigger v[i]] 0 <= i < v.len() ==> space_at(s, v[i].1 + xo, v[i].2 + yo, v[i].0.rows as int)
}

/// Every loaded block's rows fit below the `i64` limit.
pub open spec fn load_rows_fit(v: Seq<(BlockSpec, i64, i64)>) -> bool {
    forall|i: int| #![trigger v[i]] 0 <= i < v.len() ==> v[i].2 + v[i].0.rows <= i64::MAX + 1 && v[i].0.rows <= i64::MAX
}


/// The loaded blocks with every block right of column `x` moved one column right.
pub open spec fn load_split_shift(v: Seq<(BlockSpec, i64, i64)>, x: int) -> Seq<(BlockSpec, i64, i64)> {
    v.map_values(|e: (BlockSpec, i64, i64)| (e.0, if e.1 > x { (e.1 + 1) as i64 } else { e.1 }, e.2))
}

/// Every loaded block can move one column to the right.
pub open spec fn load_cols_below_max(v: Seq<(BlockSpec, i64, i64)>) -> bool {
    forall|i: int| #![trigger v[i]] 0 <= i < v.len() ==> v[i].1 < i64::MAX
}

/// Filler blocks of type `t` at the positions of `pos` whose row is not `y`, in
/// order, with IDs counting up from `id + 1`.
pub open spec fn filler_blocks(pos: Seq<(i64, i64)>, y: i64, t: TypeSpec, id: nat) -> Seq<(BlockSpec, i64, i64)>
    decreases pos.len(),
{
    if pos.len() == 0 {
        Seq::empty()
    } else {
        let prev = filler_blocks(pos.drop_last(), y, t, id);
        let p = pos.last();
        if p.1 == y {
            prev
        } else {
            prev.push((type_instance(t, id_after(id, prev.len() + 1), t.name), p.0, p.1))
        }
    }
}

/// The filler blocks that a split adds, if there is a filler type.
pub open spec fn split_fillers(
    v: Seq<(BlockSpec, i64, i64)>,
    x: int,
    y: i64,
    filler: Option<TypeSpec>,
    id: nat,
) -> Seq<(BlockSpec, i64, i64)> {
    match filler {
        Some(t) => filler_blocks(load_connected_inputs(v, x, load_outputs_at(v, x)), y, t, id),
        None => Seq::empty(),
    }
}

/// The offsets that fitting a load into an area tries, in order.
pub open spec fn fit_offsets() -> Seq<(i64, i64)> {
    seq![
        (0i64, 0i64), (0i64, -1i64), (0i64, -2i64), (0i64, -3i64), (-1i64, 0i64), (-1i64, -1i64), (-1i64,
        -2i64), (-1i64, -3i64), (1i64, 0i64), (1i64, -1i64), (1i64, -2i64), (1i64, -3i64), (0i64, 1i64),
        (0i64, 2i64), (0i64, 3i64), (-1i64, 1i64), (-1i64, 2i64), (-1i64, 3i64), (1i64, 1i64), (1i64, 2i64),
        (1i64, 3i64),
    ]
}

/// The index of the first of the first `n` offsets at which the load has space.
pub open spec fn first_fit(s: Seq<PlacedSpec>, v: Seq<(BlockSpec, i64, i64)>, n: int) -> Option<int>
    decreases n,
{
    if n <= 0 {
        None
    } else {
        match first_fit(s, v, n - 1) {
            Some(k) => Some(k),
            None => {
                let o = fit_offsets()[n - 1];
                if load_has_space(s, v, o.0 as int, o.1 as int) {
                    Some(n - 1)
                } else {
                    None
                }
            },
        }
    }
}

/// Offset `k` of [`fit_offsets`] exists and moves by at most one column and three rows.
pub open spec fn fit_offset_small(k: int) -> bool {
    0 <= k < 21 && -1 <= fit_offsets()[k].0 <= 1 && -3 <= fit_offsets()[k].1 <= 3
}

/// Every loaded block can move by up to one column and three rows.
pub open spec fn load_near_fits(v: Seq<(BlockSpec, i64, i64)>) -> bool {
    forall|i: int| #![trigger v[i]] 0 <= i < v.len() ==> i64::MIN + 3 <= v[i].1 <= i64::MAX - 3 && i64::MIN + 3
        <= v[i].2 <= i64::MAX - 3
}

/// The offset that `first_fit` finds is one at which the load has space.
proof fn lemma_first_fit_space(s: Seq<PlacedSpec>, v: Seq<(BlockSpec, i64, i64)>, n: int)
    requires
        first_fit(s, v, n) is Some,
    ensures
        0 <= first_fit(s, v, n)->0 < n,
        load_has_space(
            s,
            v,
            fit_offsets()[first_fit(s, v, n)->0].0 as int,
            fit_offsets()[first_fit(s, v, n)->0].1 as int,
        ),
    decreases n,
{
    if n > 0 && first_fit(s, v, n - 1) is Some {
        lemma_first_fit_space(s, v, n - 1);
    }
}

/// Once an offset fits, later counts find the same one.
proof fn lemma_first_fit_stays(s: Seq<PlacedSpec>, v: Seq<(BlockSpec, i64, i64)>, k: int, n: int)
    requires
        0 <= k <= n,
        first_fit(s, v, k) is Some,
    ensures
        first_fit(s, v, n) == first_fit(s, v, k),
    decreases n - k,
{
    if k < n {
        lemma_first_fit_stays(s, v, k, n - 1);
    }
}

/// Sorts loaded blocks by column, then row, keeping the order of equal positions.
fn sort_load(v: &mut Vec<(Box<Block>, i64, i64)>)
    ensures
        load_view(final(v)@).to_multiset() == load_view(old(v)@).to_multiset(),
        load_sorted(load_view(final(v)@)),
{
    broadcast use vstd::seq_lib::group_to_multiset_ensures;
    let ghost orig = load_view(v@);
    let mut out: Vec<(Box<Block>, i64, i64)> = Vec::new();
    let ghost mut taken: int = 0;
    while v.len() > 0
        invariant
            0 <= taken <= orig.len(),
            load_view(v@) == orig.subrange(taken, orig.len() as int),
            taken + v@.len() == orig.len(),
            load_view(out@).to_multiset() == orig.subrange(0, taken).to_multiset(),
            load_sorted(load_view(out@)),
        decreases v.len(),
    {
        let ghost vb = v@;
        let e = v.remove(0);
        let ghost ev = (e.0@, e.1, e.2);
        proof {
            assert(load_view(vb)[0] == ev);
            assert(orig.subrange(taken, orig.len() as int)[0] == orig[taken]);
            assert(orig[taken] == ev);
        }
        let ghost ov = load_view(out@);
        let mut k: usize = out.len();
        while k > 0 && !(out[k - 1].1 < e.1 || (out[k - 1].1 == e.1 && out[k - 1].2 <= e.2))
            invariant
                k <= out@.len(),
                ov == load_view(out@),
                ev == (e.0@, e.1, e.2),
                forall|j: int| k <= j < ov.len() ==> !load_le(ov[j], ev),
            decreases k,
        {
            proof {
                assert(ov[k - 1] == (out@[k - 1].0@, out@[k - 1].1, out@[k - 1].2));
            }
            k -= 1;
        }
        proof {
            if k > 0 {
                assert(load_le(ov[k - 1], ev));
                assert forall|j: int| 0 <= j < k implies load_le(ov[j], ev) by {
                    assert(load_le(ov[j], ov[k - 1]));
                }
            }
        }
        out.insert(k, e);
        proof {
            assert(load_view(out@) =~= ov.insert(k as int, ev));
            vstd::seq_lib::to_multiset_insert(ov, k as int, ev);
            assert(orig.subrange(0, taken + 1) =~= orig.subrange(0, taken).push(ev));
            vstd::seq_lib::to_multiset_build(orig.subrange(0, taken), ev);
            let nv = load_view(out@);
            assert forall|a: int, b: int| 0 <= a < b < nv.len() implies load_le(nv[a], nv[b]) by {
                if a < k && b == k {
                } else if a == k {
                    assert(!load_le(ov[b - 1], ev));
                } else if b < k {
                } else if a < k {
                    assert(load_le(ov[a], ov[b - 1]));
                } else {
                    assert(load_le(ov[a - 1], ov[b - 1]));
                }
            }
            assert forall|i: int| 0 <= i < load_view(v@).len() implies load_view(v@)[i] == orig.subrange(
                taken + 1,
                orig.len() as int,
            )[i] by {
                assert(v@[i] == vb[i + 1]);
                assert(load_view(v@)[i] == (v@[i].0@, v@[i].1, v@[i].2));
                assert(load_view(vb)[i + 1] == (vb[i + 1].0@, vb[i + 1].1, vb[i + 1].2));
                assert(load_view(vb)[i + 1] == orig.subrange(taken, orig.len() as int)[i + 1]);
            }
            assert(load_view(v@) =~= orig.subrange(taken + 1, orig.len() as int));
            taken = taken + 1;
        }
    }
    proof {
        assert(orig.subrange(0, orig.len() as int) =~= orig);
    }
    *v = out;
}

/// A chain of connected blocks taken from an area, with the blocks loaded
/// out of it (cloned or removed) for moving them around.
#[derive(Debug)]
pub struct BlockChain {
    /// The area ID this chain was created from.
    area_id: usize,
    /// The origins of the blocks of the chain.
    blocks: Vec<(i64, i64)>,
    /// The origins of the blocks with only output ports.
    sources: Vec<(i64, i64)>,
    /// The origins of the blocks with only input ports.
    sinks: Vec<(i64, i64)>,
    /// The loaded blocks with their positions, sorted by column, then row.
    load: Vec<(Box<Block>, i64, i64)>,
}

impl View for BlockChain {
    type V = ChainSpec;

    closed spec fn view(&self) -> ChainSpec {
        ChainSpec {
            area_id: self.area_id,
            blocks: self.blocks@,
            sources: self.sources@,
            sinks: self.sinks@,
            load: load_view(self.load@),
        }
    }
}

/// Every present port row below the row count appears in the port list.
proof fn lemma_port_list_complete(ports: Seq<Option<Seq<char>>>, rows: usize, r: int)
    requires
        0 <= r < rows,
        has_port(ports, r),
    ensures
        exists|t: int| 0 <= t < port_list(ports, rows).len() && port_list(ports, rows)[t].0 == r,
{
    let nn = if rows < ports.len() { rows as int } else { ports.len() as int };
    assert(port_list(ports, rows) == ports_upto(ports, nn));
    lemma_ports_upto_complete(ports, nn, r);
}

/// Every present port row below `n` appears in `ports_upto(ports, n)`.
proof fn lemma_ports_upto_complete(ports: Seq<Option<Seq<char>>>, n: int, r: int)
    requires
        0 <= r < n,
        n <= usize::MAX,
        has_port(ports, r),
    ensures
        exists|t: int| 0 <= t < ports_upto(ports, n).len() && ports_upto(ports, n)[t].0 == r,
    decreases n,
{
    let prev = ports_upto(ports, n - 1);
    if r < n - 1 {
        lemma_ports_upto_complete(ports, n - 1, r);
        let t = choose|t: int| 0 <= t < prev.len() && prev[t].0 == r;
        assert(ports_upto(ports, n)[t] == prev[t]);
    } else {
        assert(ports_upto(ports, n)[prev.len() as int].0 == r);
    }
}

/// A block linked to a chain member is a chain member.
proof fn lemma_member_linked(s: Seq<PlacedSpec>, a: int, m: int, k: int)
    requires
        chain_member(s, a, m),
        linked(s, m, k),
        0 <= k < s.len(),
    ensures
        chain_member(s, a, k),
{
    let p = choose|p: Seq<int>| #[trigger] is_chain_path(s, a, p) && p.last() == m;
    let q = p.push(k);
    assert forall|i: int| 1 <= i < q.len() implies linked(s, q[i - 1], #[trigger] q[i]) by {
        if i < p.len() {
            assert(q[i] == p[i] && q[i - 1] == p[i - 1]);
        }
    }
    assert(is_chain_path(s, a, q));
}

/// A block is a member of its own chain.
proof fn lemma_member_start(s: Seq<PlacedSpec>, a: int)
    requires
        0 <= a < s.len(),
    ensures
        chain_member(s, a, a),
{
    let p = seq![a];
    assert(is_chain_path(s, a, p));
}

/// Every member of the chain of `a` is in a set that contains `a` and is
/// closed under connections.
proof fn lemma_reach_closed(s: Seq<PlacedSpec>, a: int, vis: Seq<bool>, k: int)
    requires
        vis.len() == s.len(),
        0 <= a < s.len(),
        vis[a],
        forall|i: int, j: int| 0 <= i < s.len() && 0 <= j < s.len() && vis[i] && #[trigger] linked(s, i, j) ==> vis[j],
        chain_member(s, a, k),
    ensures
        vis[k],
{
    let p = choose|p: Seq<int>| #[trigger] is_chain_path(s, a, p) && p.last() == k;
    lemma_path_visited(s, a, vis, p, p.len() - 1);
}

/// Every block of a chain path is in a closed set that contains its start.
proof fn lemma_path_visited(s: Seq<PlacedSpec>, a: int, vis: Seq<bool>, p: Seq<int>, i: int)
    requires
        vis.len() == s.len(),
        vis[a],
        forall|i: int, j: int| 0 <= i < s.len() && 0 <= j < s.len() && vis[i] && #[trigger] linked(s, i, j) ==> vis[j],
        is_chain_path(s, a, p),
        0 <= i < p.len(),
    ensures
        vis[p[i]],
    decreases i,
{
    if i > 0 {
        lemma_path_visited(s, a, vis, p, i - 1);
        assert(linked(s, p[i - 1], p[i]));
        assert(0 <= p[i - 1] < s.len() && 0 <= p[i] < s.len());
    }
}


/// The bookkeeping of the chain search: `order` lists the visited blocks in
/// visiting order, `blocks` their origins, `sources` and `sinks` the origins
/// of visited blocks without inputs or outputs.
#[verifier::opaque]
spec fn found_ok(
    s: Seq<PlacedSpec>,
    visited: Seq<bool>,
    blocks: Seq<(i64, i64)>,
    sources: Seq<(i64, i64)>,
    sinks: Seq<(i64, i64)>,
    order: Seq<int>,
) -> bool {
    let n = s.len();
    &&& visited.len() == n
    &&& order.len() == blocks.len()
    &&& order.no_duplicates()
    &&& forall|k: int| 0 <= k < n ==> (visited[k] <==> order.contains(k))
    &&& forall|q: int| 0 <= q < order.len() ==> 0 <= #[trigger] order[q] < n && blocks[q] == (s[order[q]].0, s[order[q]].1)
    &&& forall|p: (i64, i64)| sources.contains(p) <==> exists|k: int| 0 <= k < n && #[trigger] visited[k] && p == (s[k].0, s[k].1) && no_inputs(s[k].2)
    &&& forall|p: (i64, i64)| sinks.contains(p) <==> exists|k: int| 0 <= k < n && #[trigger] visited[k] && p == (s[k].0, s[k].1) && no_outputs(s[k].2)
    &&& sources.no_duplicates()
    &&& sinks.no_duplicates()
}

/// The visited blocks are distinct, so there are at most as many as blocks.
proof fn lemma_found_order_len(
    s: Seq<PlacedSpec>,
    visited: Seq<bool>,
    blocks: Seq<(i64, i64)>,
    sources: Seq<(i64, i64)>,
    sinks: Seq<(i64, i64)>,
    order: Seq<int>,
)
    requires
        found_ok(s, visited, blocks, sources, sinks, order),
    ensures
        order.len() <= s.len(),
{
    reveal(found_ok);
    let set_o = order.to_set();
    order.unique_seq_to_set();
    assert(set_o.subset_of(vstd::set_lib::set_int_range(0, s.len() as int)));
    vstd::set_lib::lemma_int_range(0, s.len() as int);
    vstd::set_lib::lemma_len_subset(set_o, vstd::set_lib::set_int_range(0, s.len() as int));
}


impl BlockChain {
    /// Moves every loaded block by `(xo, yo)`.
    pub fn move_by_offs(&mut self, xo: i64, yo: i64)
        requires
            load_move_fits(old(self)@.load, xo as int, yo as int),
        ensures
            final(self)@ == (ChainSpec { load: load_moved(old(self)@.load, xo as int, yo as int), ..old(self)@ }),
    {
        let ghost l0 = self@.load;
        let mut nl: Vec<(Box<Block>, i64, i64)> = Vec::new();
        let ghost mut taken: int = 0;
        while self.load.len() > 0
            invariant
                0 <= taken <= l0.len(),
                load_view(self.load@) == l0.subrange(taken, l0.len() as int),
                taken + self.load@.len() == l0.len(),
                load_view(nl@) == load_moved(l0.subrange(0, taken), xo as int, yo as int),
                load_move_fits(l0, xo as int, yo as int),
                self.area_id == old(self).area_id,
                self.blocks@ == old(self).blocks@,
                self.sources@ == old(self).sources@,
                self.sinks@ == old(self).sinks@,
            decreases self.load.len(),
        {
            let ghost vb = self.load@;
            let e = self.load.remove(0);
            proof {
                assert(load_view(vb)[0] == (e.0@, e.1, e.2));
                assert(l0.subrange(taken, l0.len() as int)[0] == l0[taken]);
                assert(l0[taken] == (e.0@, e.1, e.2));
            }
            nl.push((e.0, e.1 + xo, e.2 + yo));
            proof {
                assert(l0.subrange(0, taken + 1) =~= l0.subrange(0, taken).push(l0[taken]));
                assert(load_view(nl@) =~= load_moved(l0.subrange(0, taken), xo as int, yo as int).push((e.0@, (e.1 + xo) as i64, (e.2 + yo) as i64)));
                assert(load_view(nl@) =~= load_moved(l0.subrange(0, taken + 1), xo as int, yo as int));
                assert forall|i: int| 0 <= i < load_view(self.load@).len() implies load_view(self.load@)[i]
                    == l0.subrange(taken + 1, l0.len() as int)[i] by {
                    assert(self.load@[i] == vb[i + 1]);
                    assert(load_view(self.load@)[i] == (self.load@[i].0@, self.load@[i].1, self.load@[i].2));
                    assert(load_view(vb)[i + 1] == (vb[i + 1].0@, vb[i + 1].1, vb[i + 1].2));
                    assert(load_view(vb)[i + 1] == l0.subrange(taken, l0.len() as int)[i + 1]);
                }
                assert(load_view(self.load@) =~= l0.subrange(taken + 1, l0.len() as int));
                taken = taken + 1;
            }
        }
        self.load = nl;
        proof {
            assert(l0.subrange(0, l0.len() as int) =~= l0);
        }
    }

    /// Moves the loaded blocks so that the top left most one is at `(0, 0)`
    /// (counting from at most `(100000000, 100000000)`), sorts them, and
    /// returns the top left corner it had before.
    pub fn normalize_load_pos(&mut self) -> (r: (i64, i64))
        requires
            load_move_fits(old(self)@.load, -(load_min(old(self)@.load).0 as int), -(load_min(old(self)@.load).1 as int)),
        ensures
            r == load_min(old(self)@.load),
            final(self)@.load.to_multiset() == load_moved(old(self)@.load, -r.0, -r.1).to_multiset(),
            load_sorted(final(self)@.load),
            final(self)@.area_id == old(self)@.area_id,
            final(self)@.blocks == old(self)@.blocks,
            final(self)@.sources == old(self)@.sources,
            final(self)@.sinks == old(self)@.sinks,
    {
        let ghost l0 = self@.load;
        let mut min_x: i64 = 100000000;
        let mut min_y: i64 = 100000000;
        let mut i: usize = 0;
        while i < self.load.len()
            invariant
                i <= self.load@.len(),
                l0 == load_view(self.load@),
                (min_x, min_y) == load_min(l0.subrange(0, i as int)),
            decreases self.load.len() - i,
        {
            proof {
                assert(l0.subrange(0, i + 1).drop_last() =~= l0.subrange(0, i as int));
                assert(l0[i as int] == (self.load@[i as int].0@, self.load@[i as int].1, self.load@[i as int].2));
            }
            if self.load[i].1 < min_x {
                min_x = self.load[i].1;
            }
            if self.load[i].2 < min_y {
                min_y = self.load[i].2;
            }
            i += 1;
        }
        proof {
            assert(l0.subrange(0, l0.len() as int) =~= l0);
        }
        self.shift_back(min_x, min_y);
        self.sort_load_pos();
        (min_x, min_y)
    }

    /// Moves every loaded block by `(-xm, -ym)`.
    fn shift_back(&mut self, xm: i64, ym: i64)
        requires
            load_move_fits(old(self)@.load, -(xm as int), -(ym as int)),
        ensures
            final(self)@ == (ChainSpec { load: load_moved(old(self)@.load, -(xm as int), -(ym as int)), ..old(self)@ }),
    {
        let ghost l0 = self@.load;
        let mut nl: Vec<(Box<Block>, i64, i64)> = Vec::new();
        let ghost mut taken: int = 0;
        while self.load.len() > 0
            invariant
                0 <= taken <= l0.len(),
                load_view(self.load@) == l0.subrange(taken, l0.len() as int),
                taken + self.load@.len() == l0.len(),
                load_view(nl@) == load_moved(l0.subrange(0, taken), -(xm as int), -(ym as int)),
                load_move_fits(l0, -(xm as int), -(ym as int)),
                self.area_id == old(self).area_id,
                self.blocks@ == old(self).blocks@,
                self.sources@ == old(self).sources@,
                self.sinks@ == old(self).sinks@,
            decreases self.load.len(),
        {
            let ghost vb = self.load@;
            let e = self.load.remove(0);
            proof {
                assert(load_view(vb)[0] == (e.0@, e.1, e.2));
                assert(l0.subrange(taken, l0.len() as int)[0] == l0[taken]);
                assert(l0[taken] == (e.0@, e.1, e.2));
            }
            nl.push((e.0, e.1 - xm, e.2 - ym));
            proof {
                assert(l0.subrange(0, taken + 1) =~= l0.subrange(0, taken).push(l0[taken]));
                assert(load_view(nl@) =~= load_moved(l0.subrange(0, taken), -(xm as int), -(ym as int)).push((e.0@, (e.1 - xm) as i64, (e.2 - ym) as i64)));
                assert(load_view(nl@) =~= load_moved(l0.subrange(0, taken + 1), -(xm as int), -(ym as int)));
                assert forall|i: int| 0 <= i < load_view(self.load@).len() implies load_view(self.load@)[i]
                    == l0.subrange(taken + 1, l0.len() as int)[i] by {
                    assert(self.load@[i] == vb[i + 1]);
                    assert(load_view(self.load@)[i] == (self.load@[i].0@, self.load@[i].1, self.load@[i].2));
                    assert(load_view(vb)[i + 1] == (vb[i + 1].0@, vb[i + 1].1, vb[i + 1].2));
                    assert(load_view(vb)[i + 1] == l0.subrange(taken, l0.len() as int)[i + 1]);
                }
                assert(load_view(self.load@) =~= l0.subrange(taken + 1, l0.len() as int));
                taken = taken + 1;
            }
        }
        self.load = nl;
        proof {
            assert(l0.subrange(0, l0.len() as int) =~= l0);
        }
    }

    /// Sorts the loaded blocks by column, then row.
    fn sort_load_pos(&mut self)
        ensures
            final(self)@.load.to_multiset() == load_view(old(self).load@).to_multiset(),
            load_sorted(final(self)@.load),
            final(self)@.area_id == old(self)@.area_id,
            final(self)@.blocks == old(self)@.blocks,
            final(self)@.sources == old(self)@.sources,
            final(self)@.sinks == old(self)@.sinks,
    {
        sort_load(&mut self.load);
    }

    /// The input cells in column `x_split + 1` of the loaded blocks that are
    /// connected to an output of a loaded block in column `x_split`.
    pub fn get_connected_inputs_from_load_at_x(&self, x_split: i64) -> (r: Vec<(i64, i64)>)
        requires
            x_split < i64::MAX,
            load_rows_fit(self@.load),
        ensures
            r@ == load_connected_inputs(self@.load, x_split as int, load_outputs_at(self@.load, x_split as int)),
    {
        let ghost l0 = self@.load;
        let mut output_points: Vec<i64> = Vec::new();
        let mut i: usize = 0;
        while i < self.load.len()
            invariant
                i <= self.load@.len(),
                l0 == load_view(self.load@),
                load_rows_fit(l0),
                output_points@.map_values(|v: i64| v as int) == load_outputs_at(l0.subrange(0, i as int), x_split as int),
            decreases self.load.len() - i,
        {
            let ghost pre = l0.subrange(0, i as int);
            proof {
                assert(l0.subrange(0, i + 1).drop_last() =~= pre);
                assert(l0[i as int] == (self.load@[i as int].0@, self.load@[i as int].1, self.load@[i as int].2));
            }
            let ghost base = output_points@.map_values(|v: i64| v as int);
            if self.load[i].1 == x_split {
                let y = self.load[i].2;
                let outs = self.load[i].0.for_output_ports();
                let ghost pl = labels_view(outs@);
                proof {
                    lemma_port_list_rows(l0[i as int].0.outputs, l0[i as int].0.rows);
                }
                let mut j: usize = 0;
                while j < outs.len()
                    invariant
                        j <= outs@.len(),
                        pl == labels_view(outs@),
                        i < l0.len(),
                        pl == port_list(l0[i as int].0.outputs, l0[i as int].0.rows),
                        forall|t: int| 0 <= t < pl.len() ==> #[trigger] pl[t].0 < l0[i as int].0.rows,
                        y + l0[i as int].0.rows <= i64::MAX + 1,
                        l0[i as int].0.rows <= i64::MAX,
                        y == l0[i as int].2,
                        output_points@.map_values(|v: i64| v as int) == base + pl.subrange(0, j as int).map_values(
                            |p: (usize, Seq<char>)| y + p.0,
                        ),
                    decreases outs.len() - j,
                {
                    proof {
                        assert(pl[j as int].0 == outs@[j as int].0);
                        assert(pl.subrange(0, j + 1) =~= pl.subrange(0, j as int).push(pl[j as int]));
                    }
                    let ghost op0 = output_points@;
                    let nv: i64 = y + outs[j].0 as i64;
                    output_points.push(nv);
                    j += 1;
                    proof {
                        assert(output_points@.map_values(|v: i64| v as int) =~= op0.map_values(|v: i64| v as int).push(
                            nv as int,
                        ));
                        assert(pl.subrange(0, j as int).map_values(|p: (usize, Seq<char>)| y + p.0) =~= pl.subrange(
                            0,
                            j - 1,
                        ).map_values(|p: (usize, Seq<char>)| y + p.0).push(y + pl[j - 1].0));
                        assert(output_points@.map_values(|v: i64| v as int) =~= base + pl.subrange(0, j as int).map_values(
                            |p: (usize, Seq<char>)| y + p.0,
                        ));
                    }
                }
                proof {
                    assert(pl.subrange(0, pl.len() as int) =~= pl);
                }
            }
            i += 1;
        }
        proof {
            assert(l0.subrange(0, l0.len() as int) =~= l0);
        }
        let ghost outs_all = load_outputs_at(l0, x_split as int);
        let mut connection_pos: Vec<(i64, i64)> = Vec::new();
        let mut i: usize = 0;
        let xn: i64 = x_split + 1;
        while i < self.load.len()
            invariant
                i <= self.load@.len(),
                l0 == load_view(self.load@),
                load_rows_fit(l0),
                xn == x_split + 1,
                output_points@.map_values(|v: i64| v as int) == outs_all,
                connection_pos@ == load_connected_inputs(l0.subrange(0, i as int), x_split as int, outs_all),
            decreases self.load.len() - i,
        {
            let ghost pre = l0.subrange(0, i as int);
            proof {
                assert(l0.subrange(0, i + 1).drop_last() =~= pre);
                assert(l0[i as int] == (self.load@[i as int].0@, self.load@[i as int].1, self.load@[i as int].2));
            }
            let ghost base = connection_pos@;
            if self.load[i].1 == xn {
                let x = self.load[i].1;
                let y = self.load[i].2;
                let ins = self.load[i].0.for_input_ports();
                let ghost pl = labels_view(ins@);
                let ghost pred = |p: (usize, Seq<char>)| outs_all.contains(y + p.0);
                let ghost mapf = |p: (usize, Seq<char>)| (x, (y + p.0) as i64);
                proof {
                    lemma_port_list_rows(l0[i as int].0.inputs, l0[i as int].0.rows);
                }
                let mut j: usize = 0;
                while j < ins.len()
                    invariant
                        j <= ins@.len(),
                        pl == labels_view(ins@),
                        i < l0.len(),
                        pl == port_list(l0[i as int].0.inputs, l0[i as int].0.rows),
                        forall|t: int| 0 <= t < pl.len() ==> #[trigger] pl[t].0 < l0[i as int].0.rows,
                        y + l0[i as int].0.rows <= i64::MAX + 1,
                        l0[i as int].0.rows <= i64::MAX,
                        y == l0[i as int].2,
                        x == l0[i as int].1,
                        output_points@.map_values(|v: i64| v as int) == outs_all,
                        pred == (|p: (usize, Seq<char>)| outs_all.contains(y + p.0)),
                        mapf == (|p: (usize, Seq<char>)| (x, (y + p.0) as i64)),
                        connection_pos@ == base + pl.subrange(0, j as int).filter(pred).map_values(mapf),
                    decreases ins.len() - j,
                {
                    proof {
                        assert(pl[j as int].0 == ins@[j as int].0);
                        assert(pl.subrange(0, j + 1).drop_last() =~= pl.subrange(0, j as int));
                        reveal(Seq::filter);
                    }
                    let yi: i64 = y + ins[j].0 as i64;
                    let mut found = false;
                    let mut t: usize = 0;
                    while t < output_points.len()
                        invariant
                            t <= output_points@.len(),
                            found == exists|q: int| 0 <= q < t && output_points@[q] == yi,
                        decreases output_points.len() - t,
                    {
                        if output_points[t] == yi {
                            found = true;
                        }
                        t += 1;
                    }
                    proof {
                        let om = output_points@.map_values(|v: i64| v as int);
                        if found {
                            let q = choose|q: int| 0 <= q < t && output_points@[q] == yi;
                            assert(om[q] == yi as int);
                        } else {
                            if outs_all.contains(yi as int) {
                                let q = choose|q: int| 0 <= q < om.len() && om[q] == yi as int;
                                assert(output_points@[q] == yi);
                            }
                        }
                        assert(found == pred(pl[j as int]));
                    }
                    if found {
                        connection_pos.push((x, yi));
                    }
                    j += 1;
                    proof {
                        assert(connection_pos@ =~= base + pl.subrange(0, j as int).filter(pred).map_values(mapf));
                    }
                }
                proof {
                    assert(pl.subrange(0, pl.len() as int) =~= pl);
                }
            }
            i += 1;
        }
        proof {
            assert(l0.subrange(0, l0.len() as int) =~= l0);
        }
        connection_pos
    }

    /// Moves every loaded block right of column `x_split` one column to the
    /// right and, with a filler type, fills each input in column `x_split + 1`
    /// that an output in column `x_split` fed, except the one in row `y_split`,
    /// with a new filler block; then sorts the load.
    pub fn split_load_after_x(
        &mut self,
        x_split: i64,
        y_split: i64,
        filler: Option<&BlockType>,
        id_gen: &mut BlockIDGenerator,
    )
        requires
            x_split < i64::MAX,
            load_rows_fit(old(self)@.load),
            load_cols_below_max(old(self)@.load),
        ensures
            final(self)@.load.to_multiset() == (load_split_shift(old(self)@.load, x_split as int) + split_fillers(
                old(self)@.load,
                x_split as int,
                y_split,
                match filler {
                    Some(t) => Some(type_spec(*t)),
                    None => None,
                },
                old(id_gen)@ as nat,
            )).to_multiset(),
            load_sorted(final(self)@.load),
            final(id_gen)@ == id_after(old(id_gen)@ as nat, split_fillers(
                old(self)@.load,
                x_split as int,
                y_split,
                match filler {
                    Some(t) => Some(type_spec(*t)),
                    None => None,
                },
                old(id_gen)@ as nat,
            ).len()),
            final(self)@.area_id == old(self)@.area_id,
            final(self)@.blocks == old(self)@.blocks,
            final(self)@.sources == old(self)@.sources,
            final(self)@.sinks == old(self)@.sinks,
    {
        let filler_pos = self.get_connected_inputs_from_load_at_x(x_split);
        let ghost pos = filler_pos@;
        let ghost l0 = self@.load;
        let ghost id0 = id_gen@;
        proof {
            lemma_id_after_zero(id0 as nat);
        }
        let mut nl: Vec<(Box<Block>, i64, i64)> = Vec::new();
        let ghost mut taken: int = 0;
        while self.load.len() > 0
            invariant
                0 <= taken <= l0.len(),
                load_view(self.load@) == l0.subrange(taken, l0.len() as int),
                taken + self.load@.len() == l0.len(),
                load_view(nl@) == load_split_shift(l0.subrange(0, taken), x_split as int),
                load_cols_below_max(l0),
                self.area_id == old(self).area_id,
                self.blocks@ == old(self).blocks@,
                self.sources@ == old(self).sources@,
                self.sinks@ == old(self).sinks@,
            decreases self.load.len(),
        {
            let ghost vb = self.load@;
            let e = self.load.remove(0);
            proof {
                assert(load_view(vb)[0] == (e.0@, e.1, e.2));
                assert(l0.subrange(taken, l0.len() as int)[0] == l0[taken]);
                assert(l0[taken] == (e.0@, e.1, e.2));
            }
            let nx: i64 = if e.1 > x_split { e.1 + 1 } else { e.1 };
            nl.push((e.0, nx, e.2));
            proof {
                assert(l0.subrange(0, taken + 1) =~= l0.subrange(0, taken).push(l0[taken]));
                assert(load_view(nl@) =~= load_split_shift(l0.subrange(0, taken), x_split as int).push(
                    (e.0@, nx, e.2),
                ));
                assert(load_view(nl@) =~= load_split_shift(l0.subrange(0, taken + 1), x_split as int));
                assert forall|i: int| 0 <= i < load_view(self.load@).len() implies load_view(self.load@)[i]
                    == l0.subrange(taken + 1, l0.len() as int)[i] by {
                    assert(self.load@[i] == vb[i + 1]);
                    assert(load_view(self.load@)[i] == (self.load@[i].0@, self.load@[i].1, self.load@[i].2));
                    assert(load_view(vb)[i + 1] == (vb[i + 1].0@, vb[i + 1].1, vb[i + 1].2));
                    assert(load_view(vb)[i + 1] == l0.subrange(taken, l0.len() as int)[i + 1]);
                }
                assert(load_view(self.load@) =~= l0.subrange(taken + 1, l0.len() as int));
                taken = taken + 1;
            }
        }
        proof {
            assert(l0.subrange(0, l0.len() as int) =~= l0);
        }
        let ghost shifted = load_view(nl@);
        match filler {
            Some(t) => {
                let mut j: usize = 0;
                while j < filler_pos.len()
                    invariant
                        j <= filler_pos@.len(),
                        pos == filler_pos@,
                        load_view(nl@) == shifted + filler_blocks(pos.subrange(0, j as int), y_split, type_spec(*t), id0 as nat),
                        id_gen@ == id_after(id0 as nat, filler_blocks(pos.subrange(0, j as int), y_split, type_spec(*t), id0 as nat).len()),
                        filler_blocks(pos.subrange(0, j as int), y_split, type_spec(*t), id0 as nat).len() <= j,
                    decreases filler_pos.len() - j,
                {
                    let (fx, fy) = filler_pos[j];
                    proof {
                        assert(pos.subrange(0, j + 1).drop_last() =~= pos.subrange(0, j as int));
                        assert(pos.subrange(0, j + 1).last() == (fx, fy));
                    }
                    let ghost prev = filler_blocks(pos.subrange(0, j as int), y_split, type_spec(*t), id0 as nat);
                    if fy != y_split {
                        proof {
                            lemma_id_after_step(id0 as nat, prev.len());
                        }
                        let fb = t.instanciate_block(None, id_gen);
                        let ghost ln = load_view(nl@);
                        nl.push((fb, fx, fy));
                        proof {
                            assert(fb@ == instance_of(*t, id_after(id0 as nat, prev.len() + 1), t.name@));
                            assert(filler_blocks(pos.subrange(0, j + 1), y_split, type_spec(*t), id0 as nat) == prev.push(
                                (fb@, fx, fy),
                            ));
                            assert(load_view(nl@) =~= ln.push((fb@, fx, fy)));
                            assert(load_view(nl@) =~= shifted + filler_blocks(
                                pos.subrange(0, j + 1),
                                y_split,
                                type_spec(*t),
                                id0 as nat,
                            ));
                        }
                    }
                    j += 1;
                }
                proof {
                    assert(pos.subrange(0, pos.len() as int) =~= pos);
                }
            },
            None => {
                proof {
                    assert(load_view(nl@) =~= shifted + Seq::<(BlockSpec, i64, i64)>::empty());
                }
            },
        }
        self.load = nl;
        self.sort_load_pos();
    }

    /// Tries the offsets of [`fit_offsets`] in order and moves the load by the
    /// first at which every loaded block has space in `area`.
    pub fn try_fit_load_into_space(&mut self, area: &mut BlockArea) -> (r: bool)
        requires
            load_near_fits(old(self)@.load),
        ensures
            r == first_fit(old(area)@.blocks, old(self)@.load, 21) is Some,
            r ==> fit_offset_small(first_fit(old(area)@.blocks, old(self)@.load, 21)->0),
            final(self)@ == match first_fit(old(area)@.blocks, old(self)@.load, 21) {
                Some(k) => ChainSpec {
                    load: load_moved(old(self)@.load, fit_offsets()[k].0 as int, fit_offsets()[k].1 as int),
                    ..old(self)@
                },
                None => old(self)@,
            },
            final(area)@ == old(area)@,
    {
        let offs: [(i64, i64); 21] = [
            (0, 0),
            (0, -1),
            (0, -2),
            (0, -3),
            (-1, 0),
            (-1, -1),
            (-1, -2),
            (-1, -3),
            (1, 0),
            (1, -1),
            (1, -2),
            (1, -3),
            (0, 1),
            (0, 2),
            (0, 3),
            (-1, 1),
            (-1, 2),
            (-1, 3),
            (1, 1),
            (1, 2),
            (1, 3),
        ];
        proof {
            assert(offs@ =~= fit_offsets());
        }
        let ghost s0 = area@.blocks;
        let ghost l0 = self@.load;
        let mut k: usize = 0;
        while k < 21
            invariant
                k <= 21,
                offs@ == fit_offsets(),
                self@ == old(self)@,
                area@ == old(area)@,
                s0 == area@.blocks,
                l0 == self@.load,
                load_near_fits(l0),
                first_fit(s0, l0, k as int) is None,
            decreases 21 - k,
        {
            let (xo, yo) = offs[k];
            proof {
                assert(offs@[k as int] == (xo, yo));
                assert(-1 <= xo <= 1 && -3 <= yo <= 3);
                assert(load_move_fits(l0, xo as int, yo as int));
            }
            if self.area_has_space_for_load(area, xo, yo) {
                proof {
                    assert(first_fit(s0, l0, k + 1) == Some(k as int));
                    lemma_first_fit_stays(s0, l0, k + 1, 21);
                    assert(fit_offsets()[k as int] == (xo, yo));
                    assert(fit_offset_small(k as int));
                }
                self.move_by_offs(xo, yo);
                return true;
            }
            k += 1;
        }
        false
    }

    /// Copies the blocks of the chain out of `area` into the load, with new IDs,
    /// sorted by position.
    pub fn clone_load(&mut self, area: &mut BlockArea, id_gen: &mut BlockIDGenerator)
        ensures
            final(self)@.load.to_multiset() == clone_steps(
                old(area)@.blocks,
                old(self)@.blocks,
                old(id_gen)@ as nat,
                old(self)@.blocks.len() as int,
            ).to_multiset(),
            load_sorted(final(self)@.load),
            final(id_gen)@ == id_after(old(id_gen)@ as nat, clone_steps(
                old(area)@.blocks,
                old(self)@.blocks,
                old(id_gen)@ as nat,
                old(self)@.blocks.len() as int,
            ).len()),
            final(area)@ == old(area)@,
            final(self)@.area_id == old(self)@.area_id,
            final(self)@.blocks == old(self)@.blocks,
            final(self)@.sources == old(self)@.sources,
            final(self)@.sinks == old(self)@.sinks,
    {
        let ghost s = area@.blocks;
        let ghost id0 = id_gen@;
        proof {
            lemma_id_after_zero(id0 as nat);
        }
        self.load.clear();
        let mut i: usize = 0;
        while i < self.blocks.len()
            invariant
                i <= self.blocks@.len(),
                s == area@.blocks,
                area@ == old(area)@,
                self.blocks@ == old(self).blocks@,
                self.area_id == old(self).area_id,
                self.sources@ == old(self).sources@,
                self.sinks@ == old(self).sinks@,
                load_view(self.load@) == clone_steps(s, self.blocks@, id0 as nat, i as int),
                id_gen@ == id_after(id0 as nat, load_view(self.load@).len()),
            decreases self.blocks.len() - i,
        {
            let b = self.blocks[i];
            match area.ref_at_origin(b.0, b.1) {
                Some((block, xo, yo)) => {
                    proof {
                        lemma_id_after_step(id0 as nat, load_view(self.load@).len());
                    }
                    let nid = id_gen.next();
                    let nb = block.clone_with_new_id(nid);
                    self.load.push((Box::new(nb), xo, yo));
                    proof {
                        assert(load_view(self.load@) =~= clone_steps(s, self.blocks@, id0 as nat, i + 1));
                    }
                },
                None => {},
            }
            i += 1;
        }
        self.sort_load_pos();
    }

    /// Takes the blocks of the chain out of `area` into the load, sorted by position.
    pub fn remove_load(&mut self, area: &mut BlockArea)
        requires
            old(area).wf(),
        ensures
            final(area).wf(),
            final(area)@ == (AreaSpec {
                blocks: removal_steps(old(area)@.blocks, old(self)@.blocks, old(self)@.blocks.len() as int).0,
                ..old(area)@
            }),
            final(self)@.load.to_multiset() == removal_steps(
                old(area)@.blocks,
                old(self)@.blocks,
                old(self)@.blocks.len() as int,
            ).1.to_multiset(),
            load_sorted(final(self)@.load),
            final(self)@.area_id == old(self)@.area_id,
            final(self)@.blocks == old(self)@.blocks,
            final(self)@.sources == old(self)@.sources,
            final(self)@.sinks == old(self)@.sinks,
    {
        let ghost s = area@.blocks;
        self.load.clear();
        let mut i: usize = 0;
        while i < self.blocks.len()
            invariant
                i <= self.blocks@.len(),
                area.wf(),
                self.blocks@ == old(self).blocks@,
                self.area_id == old(self).area_id,
                self.sources@ == old(self).sources@,
                self.sinks@ == old(self).sinks@,
                area@ == (AreaSpec { blocks: removal_steps(s, self.blocks@, i as int).0, ..old(area)@ }),
                load_view(self.load@) == removal_steps(s, self.blocks@, i as int).1,
            decreases self.blocks.len() - i,
        {
            let b = self.blocks[i];
            match area.remove_at(b.0, b.1) {
                Some((block, xo, yo)) => {
                    self.load.push((block, xo, yo));
                    proof {
                        assert(load_view(self.load@) =~= removal_steps(s, self.blocks@, i + 1).1);
                    }
                },
                None => {},
            }
            i += 1;
        }
        self.sort_load_pos();
    }

    /// Places the loaded blocks into `area` and empties the load.
    pub fn place_load(&mut self, area: &mut BlockArea)
        requires
            old(area).wf(),
            blocks_wf(insert_all(old(area)@.blocks, old(self)@.load)),
        ensures
            final(area)@ == (AreaSpec { blocks: insert_all(old(area)@.blocks, old(self)@.load), ..old(area)@ }),
            final(area).wf(),
            final(self)@ == (ChainSpec { load: Seq::empty(), ..old(self)@ }),
    {
        let mut load: Vec<(Box<Block>, i64, i64)> = Vec::new();
        std::mem::swap(&mut load, &mut self.load);
        area.set_blocks_from(load);
        proof {
            assert(load_view(self.load@) =~= Seq::empty());
        }
    }

    /// Whether every loaded block, moved by `(xoffs, yoffs)`, has space in `area`.
    pub fn area_has_space_for_load(&mut self, area: &mut BlockArea, xoffs: i64, yoffs: i64) -> (r: bool)
        requires
            load_move_fits(old(self)@.load, xoffs as int, yoffs as int),
        ensures
            r == load_has_space(old(area)@.blocks, old(self)@.load, xoffs as int, yoffs as int),
            final(self)@ == old(self)@,
            final(area)@ == old(area)@,
    {
        let ghost l0 = self@.load;
        let mut i: usize = 0;
        while i < self.load.len()
            invariant
                i <= self.load@.len(),
                l0 == load_view(self.load@),
                self@ == old(self)@,
                area@ == old(area)@,
                load_move_fits(l0, xoffs as int, yoffs as int),
                forall|j: int| #![trigger l0[j]] 0 <= j < i ==> space_at(area@.blocks, l0[j].1 + xoffs, l0[j].2 + yoffs, l0[j].0.rows as int),
            decreases self.load.len() - i,
        {
            proof {
                assert(l0[i as int] == (self.load@[i as int].0@, self.load@[i as int].1, self.load@[i as int].2));
            }
            let e = &self.load[i];
            if !area.check_space_at(e.1 + xoffs, e.2 + yoffs, e.0.rows) {
                proof {
                    assert(!space_at(area@.blocks, l0[i as int].1 + xoffs, l0[i as int].2 + yoffs, l0[i as int].0.rows as int));
                }
                return false;
            }
            i += 1;
        }
        true
    }
}

/// An area of the block language: a grid of blocks.
#[derive(Debug)]
pub struct BlockArea {
    blocks: Vec<(i64, i64, Box<Block>)>,
    size: (usize, usize),
    auto_shrink: bool,
    header: String,
}

/// The model of a list of placed blocks.
pub open spec fn placed_view(v: Seq<(i64, i64, Box<Block>)>) -> Seq<PlacedSpec> {
    v.map_values(|e: (i64, i64, Box<Block>)| (e.0, e.1, e.2@))
}

impl View for BlockArea {
    type V = AreaSpec;

    closed spec fn view(&self) -> AreaSpec {
        AreaSpec {
            blocks: placed_view(self.blocks@),
            size: self.size,
            auto_shrink: self.auto_shrink,
            header: self.header@,
        }
    }
}

/// The first cover is unique.
proof fn lemma_first_cover_unique(s: Seq<PlacedSpec>, x: int, y: int, i: int)
    requires
        is_first_cover(s, x, y, i),
    ensures
        cell_index(s, x, y) == Some(i),
{
    let j = choose|j: int| is_first_cover(s, x, y, j);
    if j < i {
        assert(!covers(s[j], x, y));
    } else if i < j {
        assert(!covers(s[i], x, y));
    }
}

/// With no covering block there is no cell index.
proof fn lemma_no_cover(s: Seq<PlacedSpec>, x: int, y: int)
    requires
        forall|j: int| 0 <= j < s.len() ==> !covers(#[trigger] s[j], x, y),
    ensures
        cell_index(s, x, y) is None,
{
    if exists|i: int| is_first_cover(s, x, y, i) {
        let i = choose|i: int| is_first_cover(s, x, y, i);
        assert(covers(s[i], x, y));
    }
}

/// In well formed blocks the covering block is the only one.
proof fn lemma_cover_index(s: Seq<PlacedSpec>, x: int, y: int, i: int)
    requires
        no_overlap(s),
        0 <= i < s.len(),
        covers(s[i], x, y),
    ensures
        cell_index(s, x, y) == Some(i),
{
    assert forall|j: int| 0 <= j < i implies !covers(#[trigger] s[j], x, y) by {
        if covers(s[j], x, y) {
            assert(covers(s[j], s[j].0 as int, y));
        }
    }
    lemma_first_cover_unique(s, x, y, i);
}

/// With distinct origins, the block with a given origin is unique.
proof fn lemma_origin_index(s: Seq<PlacedSpec>, x: int, y: int, i: int)
    requires
        origins_distinct(s),
        0 <= i < s.len(),
        s[i].0 == x && s[i].1 == y,
    ensures
        origin_index(s, x, y) == Some(i),
{
}


/// Placing a block where there is space keeps the placed blocks well formed.
proof fn lemma_insert_wf(s: Seq<PlacedSpec>, x: i64, y: i64, b: BlockSpec)
    requires
        blocks_wf(s),
        space_at(s, x as int, y as int, b.rows as int),
    ensures
        blocks_wf(insert_placed(s, x, y, b)),
        insert_placed(s, x, y, b).len() >= s.len(),
{
    let t = insert_placed(s, x, y, b);
    let n = (x, y, b);
    // the new block covers no cell that another block covers
    assert forall|j: int, c: int| 0 <= j < s.len() && covers(s[j], x as int, c) implies !covers(n, x as int, c) by {
        if covers(n, x as int, c) {
            assert(cell_index(s, x as int, c) is None);
            lemma_cover_index(s, x as int, c, j);
        }
    }
    match origin_index(s, x as int, y as int) {
        Some(k) => {
            assert(0 <= k < s.len() && s[k].0 == x && s[k].1 == y);
            assert forall|i: int, j: int|
                0 <= i < t.len() && 0 <= j < t.len() && i != j implies !(t[i].0 == t[j].0 && t[i].1 == t[j].1) by {
            }
            assert forall|i: int, j: int, c: int|
                0 <= i < t.len() && 0 <= j < t.len() && i != j && covers(t[i], t[i].0 as int, c) implies !covers(
                t[j],
                t[i].0 as int,
                c,
            ) by {
                if i != k && j != k {
                    assert(covers(s[i], s[i].0 as int, c));
                } else if i == k {
                    if covers(t[j], t[i].0 as int, c) {
                        assert(covers(s[j], x as int, c));
                    }
                } else {
                    if covers(t[j], t[i].0 as int, c) {
                        assert(covers(s[i], x as int, c));
                    }
                }
            }
        },
        None => {
            assert forall|i: int, j: int|
                0 <= i < t.len() && 0 <= j < t.len() && i != j implies !(t[i].0 == t[j].0 && t[i].1 == t[j].1) by {
                if i == s.len() as int {
                    assert(!(s[j].0 == x && s[j].1 == y));
                } else if j == s.len() as int {
                    assert(!(s[i].0 == x && s[i].1 == y));
                }
            }
            assert forall|i: int, j: int, c: int|
                0 <= i < t.len() && 0 <= j < t.len() && i != j && covers(t[i], t[i].0 as int, c) implies !covers(
                t[j],
                t[i].0 as int,
                c,
            ) by {
                if i == s.len() as int {
                    if covers(t[j], x as int, c) {
                        assert(covers(s[j], x as int, c));
                    }
                } else if j == s.len() as int {
                    if covers(t[j], t[i].0 as int, c) {
                        assert(covers(s[i], x as int, c));
                    }
                } else {
                    assert(covers(s[i], s[i].0 as int, c));
                }
            }
        },
    }
}

/// Placing a block keeps the origins distinct.
proof fn lemma_insert_distinct(s: Seq<PlacedSpec>, x: i64, y: i64, b: BlockSpec)
    requires
        origins_distinct(s),
    ensures
        origins_distinct(insert_placed(s, x, y, b)),
{
    let t = insert_placed(s, x, y, b);
    match origin_index(s, x as int, y as int) {
        Some(k) => {
            assert(0 <= k < s.len() && s[k].0 == x && s[k].1 == y);
        },
        None => {
            assert forall|i: int, j: int|
                0 <= i < t.len() && 0 <= j < t.len() && i != j implies !(t[i].0 == t[j].0 && t[i].1 == t[j].1) by {
                if i == s.len() as int {
                    assert(!(s[j].0 == x && s[j].1 == y));
                } else if j == s.len() as int {
                    assert(!(s[i].0 == x && s[i].1 == y));
                }
            }
        },
    }
}

/// Removing a placed block keeps the placed blocks well formed.
proof fn lemma_remove_wf(s: Seq<PlacedSpec>, i: int)
    requires
        blocks_wf(s),
        0 <= i < s.len(),
    ensures
        blocks_wf(s.remove(i)),
{
    let t = s.remove(i);
    assert forall|a: int, b: int|
        0 <= a < t.len() && 0 <= b < t.len() && a != b implies !(t[a].0 == t[b].0 && t[a].1 == t[b].1) by {
        let a2 = if a < i { a } else { a + 1 };
        let b2 = if b < i { b } else { b + 1 };
        assert(t[a] == s[a2] && t[b] == s[b2]);
    }
    assert forall|a: int, b: int, c: int|
        0 <= a < t.len() && 0 <= b < t.len() && a != b && covers(t[a], t[a].0 as int, c) implies !covers(
        t[b],
        t[a].0 as int,
        c,
    ) by {
        let a2 = if a < i { a } else { a + 1 };
        let b2 = if b < i { b } else { b + 1 };
        assert(t[a] == s[a2] && t[b] == s[b2]);
        assert(covers(s[a2], s[a2].0 as int, c));
    }
}

impl BlockArea {
    /// An empty area of the given size.
    fn new(w: usize, h: usize) -> (r: Self)
        ensures
            r@ == (AreaSpec { blocks: Seq::empty(), size: (w, h), auto_shrink: false, header: Seq::empty() }),
    {
        let r = Self { blocks: Vec::new(), size: (w, h), auto_shrink: false, header: String::new() };
        proof {
            assert(placed_view(r.blocks@) =~= Seq::empty());
        }
        r
    }

    /// Sets the header text.
    pub fn set_header(&mut self, header: String)
        ensures
            final(self)@ == (AreaSpec { header: header@, ..old(self)@ }),
    {
        self.header = header;
    }

    /// Sets whether the area shrinks to its contents.
    pub fn set_auto_shrink(&mut self, shrink: bool)
        ensures
            final(self)@ == (AreaSpec { auto_shrink: shrink, ..old(self)@ }),
    {
        self.auto_shrink = shrink;
    }

    /// Whether the area shrinks to its contents.
    pub fn auto_shrink(&self) -> (r: bool)
        ensures
            r == self@.auto_shrink,
    {
        self.auto_shrink
    }


    /// The area's blocks are well formed.
    pub open spec fn wf(&self) -> bool {
        blocks_wf(self@.blocks)
    }

    /// Places `block` at `(x, y)`, replacing a block with the same origin.
    /// The caller has checked that there is space.
    fn set_block_at(&mut self, x: i64, y: i64, block: Box<Block>)
        requires
            old(self).wf(),
            space_at(old(self)@.blocks, x as int, y as int, block@.rows as int),
        ensures
            final(self)@ == (AreaSpec { blocks: insert_placed(old(self)@.blocks, x, y, block@), ..old(self)@ }),
            final(self).wf(),
    {
        let ghost s = self@.blocks;
        proof {
            lemma_insert_wf(s, x, y, block@);
        }
        match self.index_of_origin(x, y) {
            Some(k) => {
                proof {
                    lemma_origin_index(s, x as int, y as int, k as int);
                }
                self.blocks.set(k, (x, y, block));
                proof {
                    assert(placed_view(self.blocks@) =~= s.update(k as int, (x, y, block@)));
                }
            },
            None => {
                self.blocks.push((x, y, block));
                proof {
                    assert(placed_view(self.blocks@) =~= s.push((x, y, block@)));
                }
            },
        }
    }

    /// Removes the block that occupies `(x, y)` and returns it with its origin.
    fn remove_at(&mut self, x: i64, y: i64) -> (r: Option<(Box<Block>, i64, i64)>)
        requires
            old(self).wf(),
        ensures
            final(self).wf(),
            match cell_index(old(self)@.blocks, x as int, y as int) {
                Some(i) => match r {
                    Some(t) => t.0@ == old(self)@.blocks[i].2 && t.1 == old(self)@.blocks[i].0 && t.2 == old(self)@.blocks[i].1 && final(self)@ == (AreaSpec {
                        blocks: old(self)@.blocks.remove(i),
                        ..old(self)@
                    }),
                    None => false,
                },
                None => r is None && final(self)@ == old(self)@,
            },
    {
        let ghost s = self@.blocks;
        match self.cover_at(x, y) {
            Some(i) => {
                let e = self.blocks.remove(i);
                proof {
                    assert(placed_view(self.blocks@) =~= s.remove(i as int));
                    lemma_remove_wf(s, i as int);
                }
                Some((e.2, e.0, e.1))
            },
            None => None,
        }
    }

    /// Places every block of `list` in order, replacing blocks with the same origin.
    fn set_blocks_from(&mut self, list: Vec<(Box<Block>, i64, i64)>)
        requires
            old(self).wf(),
            blocks_wf(insert_all(old(self)@.blocks, load_view(list@))),
        ensures
            final(self)@ == (AreaSpec {
                blocks: insert_all(old(self)@.blocks, load_view(list@)),
                ..old(self)@
            }),
            final(self).wf(),
    {
        let ghost s0 = self@.blocks;
        let ghost lv = load_view(list@);
        let mut list = list;
        while list.len() > 0
            invariant
                load_view(list@) == lv.subrange(lv.len() - list@.len(), lv.len() as int),
                list@.len() <= lv.len(),
                self@.blocks == insert_all(s0, lv.subrange(0, lv.len() - list@.len())),
                origins_distinct(self@.blocks),
                self@.size == old(self)@.size,
                self@.auto_shrink == old(self)@.auto_shrink,
                self@.header == old(self)@.header,
            decreases list.len(),
        {
            let ghost before = list@;
            let e = list.remove(0);
            let ghost done = lv.subrange(0, lv.len() - list@.len());
            proof {
                assert(done.drop_last() =~= lv.subrange(0, lv.len() - before.len()));
                assert(load_view(before)[0] == (e.0@, e.1, e.2));
                assert(done.last() == (e.0@, e.1, e.2));
                lemma_insert_distinct(self@.blocks, e.1, e.2, e.0@);
            }
            self.insert_unchecked(e.1, e.2, e.0);
            proof {
                assert forall|i: int| 0 <= i < list@.len() implies load_view(list@)[i] == lv.subrange(
                    lv.len() - list@.len(),
                    lv.len() as int,
                )[i] by {
                    assert(list@[i] == before[i + 1]);
                    assert(load_view(before)[i + 1] == lv.subrange(lv.len() - before.len(), lv.len() as int)[i + 1]);
                }
                assert(load_view(list@) =~= lv.subrange(lv.len() - list@.len(), lv.len() as int));
            }
        }
        proof {
            assert(lv.subrange(0, lv.len() as int) =~= lv);
        }
    }

    /// Places `block` at `(x, y)`, replacing a block with the same origin.
    fn insert_unchecked(&mut self, x: i64, y: i64, block: Box<Block>)
        requires
            origins_distinct(old(self)@.blocks),
        ensures
            final(self)@ == (AreaSpec { blocks: insert_placed(old(self)@.blocks, x, y, block@), ..old(self)@ }),
    {
        let ghost s = self@.blocks;
        match self.index_of_origin(x, y) {
            Some(k) => {
                proof {
                    lemma_origin_index(s, x as int, y as int, k as int);
                }
                self.blocks.set(k, (x, y, block));
                proof {
                    assert(placed_view(self.blocks@) =~= s.update(k as int, (x, y, block@)));
                }
            },
            None => {
                self.blocks.push((x, y, block));
                proof {
                    assert(placed_view(self.blocks@) =~= s.push((x, y, block@)));
                }
            },
        }
    }

    /// Sets the size of the area.
    fn set_size(&mut self, w: usize, h: usize)
        ensures
            final(self)@ == (AreaSpec { size: (w, h), ..old(self)@ }),
    {
        self.size = (w, h);
    }

    /// Appends the IDs of the sub areas of all blocks to `out`.
    fn get_direct_sub_areas(&self, out: &mut Vec<usize>)
        ensures
            final(out)@ == old(out)@ + sub_area_list(self@.blocks),
    {
        let ghost s = self@.blocks;
        let mut i: usize = 0;
        while i < self.blocks.len()
            invariant
                i <= self.blocks@.len(),
                s == placed_view(self.blocks@),
                out@ == old(out)@ + sub_area_list(s.subrange(0, i as int)),
            decreases self.blocks.len() - i,
        {
            proof {
                assert(s.subrange(0, i + 1).drop_last() =~= s.subrange(0, i as int));
            }
            let c = self.blocks[i].2.contains;
            if let Some(sub_area) = c.0 {
                out.push(sub_area);
            }
            if let Some(sub_area) = c.1 {
                out.push(sub_area);
            }
            i += 1;
            proof {
                assert(out@ =~= old(out)@ + sub_area_list(s.subrange(0, i as int)));
            }
        }
        proof {
            assert(s.subrange(0, s.len() as int) =~= s);
        }
    }


    /// The port at cell `(x, y)`: the block, its origin and the port row.
    fn find_port_at(&self, x: i64, y: i64, expect_output: bool) -> (r: Option<(&Block, i64, i64, usize)>)
        ensures
            match port_at(self@.blocks, x as int, y as int, expect_output) {
                Some((i, row)) => match r {
                    Some(t) => t.0@ == self@.blocks[i].2 && t.1 == self@.blocks[i].0 && t.2 == self@.blocks[i].1
                        && t.3 == row,
                    None => false,
                },
                None => r is None,
            },
    {
        match self.port_index_at(x, y, expect_output) {
            Some((i, row)) => {
                let e = &self.blocks[i];
                proof {
                    assert(self@.blocks[i as int] == (e.0, e.1, e.2@));
                }
                Some((&*e.2, e.0, e.1, row))
            },
            None => None,
        }
    }

    /// The port at cell `(x, y)`: the block index and the port row.
    fn port_index_at(&self, x: i64, y: i64, expect_output: bool) -> (r: Option<(usize, usize)>)
        ensures
            match port_at(self@.blocks, x as int, y as int, expect_output) {
                Some((i, row)) => match r {
                    Some(t) => t.0 as int == i && t.1 == row,
                    None => false,
                },
                None => r is None,
            },
    {
        match self.cover_at(x, y) {
            Some(i) => {
                let e = &self.blocks[i];
                let yo = e.1;
                let port_y: usize = if y as i128 - yo as i128 > 0 {
                    (y as i128 - yo as i128) as usize
                } else {
                    0
                };
                proof {
                    assert(self@.blocks[i as int] == (e.0, e.1, e.2@));
                }
                let ports = if expect_output { &e.2.outputs } else { &e.2.inputs };
                if port_y < ports.len() && ports[port_y].is_some() {
                    Some((i, port_y))
                } else {
                    None
                }
            },
            None => None,
        }
    }

    /// The sinks of this area, bottom right first: blocks without outputs, at
    /// their origin, and unconnected outputs, at their cell with their row.
    pub fn collect_sinks(&self) -> (r: Vec<(i64, i64, Option<usize>)>)
        requires
            self.wf(),
        ensures
            r@.to_multiset() == sink_candidates(self@.blocks, self@.blocks.len() as int).to_multiset(),
            sinks_sorted(r@),
    {
        let ghost s = self@.blocks;
        let mut sinks_out: Vec<(i64, i64, Option<usize>)> = Vec::new();
        let mut i: usize = 0;
        while i < self.blocks.len()
            invariant
                i <= self.blocks@.len(),
                s == placed_view(self.blocks@),
                blocks_wf(s),
                sinks_out@ == sink_candidates(s, i as int),
            decreases self.blocks.len() - i,
        {
            let e = &self.blocks[i];
            let x = e.0;
            let y = e.1;
            proof {
                assert(s[i as int] == (x, y, e.2@));
                assert(in_domain(x as int, y as int, e.2@.rows as int));
            }
            if e.2.count_outputs() == 0 {
                sinks_out.push((x, y, None));
            } else {
                let outs = e.2.for_output_ports();
                let ghost pl = labels_view(outs@);
                let mut j: usize = 0;
                let ghost base = sinks_out@;
                while j < outs.len()
                    invariant
                        j <= outs@.len(),
                        pl == labels_view(outs@),
                        pl == port_list(s[i as int].2.outputs, s[i as int].2.rows),
                        s == placed_view(self.blocks@),
                        s[i as int] == (x, y, e.2@),
                        in_domain(x as int, y as int, e.2@.rows as int),
                        sinks_out@ == base + unconnected_outputs(s, s[i as int], pl.subrange(0, j as int)),
                    decreases outs.len() - j,
                {
                    let row = outs[j].0;
                    proof {
                        lemma_port_list_rows(s[i as int].2.outputs, s[i as int].2.rows);
                        assert(pl[j as int].0 == row);
                        assert(pl.subrange(0, j + 1).drop_last() =~= pl.subrange(0, j as int));
                    }
                    let yr: i64 = y + row as i64;
                    if self.port_index_at(x + 1, yr, false).is_none() {
                        sinks_out.push((x, yr, Some(row)));
                    }
                    j += 1;
                    proof {
                        assert(sinks_out@ =~= base + unconnected_outputs(s, s[i as int], pl.subrange(0, j as int)));
                    }
                }
                proof {
                    assert(pl.subrange(0, pl.len() as int) =~= pl);
                }
            }
            i += 1;
        }
        sort_sinks(&mut sinks_out);
        sinks_out
    }

    /// The unconnected output furthest down, and among those furthest right,
    /// with its label; outputs at or before `(0, 0)` in that order are not reported.
    pub fn find_last_unconnected_output(&self) -> (r: Option<(i64, i64, String)>)
        requires
            self.wf(),
        ensures
            match last_unconnected(output_candidates(self@.blocks, self@.blocks.len() as int)).2 {
                Some(c) => match r {
                    Some(t) => t.0 == c.0 && t.1 == c.1 && t.2@ == c.2,
                    None => false,
                },
                None => r is None,
            },
    {
        let ghost s = self@.blocks;
        let mut max_x: i64 = 0;
        let mut max_y: i64 = 0;
        let mut port: Option<(i64, i64, String)> = None;
        let mut i: usize = 0;
        let ghost mut cands: Seq<(i64, i64, Seq<char>)> = Seq::empty();
        while i < self.blocks.len()
            invariant
                i <= self.blocks@.len(),
                s == placed_view(self.blocks@),
                blocks_wf(s),
                cands == output_candidates(s, i as int),
                (max_x as int, max_y as int) == (last_unconnected(cands).0,
                    last_unconnected(cands).1),
                match last_unconnected(cands).2 {
                    Some(c) => match port {
                        Some(t) => t.0 == c.0 && t.1 == c.1 && t.2@ == c.2,
                        None => false,
                    },
                    None => port is None,
                },
            decreases self.blocks.len() - i,
        {
            let e = &self.blocks[i];
            let x = e.0;
            let y = e.1;
            proof {
                assert(s[i as int] == (x, y, e.2@));
                assert(in_domain(x as int, y as int, e.2@.rows as int));
            }
            let outs = e.2.for_output_ports();
            let ghost pl = labels_view(outs@);
            let ghost base = cands;
            let mut j: usize = 0;
            while j < outs.len()
                invariant
                    j <= outs@.len(),
                    pl == labels_view(outs@),
                    pl == port_list(s[i as int].2.outputs, s[i as int].2.rows),
                    s == placed_view(self.blocks@),
                    s[i as int] == (x, y, e.2@),
                    in_domain(x as int, y as int, e.2@.rows as int),
                    cands == base + labeled_outputs(s, s[i as int], pl.subrange(0, j as int)),
                    (max_x as int, max_y as int) == (last_unconnected(cands).0,
                        last_unconnected(cands).1),
                    match last_unconnected(cands).2 {
                        Some(c) => match port {
                        Some(t) => t.0 == c.0 && t.1 == c.1 && t.2@ == c.2,
                        None => false,
                    },
                        None => port is None,
                    },
                decreases outs.len() - j,
            {
                let row = outs[j].0;
                proof {
                    lemma_port_list_rows(s[i as int].2.outputs, s[i as int].2.rows);
                    assert(pl[j as int].0 == row);
                    assert(pl.subrange(0, j + 1).drop_last() =~= pl.subrange(0, j as int));
                }
                let yr: i64 = y + row as i64;
                if self.port_index_at(x + 1, yr, false).is_none() {
                    let ghost before = cands;
                    proof {
                        cands = cands.push((x, yr, pl[j as int].1));
                        assert(cands.drop_last() =~= before);
                    }
                    if yr > max_y {
                        max_y = yr;
                        max_x = x;
                        port = Some((max_x, max_y, outs[j].1.clone()));
                    } else if yr == max_y && x > max_x {
                        max_x = x;
                        port = Some((max_x, max_y, outs[j].1.clone()));
                    }
                }
                j += 1;
                proof {
                    assert(cands =~= base + labeled_outputs(s, s[i as int], pl.subrange(0, j as int)));
                }
            }
            proof {
                assert(pl.subrange(0, pl.len() as int) =~= pl);
                assert(output_candidates(s, i + 1) == output_candidates(s, i as int) + labeled_outputs(
                    s,
                    s[i as int],
                    pl,
                ));
            }
            i += 1;
        }
        port
    }

    /// The size of this area given the sizes of all areas (the sub areas are
    /// looked up in `sizes`); only the non-negative quadrant counts.
    fn resolve_size(&self, sizes: &Vec<(usize, usize)>) -> (r: (usize, usize))
        requires
            self.wf(),
            subs_below(self@.blocks, sizes@.len()),
        ensures
            r == resolved_size(self@, sizes@),
    {
        let ghost s = self@.blocks;
        let mut min_w: u128 = 1;
        let mut min_h: u128 = 1;
        let mut i: usize = 0;
        while i < self.blocks.len()
            invariant
                i <= self.blocks@.len(),
                s == placed_view(self.blocks@),
                blocks_wf(s),
                subs_below(s, sizes@.len()),
                (min_w as int, min_h as int) == min_extent(s.subrange(0, i as int), sizes@),
                min_w <= 0x4_0000_0000_0000_0000,
                min_h <= 0x4_0000_0000_0000_0000,
            decreases self.blocks.len() - i,
        {
            let e = &self.blocks[i];
            proof {
                assert(s[i as int] == (e.0, e.1, e.2@));
                assert(in_domain(e.0 as int, e.1 as int, e.2@.rows as int));
                assert(s.subrange(0, i + 1).drop_last() =~= s.subrange(0, i as int));
            }
            let x: u128 = if e.0 > 0 { e.0 as u128 } else { 0 };
            let y: u128 = if e.1 > 0 { e.1 as u128 } else { 0 };
            let mut w: u128 = 1;
            let mut h: u128 = 1;
            if e.2.rows > 0 {
                w = x + 1;
                let last: i128 = e.1 as i128 + e.2.rows as i128 - 1;
                h = if last > 0 { last as u128 + 1 } else { 1 };
            }
            let mut prev_h: u128 = 1;
            if let Some(sub_area) = e.2.contains.0 {
                let (sub_w, sub_h) = sizes[sub_area];
                let sw: u128 = x + sub_w as u128 + 1;
                let sh: u128 = y + sub_h as u128 + 2;
                if w < sw {
                    w = sw;
                }
                if h < sh {
                    h = sh;
                }
                prev_h = sub_h as u128 + 2;
            }
            if let Some(sub_area) = e.2.contains.1 {
                let (sub_w, sub_h) = sizes[sub_area];
                let sw: u128 = x + sub_w as u128 + 1;
                let sh: u128 = y + sub_h as u128 + prev_h + 1;
                if w < sw {
                    w = sw;
                }
                if h < sh {
                    h = sh;
                }
            }
            proof {
                assert((w as int, h as int) == placed_extent(s[i as int], sizes@));
            }
            if min_w < w {
                min_w = w;
            }
            if min_h < h {
                min_h = h;
            }
            i += 1;
        }
        proof {
            assert(s.subrange(0, s.len() as int) =~= s);
        }
        let mw: usize = if min_w > usize::MAX as u128 { usize::MAX } else { min_w as usize };
        let mh: usize = if min_h > usize::MAX as u128 { usize::MAX } else { min_h as usize };
        if self.auto_shrink {
            (mw, mh)
        } else {
            (if self.size.0 < mw { mw } else { self.size.0 }, if self.size.1 < mh { mh } else { self.size.1 })
        }
    }



    /// The blocks connected to block `k` through its ports: first through its
    /// inputs, then through its outputs, in row order.
    fn linked_partners(&self, k: usize) -> (r: Vec<usize>)
        requires
            self.wf(),
            k < self@.blocks.len(),
        ensures
            forall|t: int| 0 <= t < r@.len() ==> #[trigger] r@[t] < self@.blocks.len() && linked(self@.blocks, k as int, r@[t] as int),
            forall|m: int| 0 <= m < self@.blocks.len() && #[trigger] linked(self@.blocks, k as int, m) ==> r@.contains(m as usize),
    {
        let ghost s = self@.blocks;
        let n = self.blocks.len();
        let e = &self.blocks[k];
        let xo = e.0;
        let yo = e.1;
        proof {
            assert(s[k as int] == (xo, yo, e.2@));
            assert(in_domain(xo as int, yo as int, e.2@.rows as int));
        }
        let ins = e.2.for_input_ports();
        let outs = e.2.for_output_ports();
        let ghost pin = labels_view(ins@);
        let ghost pout = labels_view(outs@);
        proof {
            lemma_port_list_rows(s[k as int].2.inputs, s[k as int].2.rows);
            lemma_port_list_rows(s[k as int].2.outputs, s[k as int].2.rows);
        }
        let mut r: Vec<usize> = Vec::new();
        let mut j: usize = 0;
        while j < ins.len()
            invariant
                s == placed_view(self.blocks@),
                blocks_wf(s),
                n == s.len(),
                k < n,
                s[k as int] == (xo, yo, e.2@),
                in_domain(xo as int, yo as int, e.2@.rows as int),
                pin == labels_view(ins@),
                pin == port_list(s[k as int].2.inputs, s[k as int].2.rows),
                forall|t: int| 0 <= t < pin.len() ==> #[trigger] pin[t].0 < s[k as int].2.rows && has_port(
                    s[k as int].2.inputs,
                    pin[t].0 as int,
                ),
                j <= ins@.len(),
                forall|t: int| 0 <= t < r@.len() ==> #[trigger] r@[t] < n && linked(s, k as int, r@[t] as int),
                forall|t: int| 0 <= t < j ==> (port_partner(s, k as int, #[trigger] pin[t].0 as int, true) matches Some(m)
                    ==> r@.contains(m as usize)),
            decreases ins.len() - j,
        {
            let row = ins[j].0;
            proof {
                assert(pin[j as int].0 == row);
            }
            let py: i64 = yo + row as i64;
            let ghost r0 = r@;
            match self.port_index_at(xo - 1, py, true) {
                Some((k2, _)) => {
                    proof {
                        assert(port_partner(s, k as int, row as int, true) == Some(k2 as int));
                        assert(linked(s, k as int, k2 as int));
                    }
                    r.push(k2);
                    proof {
                        assert(r@[r@.len() - 1] == k2);
                        assert forall|t: int| 0 <= t < j + 1 implies (port_partner(s, k as int, #[trigger] pin[t].0 as int, true) matches Some(m)
                            ==> r@.contains(m as usize)) by {
                            if t < j {
                                if let Some(m) = port_partner(s, k as int, pin[t].0 as int, true) {
                                    let q = choose|q: int| 0 <= q < r0.len() && r0[q] == m as usize;
                                    assert(r@[q] == m as usize);
                                }
                            }
                        }
                    }
                },
                None => {
                    proof {
                        assert(port_partner(s, k as int, row as int, true) is None);
                    }
                },
            }
            j += 1;
        }
        let ghost r_in = r@;
        let mut j: usize = 0;
        while j < outs.len()
            invariant
                s == placed_view(self.blocks@),
                blocks_wf(s),
                n == s.len(),
                k < n,
                s[k as int] == (xo, yo, e.2@),
                in_domain(xo as int, yo as int, e.2@.rows as int),
                pout == labels_view(outs@),
                pout == port_list(s[k as int].2.outputs, s[k as int].2.rows),
                forall|t: int| 0 <= t < pout.len() ==> #[trigger] pout[t].0 < s[k as int].2.rows && has_port(
                    s[k as int].2.outputs,
                    pout[t].0 as int,
                ),
                j <= outs@.len(),
                r@.len() >= r_in.len(),
                forall|q: int| 0 <= q < r_in.len() ==> r@[q] == r_in[q],
                forall|t: int| 0 <= t < r@.len() ==> #[trigger] r@[t] < n && linked(s, k as int, r@[t] as int),
                forall|t: int| 0 <= t < pin.len() ==> (port_partner(s, k as int, #[trigger] pin[t].0 as int, true) matches Some(m)
                    ==> r_in.contains(m as usize)),
                forall|t: int| 0 <= t < j ==> (port_partner(s, k as int, #[trigger] pout[t].0 as int, false) matches Some(m)
                    ==> r@.contains(m as usize)),
            decreases outs.len() - j,
        {
            let row = outs[j].0;
            proof {
                assert(pout[j as int].0 == row);
            }
            let py: i64 = yo + row as i64;
            let ghost r0 = r@;
            match self.port_index_at(xo + 1, py, false) {
                Some((k2, _)) => {
                    proof {
                        assert(port_partner(s, k as int, row as int, false) == Some(k2 as int));
                        assert(linked(s, k as int, k2 as int));
                    }
                    r.push(k2);
                    proof {
                        assert(r@[r@.len() - 1] == k2);
                        assert forall|t: int| 0 <= t < j + 1 implies (port_partner(s, k as int, #[trigger] pout[t].0 as int, false) matches Some(m)
                            ==> r@.contains(m as usize)) by {
                            if t < j {
                                if let Some(m) = port_partner(s, k as int, pout[t].0 as int, false) {
                                    let q = choose|q: int| 0 <= q < r0.len() && r0[q] == m as usize;
                                    assert(r@[q] == m as usize);
                                }
                            }
                        }
                    }
                },
                None => {
                    proof {
                        assert(port_partner(s, k as int, row as int, false) is None);
                    }
                },
            }
            j += 1;
        }
        proof {
            assert forall|m: int| 0 <= m < n && #[trigger] linked(s, k as int, m) implies r@.contains(m as usize) by {
                let rr = choose|rr: int|
                    0 <= rr < s[k as int].2.rows && ((has_port(s[k as int].2.inputs, rr) && port_partner(
                        s,
                        k as int,
                        rr,
                        true,
                    ) == Some(m)) || (has_port(s[k as int].2.outputs, rr) && port_partner(s, k as int, rr, false)
                        == Some(m)));
                if has_port(s[k as int].2.inputs, rr) && port_partner(s, k as int, rr, true) == Some(m) {
                    lemma_port_list_complete(s[k as int].2.inputs, s[k as int].2.rows, rr);
                    let t = choose|t: int| 0 <= t < pin.len() && pin[t].0 == rr;
                    assert(port_partner(s, k as int, pin[t].0 as int, true) == Some(m));
                    let q = choose|q: int| 0 <= q < r_in.len() && r_in[q] == m as usize;
                    assert(r@[q] == m as usize);
                } else {
                    lemma_port_list_complete(s[k as int].2.outputs, s[k as int].2.rows, rr);
                    let t = choose|t: int| 0 <= t < pout.len() && pout[t].0 == rr;
                    assert(port_partner(s, k as int, pout[t].0 as int, false) == Some(m));
                }
            }
        }
        r
    }

    /// Records block `k` as visited: its origin goes to `blocks`, and to
    /// `sources` or `sinks` when it has no inputs or no outputs.
    fn record_visit(
        &self,
        k: usize,
        visited: &mut Vec<bool>,
        blocks: &mut Vec<(i64, i64)>,
        sources: &mut Vec<(i64, i64)>,
        sinks: &mut Vec<(i64, i64)>,
        Ghost(order): Ghost<Seq<int>>,
    ) -> (new_order: Ghost<Seq<int>>)
        requires
            self.wf(),
            k < self@.blocks.len(),
            old(visited)@.len() == self@.blocks.len(),
            !old(visited)@[k as int],
            found_ok(self@.blocks, old(visited)@, old(blocks)@, old(sources)@, old(sinks)@, order),
        ensures
            final(visited)@ == old(visited)@.update(k as int, true),
            found_ok(self@.blocks, final(visited)@, final(blocks)@, final(sources)@, final(sinks)@, new_order@),
            new_order@.len() == order.len() + 1,
    {
        let ghost s = self@.blocks;
        let ghost n = s.len();
        reveal(found_ok);
        let ghost vis0 = visited@;
        visited.set(k, true);
        let e = &self.blocks[k];
        let xo = e.0;
        let yo = e.1;
        proof {
            assert(s[k as int] == (xo, yo, e.2@));
            assert(!order.contains(k as int));
        }
        blocks.push((xo, yo));
        let ghost new_order = order.push(k as int);
        proof {
            assert(new_order[new_order.len() - 1] == k as int);
            assert forall|k1: int| 0 <= k1 < n implies (visited@[k1] <==> new_order.contains(k1)) by {
                if k1 == k as int {
                    assert(new_order[new_order.len() - 1] == k1);
                } else if order.contains(k1) {
                    let q = choose|q: int| 0 <= q < order.len() && order[q] == k1;
                    assert(new_order[q] == k1);
                } else if new_order.contains(k1) {
                    let q = choose|q: int| 0 <= q < new_order.len() && new_order[q] == k1;
                    assert(q < order.len());
                    assert(order[q] == k1);
                }
            }
        }
        let ni = e.2.for_input_ports().len();
        let no = e.2.for_output_ports().len();
        let ghost old_sources = sources@;
        let ghost old_sinks = sinks@;
        if ni == 0 {
            proof {
                assert(!sources@.contains((xo, yo))) by {
                    if sources@.contains((xo, yo)) {
                        let k1 = choose|k1: int| 0 <= k1 < n && #[trigger] vis0[k1] && (xo, yo) == (s[k1].0, s[k1].1) && no_inputs(s[k1].2);
                        assert(k1 != k as int);
                    }
                }
            }
            sources.push((xo, yo));
        }
        if no == 0 {
            proof {
                assert(!sinks@.contains((xo, yo))) by {
                    if sinks@.contains((xo, yo)) {
                        let k1 = choose|k1: int| 0 <= k1 < n && #[trigger] vis0[k1] && (xo, yo) == (s[k1].0, s[k1].1) && no_outputs(s[k1].2);
                        assert(k1 != k as int);
                    }
                }
            }
            sinks.push((xo, yo));
        }
        proof {
            assert(no_inputs(s[k as int].2) == (ni == 0));
            assert(no_outputs(s[k as int].2) == (no == 0));
            assert forall|p: (i64, i64)| sources@.contains(p) <==> exists|k1: int| 0 <= k1 < n && #[trigger] visited@[k1] && p == (s[k1].0, s[k1].1) && no_inputs(s[k1].2) by {
                if sources@.contains(p) {
                    let q = choose|q: int| 0 <= q < sources@.len() && sources@[q] == p;
                    if q < old_sources.len() {
                        assert(old_sources[q] == p);
                        assert(old_sources.contains(p));
                        let k1 = choose|k1: int| 0 <= k1 < n && #[trigger] vis0[k1] && p == (s[k1].0, s[k1].1) && no_inputs(s[k1].2);
                        assert(visited@[k1]);
                    } else {
                        assert(p == (xo, yo));
                        assert(visited@[k as int]);
                        assert(no_inputs(s[k as int].2));
                    }
                }
                if exists|k1: int| 0 <= k1 < n && #[trigger] visited@[k1] && p == (s[k1].0, s[k1].1) && no_inputs(s[k1].2) {
                    let k1 = choose|k1: int| 0 <= k1 < n && #[trigger] visited@[k1] && p == (s[k1].0, s[k1].1) && no_inputs(s[k1].2);
                    if k1 == k as int {
                        assert(sources@[sources@.len() - 1] == p);
                    } else {
                        assert(vis0[k1]);
                        assert(old_sources.contains(p));
                        let q = choose|q: int| 0 <= q < old_sources.len() && old_sources[q] == p;
                        assert(sources@[q] == p);
                    }
                }
            }
            assert forall|p: (i64, i64)| sinks@.contains(p) <==> exists|k1: int| 0 <= k1 < n && #[trigger] visited@[k1] && p == (s[k1].0, s[k1].1) && no_outputs(s[k1].2) by {
                if sinks@.contains(p) {
                    let q = choose|q: int| 0 <= q < sinks@.len() && sinks@[q] == p;
                    if q < old_sinks.len() {
                        assert(old_sinks[q] == p);
                        assert(old_sinks.contains(p));
                        let k1 = choose|k1: int| 0 <= k1 < n && #[trigger] vis0[k1] && p == (s[k1].0, s[k1].1) && no_outputs(s[k1].2);
                        assert(visited@[k1]);
                    } else {
                        assert(p == (xo, yo));
                        assert(visited@[k as int]);
                        assert(no_outputs(s[k as int].2));
                    }
                }
                if exists|k1: int| 0 <= k1 < n && #[trigger] visited@[k1] && p == (s[k1].0, s[k1].1) && no_outputs(s[k1].2) {
                    let k1 = choose|k1: int| 0 <= k1 < n && #[trigger] visited@[k1] && p == (s[k1].0, s[k1].1) && no_outputs(s[k1].2);
                    if k1 == k as int {
                        assert(sinks@[sinks@.len() - 1] == p);
                    } else {
                        assert(vis0[k1]);
                        assert(old_sinks.contains(p));
                        let q = choose|q: int| 0 <= q < old_sinks.len() && old_sinks[q] == p;
                        assert(sinks@[q] == p);
                    }
                }
            }
            assert(found_ok(s, visited@, blocks@, sources@, sinks@, new_order));
        }
        Ghost(new_order)
    }

    /// The chain of blocks connected to the block at `(x, y)`, without loaded blocks.
    #[verifier::spinoff_prover]
    #[verifier::rlimit(40)]
    pub fn chain_at(&self, x: i64, y: i64) -> (r: Option<Box<BlockChain>>)
        requires
            self.wf(),
        ensures
            match cell_index(self@.blocks, x as int, y as int) {
                Some(a) => match r {
                    Some(c) => chain_of(self@.blocks, a, c@) && c@.load.len() == 0 && c@.area_id == 0,
                    None => false,
                },
                None => r is None,
            },
    {
        let ghost s = self@.blocks;
        let a = match self.cover_at(x, y) {
            Some(a) => a,
            None => return None,
        };
        let n = self.blocks.len();
        let mut visited: Vec<bool> = Vec::new();
        let mut t: usize = 0;
        while t < n
            invariant
                t <= n,
                visited@.len() == t,
                forall|j: int| 0 <= j < t ==> !visited@[j],
            decreases n - t,
        {
            visited.push(false);
            t += 1;
        }
        let mut queue: Vec<usize> = Vec::new();
        queue.push(a);
        proof {
            lemma_member_start(s, a as int);
            assert(queue@[0] == a);
        }
        let mut head: usize = 0;
        let mut blocks: Vec<(i64, i64)> = Vec::new();
        let mut sources: Vec<(i64, i64)> = Vec::new();
        let mut sinks: Vec<(i64, i64)> = Vec::new();
        let ghost mut order: Seq<int> = Seq::empty();
        proof {
            reveal(found_ok);
            assert(found_ok(s, visited@, blocks@, sources@, sinks@, order));
        }

        while head < queue.len()
            invariant
                s == placed_view(self.blocks@),
                blocks_wf(s),
                n == s.len(),
                0 <= a < n,
                visited@.len() == n,
                head <= queue@.len(),
                forall|j: int| 0 <= j < queue@.len() ==> #[trigger] queue@[j] < n && chain_member(s, a as int, queue@[j] as int),
                forall|k: int| 0 <= k < n && #[trigger] visited@[k] ==> chain_member(s, a as int, k),
                forall|i: int, j: int|
                    0 <= i < n && 0 <= j < n && visited@[i] && #[trigger] linked(s, i, j) ==> visited@[j] || exists|q: int|
                        head <= q < queue@.len() && queue@[q] == j,
                visited@[a as int] || exists|q: int| head <= q < queue@.len() && queue@[q] == a,
                found_ok(s, visited@, blocks@, sources@, sinks@, order),
                order.len() <= n,
            decreases n - order.len(), queue@.len() - head,
        {
            let k = queue[head];
            head += 1;
            if visited[k] {
                proof {
                    assert forall|i: int, m: int|
                        0 <= i < n && 0 <= m < n && visited@[i] && #[trigger] linked(s, i, m) implies visited@[m] || exists|q: int|
                            head <= q < queue@.len() && queue@[q] == m by {
                        if !visited@[m] {
                            let q = choose|q: int| head - 1 <= q < queue@.len() && queue@[q] == m;
                            assert(q != head - 1);
                        }
                    }
                }
                continue;
            }
            let ghost vis0 = visited@;
            let ghost q0 = queue@;
            let Ghost(new_order) = self.record_visit(k, &mut visited, &mut blocks, &mut sources, &mut sinks, Ghost(order));
            proof {
                order = new_order;
                lemma_found_order_len(s, visited@, blocks@, sources@, sinks@, order);
            }
            let partners = self.linked_partners(k);
            let ghost qbase = queue@;
            let mut j: usize = 0;
            while j < partners.len()
                invariant
                    s == placed_view(self.blocks@),
                    n == s.len(),
                    k < n,
                    chain_member(s, a as int, k as int),
                    j <= partners@.len(),
                    forall|t: int| 0 <= t < partners@.len() ==> #[trigger] partners@[t] < n && linked(s, k as int, partners@[t] as int),
                    queue@ == qbase + partners@.subrange(0, j as int),
                    forall|q: int| 0 <= q < qbase.len() ==> #[trigger] qbase[q] < n && chain_member(s, a as int, qbase[q] as int),
                decreases partners.len() - j,
            {
                let m = partners[j];
                proof {
                    lemma_member_linked(s, a as int, k as int, m as int);
                }
                queue.push(m);
                j += 1;
                proof {
                    assert(queue@ =~= qbase + partners@.subrange(0, j as int));
                }
            }
            proof {
                assert(partners@.subrange(0, partners@.len() as int) =~= partners@);
                assert forall|q: int| 0 <= q < queue@.len() implies #[trigger] queue@[q] < n && chain_member(s, a as int, queue@[q] as int) by {
                    if q >= qbase.len() {
                        assert(queue@[q] == partners@[q - qbase.len()]);
                        lemma_member_linked(s, a as int, k as int, queue@[q] as int);
                    } else {
                        assert(queue@[q] == qbase[q]);
                    }
                }
                assert forall|k1: int| 0 <= k1 < n && #[trigger] visited@[k1] implies chain_member(s, a as int, k1) by {
                    if k1 != k as int {
                        assert(vis0[k1]);
                    }
                }
                assert forall|i: int, m: int|
                    0 <= i < n && 0 <= m < n && visited@[i] && #[trigger] linked(s, i, m) implies visited@[m] || exists|q: int|
                        head <= q < queue@.len() && queue@[q] == m by {
                    if i == k as int {
                        let t = choose|t: int| 0 <= t < partners@.len() && partners@[t] == m as usize;
                        assert(queue@[qbase.len() + t] == m);
                    } else {
                        assert(vis0[i]);
                        if !visited@[m] {
                            assert(!vis0[m]);
                            let q = choose|q: int| head - 1 <= q < q0.len() && q0[q] == m;
                            if q == head - 1 {
                                assert(m == k as int);
                            } else {
                                assert(queue@[q] == m);
                            }
                        }
                    }
                }
                if !visited@[a as int] {
                    let q = choose|q: int| head - 1 <= q < q0.len() && q0[q] == a;
                    assert(queue@[q] == a);
                }
            }
        }
        proof {
            reveal(found_ok);
            assert(visited@[a as int]);
            assert forall|k: int| 0 <= k < n implies (visited@[k] <==> chain_member(s, a as int, k)) by {
                if chain_member(s, a as int, k) {
                    lemma_reach_closed(s, a as int, visited@, k);
                }
            }
            assert(blocks@.no_duplicates()) by {
                assert forall|i: int, j: int| 0 <= i < blocks@.len() && 0 <= j < blocks@.len() && i != j
                    implies blocks@[i] != blocks@[j] by {
                    assert(order[i] != order[j]);
                }
            }
            assert forall|p: (i64, i64)| blocks@.contains(p) <==> exists|k: int| #[trigger]
                chain_member(s, a as int, k) && p == (s[k].0, s[k].1) by {
                if blocks@.contains(p) {
                    let q = choose|q: int| 0 <= q < blocks@.len() && blocks@[q] == p;
                    assert(order.contains(order[q]));
                    assert(chain_member(s, a as int, order[q]));
                }
                if exists|k: int| #[trigger] chain_member(s, a as int, k) && p == (s[k].0, s[k].1) {
                    let k = choose|k: int| #[trigger] chain_member(s, a as int, k) && p == (s[k].0, s[k].1);
                    assert(order.contains(k));
                    let q = choose|q: int| 0 <= q < order.len() && order[q] == k;
                    assert(blocks@[q] == p);
                }
            }
            assert forall|p: (i64, i64)| sources@.contains(p) <==> exists|k: int| #[trigger]
                chain_member(s, a as int, k) && p == (s[k].0, s[k].1) && no_inputs(s[k].2) by {
                if sources@.contains(p) {
                    let k = choose|k1: int| 0 <= k1 < n && #[trigger] visited@[k1] && p == (s[k1].0, s[k1].1) && no_inputs(s[k1].2);
                    assert(chain_member(s, a as int, k));
                }
                if exists|k: int| #[trigger] chain_member(s, a as int, k) && p == (s[k].0, s[k].1) && no_inputs(s[k].2) {
                    let k = choose|k: int| #[trigger] chain_member(s, a as int, k) && p == (s[k].0, s[k].1) && no_inputs(s[k].2);
                    assert(visited@[k]);
                }
            }
            assert forall|p: (i64, i64)| sinks@.contains(p) <==> exists|k: int| #[trigger]
                chain_member(s, a as int, k) && p == (s[k].0, s[k].1) && no_outputs(s[k].2) by {
                if sinks@.contains(p) {
                    let k = choose|k1: int| 0 <= k1 < n && #[trigger] visited@[k1] && p == (s[k1].0, s[k1].1) && no_outputs(s[k1].2);
                    assert(chain_member(s, a as int, k));
                }
                if exists|k: int| #[trigger] chain_member(s, a as int, k) && p == (s[k].0, s[k].1) && no_outputs(s[k].2) {
                    let k = choose|k: int| #[trigger] chain_member(s, a as int, k) && p == (s[k].0, s[k].1) && no_outputs(s[k].2);
                    assert(visited@[k]);
                }
            }
        }
        Some(Box::new(BlockChain { area_id: 0, blocks, sources, sinks, load: Vec::new() }))
    }

    /// The index of the block that occupies `(x, y)`.
    fn cover_at(&self, x: i64, y: i64) -> (r: Option<usize>)
        ensures
            match r {
                Some(i) => cell_index(self@.blocks, x as int, y as int) == Some(i as int),
                None => cell_index(self@.blocks, x as int, y as int) is None,
            },
    {
        let ghost s = self@.blocks;
        let mut i: usize = 0;
        while i < self.blocks.len()
            invariant
                i <= self.blocks@.len(),
                s == placed_view(self.blocks@),
                forall|j: int| 0 <= j < i ==> !covers(#[trigger] s[j], x as int, y as int),
            decreases self.blocks.len() - i,
        {
            let e = &self.blocks[i];
            let bx = e.0;
            let by = e.1;
            let rows = e.2.rows;
            if bx == x && by <= y && (y as i128 - by as i128) < rows as i128 {
                proof {
                    assert(covers(s[i as int], x as int, y as int));
                    assert(is_first_cover(s, x as int, y as int, i as int));
                    lemma_first_cover_unique(s, x as int, y as int, i as int);
                }
                return Some(i);
            }
            i += 1;
        }
        proof {
            lemma_no_cover(s, x as int, y as int);
        }
        None
    }

    /// The index of the block whose origin is `(x, y)`.
    fn index_of_origin(&self, x: i64, y: i64) -> (r: Option<usize>)
        ensures
            match r {
                Some(i) => i < self@.blocks.len() && self@.blocks[i as int].0 == x && self@.blocks[i as int].1 == y,
                None => origin_index(self@.blocks, x as int, y as int) is None,
            },
    {
        let ghost s = self@.blocks;
        let mut i: usize = 0;
        while i < self.blocks.len()
            invariant
                i <= self.blocks@.len(),
                s == placed_view(self.blocks@),
                forall|j: int| 0 <= j < i ==> !(#[trigger] s[j].0 == x && s[j].1 == y),
            decreases self.blocks.len() - i,
        {
            if self.blocks[i].0 == x && self.blocks[i].1 == y {
                return Some(i);
            }
            i += 1;
        }
        None
    }

    /// The block that occupies the cell `(x, y)`.
    fn ref_at(&self, x: i64, y: i64) -> (r: Option<&Block>)
        ensures
            match cell_index(self@.blocks, x as int, y as int) {
                Some(i) => r is Some && r->0@ == self@.blocks[i].2,
                None => r is None,
            },
    {
        match self.cover_at(x, y) {
            Some(i) => Some(&*self.blocks[i].2),
            None => None,
        }
    }

    /// The block that occupies the cell `(x, y)`, with its origin.
    fn ref_at_origin(&self, x: i64, y: i64) -> (r: Option<(&Block, i64, i64)>)
        ensures
            match cell_index(self@.blocks, x as int, y as int) {
                Some(i) => match r {
                    Some(t) => t.0@ == self@.blocks[i].2 && t.1 == self@.blocks[i].0 && t.2 == self@.blocks[i].1,
                    None => false,
                },
                None => r is None,
            },
    {
        match self.cover_at(x, y) {
            Some(i) => {
                let e = &self.blocks[i];
                Some((&*e.2, e.0, e.1))
            },
            None => None,
        }
    }

    /// The block whose origin is `(x, y)`.
    fn block_with_origin(&self, x: i64, y: i64) -> (r: Option<&Block>)
        ensures
            self.wf() ==> match origin_index(self@.blocks, x as int, y as int) {
                Some(i) => r is Some && r->0@ == self@.blocks[i].2,
                None => r is None,
            },
    {
        match self.index_of_origin(x, y) {
            Some(i) => {
                proof {
                    if self.wf() {
                        lemma_origin_index(self@.blocks, x as int, y as int, i as int);
                    }
                }
                Some(&*self.blocks[i].2)
            },
            None => None,
        }
    }

    /// Shifts a port of the block that occupies `(x, y)`; returns whether
    /// there was one.
    fn shift_port_at(&mut self, x: i64, y: i64, row: usize, output: bool) -> (r: bool)
        requires
            old(self).wf(),
            match cell_index(old(self)@.blocks, x as int, y as int) {
                Some(i) => {
                    let b = old(self)@.blocks[i].2;
                    shift_index_ok(if output { b.outputs } else { b.inputs }, b.rows, row)
                },
                None => true,
            },
        ensures
            final(self).wf(),
            r == cell_index(old(self)@.blocks, x as int, y as int) is Some,
            final(self)@ == match cell_index(old(self)@.blocks, x as int, y as int) {
                Some(i) => {
                    let e = old(self)@.blocks[i];
                    AreaSpec { blocks: old(self)@.blocks.update(i, (e.0, e.1, shifted_block(e.2, row, output))), ..old(self)@ }
                },
                None => old(self)@,
            },
            forall|n: nat| subs_below(old(self)@.blocks, n) ==> subs_below(final(self)@.blocks, n),
    {
        let ghost s = self@.blocks;
        match self.cover_at(x, y) {
            Some(i) => {
                let mut e = self.blocks.remove(i);
                e.2.shift_port(row, output);
                self.blocks.insert(i, e);
                proof {
                    let ne = (s[i as int].0, s[i as int].1, shifted_block(s[i as int].2, row, output));
                    assert(placed_view(self.blocks@) =~= s.update(i as int, ne));
                    let t = placed_view(self.blocks@);
                    assert forall|a: int, b: int, c: int|
                        0 <= a < t.len() && 0 <= b < t.len() && a != b && covers(t[a], t[a].0 as int, c) implies !covers(
                        t[b],
                        t[a].0 as int,
                        c,
                    ) by {
                        assert(covers(s[a], s[a].0 as int, c));
                    }
                    assert forall|n: nat| subs_below(s, n) implies subs_below(t, n) by {
                        assert forall|k: int| #![trigger t[k]] 0 <= k < t.len() implies (t[k].2.contains.0 matches Some(
                            c,
                        ) ==> c < n) && (t[k].2.contains.1 matches Some(c) ==> c < n) by {
                            assert(s[k].2.contains == t[k].2.contains);
                        }
                    }
                    assert forall|k: int| #![trigger t[k]] 0 <= k < t.len() implies t[k].2.contains == s[k].2.contains && t[k].0 == s[k].0 && t[k].1 == s[k].1 && t[k].2.rows == s[k].2.rows by {}
                }
                true
            },
            None => false,
        }
    }

    /// Whether a block of `rows` rows can be placed at `(x, y)`.
    fn check_space_at(&self, x: i64, y: i64, rows: usize) -> (r: bool)
        ensures
            r == space_at(self@.blocks, x as int, y as int, rows as int),
    {
        let ghost s = self@.blocks;
        if x == i64::MIN || x == i64::MAX || rows as i128 > i64::MAX as i128 || rows as i128 + y as i128 > i64::MAX as i128
            + 1 {
            return false;
        }
        let mut i: usize = 0;
        while i < self.blocks.len()
            invariant
                i <= self.blocks@.len(),
                s == placed_view(self.blocks@),
                in_domain(x as int, y as int, rows as int),
                forall|j: int, c: int| 0 <= j < i && y <= c < y + rows ==> !#[trigger] covers(s[j], x as int, c),
            decreases self.blocks.len() - i,
        {
            let e = &self.blocks[i];
            let bx = e.0;
            let by = e.1;
            let brows = e.2.rows;
            if bx == x && brows > 0 && rows > 0 && (by as i128) < (y as i128 + rows as i128) && (y as i128) < (
            by as i128 + brows as i128) {
                proof {
                    assert(s[i as int] == (bx, by, e.2@));
                    let c: int = if by <= y { y as int } else { by as int };
                    assert(covers(s[i as int], x as int, c));
                    assert(is_first_cover(s, x as int, c, i as int));
                    lemma_first_cover_unique(s, x as int, c, i as int);
                }
                return false;
            }
            i += 1;
        }
        proof {
            assert forall|c: int| y <= c < y + rows implies #[trigger] cell_index(s, x as int, c) is None by {
                lemma_no_cover(s, x as int, c);
            }
        }
        true
    }
}

// ---------------------------------------------------------------------------
// Block types and the language
// ---------------------------------------------------------------------------

/// The kind of user input a block type asks for when it is placed.
#[derive(Debug, Clone, Copy, PartialEq, Eq, Structural)]
pub enum BlockUserInput {
    NoInput,
    Float,
    Integer,
    Identifier,
    ClientDecision,
}

impl Default for BlockUserInput {
    fn default() -> (r: Self)
        ensures
            r == BlockUserInput::NoInput,
    {
        BlockUserInput::NoInput
    }
}

impl BlockUserInput {
    /// Whether a user input is needed.
    pub fn needs_input(&self) -> (r: bool)
        ensures
            r == (*self != BlockUserInput::NoInput),
    {
        !matches!(self, BlockUserInput::NoInput)
    }
}

/// A type of block that a language defines.
#[derive(Debug)]
pub struct BlockType {
    pub category: String,
    pub name: String,
    pub rows: usize,
    pub inputs: Vec<Option<String>>,
    pub outputs: Vec<Option<String>>,
    pub area_count: usize,
    pub user_input: BlockUserInput,
    pub description: String,
    pub color: usize,
}

impl Default for BlockType {
    fn default() -> (r: Self)
        ensures
            r.category@ == Seq::<char>::empty(),
            r.name@ == Seq::<char>::empty(),
            r.rows == 0,
            r.inputs@.len() == 0,
            r.outputs@.len() == 0,
            r.area_count == 0,
            r.user_input == BlockUserInput::NoInput,
            r.description@ == Seq::<char>::empty(),
            r.color == 0,
    {
        BlockType {
            category: String::new(),
            name: String::new(),
            rows: 0,
            inputs: Vec::new(),
            outputs: Vec::new(),
            area_count: 0,
            user_input: BlockUserInput::NoInput,
            description: String::new(),
            color: 0,
        }
    }
}

/// The sub area placeholders a block of a type with `area_count` areas gets.
pub open spec fn contains_for(area_count: usize) -> (Option<usize>, Option<usize>) {
    if area_count == 1 {
        (Some(1usize), None)
    } else if area_count == 2 {
        (Some(1usize), Some(1usize))
    } else {
        (None, None)
    }
}

/// The block that a type instantiates, with the given ID and label.
pub open spec fn instance_of(t: BlockType, id: usize, lbl: Seq<char>) -> BlockSpec {
    type_instance(type_spec(t), id, lbl)
}

/// The block that a type, as the language holds it, instantiates with the
/// given ID and label.
pub open spec fn type_instance(t: TypeSpec, id: usize, lbl: Seq<char>) -> BlockSpec {
    BlockSpec {
        id,
        rows: t.rows,
        contains: contains_for(t.area_count),
        expanded: true,
        typ: t.name,
        lbl,
        inputs: t.inputs,
        outputs: t.outputs,
        color: t.color,
    }
}

impl BlockType {
    /// Sets the sub area placeholders of `block` for this type.
    fn touch_contains(&self, block: &mut Block)
        ensures
            final(block)@ == (BlockSpec { contains: contains_for(self.area_count), ..old(block)@ }),
    {
        block.contains = match self.area_count {
            0 => (None, None),
            1 => (Some(1), None),
            2 => (Some(1), Some(1)),
            _ => (None, None),
        };
    }

    /// A new block of this type with the next ID; its label is the user input
    /// if there is one, else the type name.
    pub fn instanciate_block(&self, user_input: Option<String>, id_gen: &mut BlockIDGenerator) -> (r: Box<Block>)
        ensures
            final(id_gen)@ == id_after(old(id_gen)@ as nat, 1),
            r@ == instance_of(
                *self,
                final(id_gen)@,
                match user_input {
                    Some(u) => u@,
                    None => self.name@,
                },
            ),
    {
        let id = id_gen.next();
        let lbl = match user_input {
            Some(inp) => inp,
            None => self.name.clone(),
        };
        let mut block = Box::new(
            Block {
                id,
                rows: self.rows,
                contains: (None, None),
                expanded: true,
                typ: self.name.clone(),
                lbl,
                inputs: clone_ports(&self.inputs),
                outputs: clone_ports(&self.outputs),
                color: self.color,
            },
        );
        self.touch_contains(&mut *block);
        block
    }

    /// A copy of this type.
    fn clone_type(&self) -> (r: Self)
        ensures
            r.category@ == self.category@,
            r.name@ == self.name@,
            r.rows == self.rows,
            ports_view(r.inputs@) == ports_view(self.inputs@),
            ports_view(r.outputs@) == ports_view(self.outputs@),
            r.area_count == self.area_count,
            r.user_input == self.user_input,
            r.description@ == self.description@,
            r.color == self.color,
    {
        BlockType {
            category: self.category.clone(),
            name: self.name.clone(),
            rows: self.rows,
            inputs: clone_ports(&self.inputs),
            outputs: clone_ports(&self.outputs),
            area_count: self.area_count,
            user_input: self.user_input,
            description: self.description.clone(),
            color: self.color,
        }
    }
}

/// `a` sorts before `b`: character by character, by code point, a proper
/// prefix first.
pub open spec fn chars_less(a: Seq<char>, b: Seq<char>) -> bool
    decreases a.len(),
{
    if b.len() == 0 {
        false
    } else if a.len() == 0 {
        true
    } else if (a[0] as int) < (b[0] as int) {
        true
    } else if a[0] == b[0] {
        chars_less(a.drop_first(), b.drop_first())
    } else {
        false
    }
}

/// Whether `a` sorts before `b`.
fn str_less(a: &str, b: &str) -> (r: bool)
    ensures
        r == chars_less(a@, b@),
{
    let la = a.unicode_len();
    let lb = b.unicode_len();
    let mut i: usize = 0;
    proof {
        assert(a@.subrange(0, la as int) =~= a@);
        assert(b@.subrange(0, lb as int) =~= b@);
    }
    while i < la && i < lb
        invariant
            i <= la,
            i <= lb,
            la == a@.len(),
            lb == b@.len(),
            forall|j: int| 0 <= j < i ==> a@[j] == b@[j],
            chars_less(a@, b@) == chars_less(a@.subrange(i as int, la as int), b@.subrange(i as int, lb as int)),
        decreases la - i,
    {
        let ca = a.get_char(i);
        let cb = b.get_char(i);
        proof {
            let sa = a@.subrange(i as int, la as int);
            let sb = b@.subrange(i as int, lb as int);
            assert(sa[0] == ca && sb[0] == cb);
            assert(sa.drop_first() =~= a@.subrange(i + 1, la as int));
            assert(sb.drop_first() =~= b@.subrange(i + 1, lb as int));
        }
        if ca < cb {
            return true;
        }
        if ca != cb {
            return false;
        }
        i += 1;
    }
    proof {
        assert(a@.subrange(i as int, la as int).len() == la - i);
    }
    i == la && i < lb
}

/// What a language is, as the contracts speak of it: its types in storage
/// order, with distinct names, and its identifiers.
pub ghost struct LangSpec {
    pub types: Seq<TypeSpec>,
    pub identifiers: Seq<Seq<char>>,
}

/// What a block type is, as the contracts speak of it.
pub ghost struct TypeSpec {
    pub category: Seq<char>,
    pub name: Seq<char>,
    pub rows: usize,
    pub inputs: Seq<Option<Seq<char>>>,
    pub outputs: Seq<Option<Seq<char>>>,
    pub area_count: usize,
    pub user_input: BlockUserInput,
    pub description: Seq<char>,
    pub color: usize,
}

/// The model of a block type.
pub open spec fn type_spec(t: BlockType) -> TypeSpec {
    TypeSpec {
        category: t.category@,
        name: t.name@,
        rows: t.rows,
        inputs: ports_view(t.inputs@),
        outputs: ports_view(t.outputs@),
        area_count: t.area_count,
        user_input: t.user_input,
        description: t.description@,
        color: t.color,
    }
}

/// The index of the type named `name`.
pub open spec fn type_index(types: Seq<TypeSpec>, name: Seq<char>) -> Option<int> {
    if exists|i: int| 0 <= i < types.len() && types[i].name == name {
        Some(choose|i: int| 0 <= i < types.len() && types[i].name == name)
    } else {
        None
    }
}

/// The type named `name`.
pub open spec fn lang_type(l: LangSpec, name: Seq<char>) -> Option<TypeSpec> {
    match type_index(l.types, name) {
        Some(i) => Some(l.types[i]),
        None => None,
    }
}

/// The types after defining `t`: it replaces the type of the same name, or
/// comes last.
pub open spec fn defined_types(types: Seq<TypeSpec>, t: TypeSpec) -> Seq<TypeSpec> {
    match type_index(types, t.name) {
        Some(i) => types.update(i, t),
        None => types.push(t),
    }
}

/// No two types share a name and no identifier is listed twice.
pub open spec fn lang_wf(l: LangSpec) -> bool {
    &&& forall|i: int, j: int| 0 <= i < l.types.len() && 0 <= j < l.types.len() && i != j ==> l.types[i].name
        != l.types[j].name
    &&& l.identifiers.no_duplicates()
}

/// The identifiers that [`BlockLanguage::list_identifiers`] lists of a well
/// formed language are all different.
pub proof fn law_listed_identifiers_distinct(v: Seq<Seq<char>>, l: LangSpec)
    requires
        lang_wf(l),
        v.to_multiset() == l.identifiers.to_multiset(),
    ensures
        v.no_duplicates(),
{
    l.identifiers.lemma_multiset_has_no_duplicates();
    v.lemma_multiset_has_no_duplicates_conv();
}

/// The names of the present ports in the first `n` rows, in row order.
pub open spec fn port_names(ports: Seq<Option<Seq<char>>>, n: int) -> Seq<Seq<char>>
    decreases n,
{
    if n <= 0 {
        Seq::empty()
    } else {
        let prev = port_names(ports, n - 1);
        if n - 1 < ports.len() && ports[n - 1] is Some {
            prev.push(ports[n - 1]->0)
        } else {
            prev
        }
    }
}

/// The identifiers are sorted.
pub open spec fn names_sorted(v: Seq<Seq<char>>) -> bool {
    forall|i: int, j: int| 0 <= i < j < v.len() ==> !chars_less(v[j], v[i])
}

/// A language of block types and identifiers.
#[derive(Debug)]
pub struct BlockLanguage {
    types: Vec<BlockType>,
    identifiers: Vec<String>,
}

impl View for BlockLanguage {
    type V = LangSpec;

    closed spec fn view(&self) -> LangSpec {
        LangSpec {
            types: self.types@.map_values(|t: BlockType| type_spec(t)),
            identifiers: self.identifiers@.map_values(|s: String| s@),
        }
    }
}

impl BlockLanguage {
    /// An empty language.
    pub fn new() -> (r: Self)
        ensures
            r@.types.len() == 0,
            r@.identifiers.len() == 0,
            lang_wf(r@),
    {
        let r = Self { types: Vec::new(), identifiers: Vec::new() };
        proof {
            assert(r@.identifiers =~= Seq::<Seq<char>>::empty());
        }
        r
    }

    /// The language is well formed.
    pub open spec fn wf(&self) -> bool {
        lang_wf(self@)
    }

    /// The index of the type named `name`.
    fn find_type(&self, name: &str) -> (r: Option<usize>)
        requires
            self.wf(),
        ensures
            match r {
                Some(i) => type_index(self@.types, name@) == Some(i as int) && i < self@.types.len(),
                None => type_index(self@.types, name@) is None,
            },
    {
        let ghost ts = self@.types;
        let mut i: usize = 0;
        while i < self.types.len()
            invariant
                i <= self.types@.len(),
                ts == self@.types,
                lang_wf(self@),
                forall|j: int| 0 <= j < i ==> ts[j].name != name@,
            decreases self.types.len() - i,
        {
            proof {
                assert(ts[i as int] == type_spec(self.types@[i as int]));
            }
            if str_equal(self.types[i].name.as_str(), name) {
                proof {
                    assert(type_index(ts, name@) == Some(i as int));
                }
                return Some(i);
            }
            i += 1;
        }
        None
    }

    /// Adds an identifier.
    pub fn define_identifier(&mut self, id: &str)
        requires
            old(self).wf(),
        ensures
            final(self).wf(),
            final(self)@.types == old(self)@.types,
            final(self)@.identifiers == if old(self)@.identifiers.contains(id@) {
                old(self)@.identifiers
            } else {
                old(self)@.identifiers.push(id@)
            },
    {
        let ghost ids = self@.identifiers;
        let mut i: usize = 0;
        while i < self.identifiers.len()
            invariant
                i <= self.identifiers@.len(),
                ids == self@.identifiers,
                lang_wf(self@),
                forall|j: int| 0 <= j < i ==> ids[j] != id@,
            decreases self.identifiers.len() - i,
        {
            proof {
                assert(ids[i as int] == self.identifiers@[i as int]@);
            }
            if str_equal(self.identifiers[i].as_str(), id) {
                return;
            }
            i += 1;
        }
        let v = id.to_owned();
        self.identifiers.push(v);
        proof {
            assert(self@.identifiers =~= ids.push(id@));
            assert(self@.types =~= old(self)@.types);
            assert forall|a: int, b: int| 0 <= a < b < ids.len() + 1 implies self@.identifiers[a]
                != self@.identifiers[b] by {
                if b < ids.len() {
                    assert(ids.no_duplicates());
                }
            }
            assert(!ids.contains(id@));
        }
    }

    /// Defines a type, replacing a type with the same name.
    pub fn define(&mut self, typ: BlockType)
        requires
            old(self).wf(),
        ensures
            final(self).wf(),
            final(self)@.identifiers == old(self)@.identifiers,
            final(self)@.types == defined_types(old(self)@.types, type_spec(typ)),
    {
        let ghost ts = self@.types;
        let ghost t = type_spec(typ);
        match self.find_type(typ.name.as_str()) {
            Some(i) => {
                self.types.set(i, typ);
                proof {
                    assert(self@.types =~= ts.update(i as int, t));
                    assert(ts[i as int].name == t.name);
                    assert forall|a: int, b: int|
                        0 <= a < ts.len() && 0 <= b < ts.len() && a != b implies self@.types[a].name
                        != self@.types[b].name by {
                        if a != i && b != i {
                            assert(ts[a].name != ts[b].name);
                        } else if a == i {
                            assert(ts[i as int].name != ts[b].name);
                        } else {
                            assert(ts[a].name != ts[i as int].name);
                        }
                    }
                }
            },
            None => {
                self.types.push(typ);
                proof {
                    assert(self@.types =~= ts.push(t));
                    assert forall|a: int, b: int|
                        0 <= a < ts.len() + 1 && 0 <= b < ts.len() + 1 && a != b implies self@.types[a].name
                        != self@.types[b].name by {
                        if a < ts.len() && b < ts.len() {
                            assert(ts[a].name != ts[b].name);
                        } else if a == ts.len() {
                            assert(ts[b].name != t.name);
                        } else {
                            assert(ts[a].name != t.name);
                        }
                    }
                }
            },
        }
        proof {
            assert(self@.identifiers =~= old(self)@.identifiers);
        }
    }

    /// Whether `id` is an identifier of the language.
    pub fn is_identifier(&self, id: &str) -> (r: bool)
        ensures
            r == self@.identifiers.contains(id@),
    {
        let ghost ids = self@.identifiers;
        let mut i: usize = 0;
        while i < self.identifiers.len()
            invariant
                i <= self.identifiers@.len(),
                ids == self@.identifiers,
                forall|j: int| 0 <= j < i ==> ids[j] != id@,
            decreases self.identifiers.len() - i,
        {
            proof {
                assert(ids[i as int] == self.identifiers@[i as int]@);
            }
            if str_equal(self.identifiers[i].as_str(), id) {
                return true;
            }
            i += 1;
        }
        false
    }

    /// The identifiers, sorted.
    pub fn list_identifiers(&self) -> (r: Vec<String>)
        ensures
            r@.map_values(|s: String| s@).to_multiset() == self@.identifiers.to_multiset(),
            names_sorted(r@.map_values(|s: String| s@)),
    {
        broadcast use vstd::seq_lib::group_to_multiset_ensures;
        let ghost ids = self@.identifiers;
        let mut out: Vec<String> = Vec::new();
        let mut i: usize = 0;
        while i < self.identifiers.len()
            invariant
                i <= self.identifiers@.len(),
                ids == self@.identifiers,
                out@.map_values(|s: String| s@).to_multiset() == ids.subrange(0, i as int).to_multiset(),
                names_sorted(out@.map_values(|s: String| s@)),
            decreases self.identifiers.len() - i,
        {
            let e = self.identifiers[i].clone();
            let ghost ov = out@.map_values(|s: String| s@);
            let mut k: usize = out.len();
            while k > 0 && str_less(e.as_str(), out[k - 1].as_str())
                invariant
                    k <= out@.len(),
                    ov == out@.map_values(|s: String| s@),
                    forall|j: int| k <= j < ov.len() ==> chars_less(e@, ov[j]),
                decreases k,
            {
                k -= 1;
            }
            proof {
                assert forall|j: int| 0 <= j < k implies !chars_less(e@, ov[j]) by {
                    lemma_chars_less_sorted_prefix(ov, e@, j, k as int);
                }
            }
            out.insert(k, e);
            proof {
                let nv = out@.map_values(|s: String| s@);
                assert(nv =~= ov.insert(k as int, e@));
                vstd::seq_lib::to_multiset_insert(ov, k as int, e@);
                assert(ids[i as int] == self.identifiers@[i as int]@);
                assert(ids.subrange(0, i + 1) =~= ids.subrange(0, i as int).push(e@));
                vstd::seq_lib::to_multiset_build(ids.subrange(0, i as int), e@);
                assert forall|a: int, b: int| 0 <= a < b < nv.len() implies !chars_less(nv[b], nv[a]) by {
                    if a < k && b == k {
                    } else if a == k {
                        assert(chars_less(e@, ov[b - 1]));
                        lemma_chars_less_asym(e@, ov[b - 1]);
                    } else if b < k {
                    } else if a < k {
                        assert(!chars_less(ov[b - 1], ov[a]));
                    } else {
                        assert(!chars_less(ov[b - 1], ov[a - 1]));
                    }
                }
            }
            i += 1;
        }
        proof {
            assert(ids.subrange(0, ids.len() as int) =~= ids);
        }
        out
    }

    /// The output ports of the type named `typ`.
    pub fn get_type_outputs(&self, typ: &str) -> (r: Option<&[Option<String>]>)
        requires
            self.wf(),
        ensures
            match lang_type(self@, typ@) {
                Some(t) => r is Some && ports_view(r->0@) == t.outputs,
                None => r is None,
            },
    {
        match self.find_type(typ) {
            Some(i) => {
                proof {
                    assert(type_index(self@.types, typ@) == Some(i as int));
                    assert(self@.types[i as int] == type_spec(self.types@[i as int]));
                    assert(lang_type(self@, typ@) == Some(self@.types[i as int]));
                }
                let r = self.types[i].outputs.as_slice();
                proof {
                    assert(ports_view(r@) == self@.types[i as int].outputs);
                }
                Some(r)
            },
            None => None,
        }
    }

    /// The input ports of the type named `typ`.
    pub fn get_type_inputs(&self, typ: &str) -> (r: Option<&[Option<String>]>)
        requires
            self.wf(),
        ensures
            match lang_type(self@, typ@) {
                Some(t) => r is Some && ports_view(r->0@) == t.inputs,
                None => r is None,
            },
    {
        match self.find_type(typ) {
            Some(i) => {
                proof {
                    assert(type_index(self@.types, typ@) == Some(i as int));
                    assert(self@.types[i as int] == type_spec(self.types@[i as int]));
                    assert(lang_type(self@, typ@) == Some(self@.types[i as int]));
                }
                let r = self.types[i].inputs.as_slice();
                proof {
                    assert(ports_view(r@) == self@.types[i as int].inputs);
                }
                Some(r)
            },
            None => None,
        }
    }

    /// The name of the `idx`-th present output of the type named `typ`.
    pub fn get_output_name_at_index(&self, typ: &str, idx: usize) -> (r: Option<String>)
        requires
            self.wf(),
        ensures
            match lang_type(self@, typ@) {
                Some(t) => {
                    let names = port_names(t.outputs, t.outputs.len() as int);
                    if idx < names.len() {
                        r is Some && r->0@ == names[idx as int]
                    } else {
                        r is None
                    }
                },
                None => r is None,
            },
    {
        if let Some(outs) = self.get_type_outputs(typ) {
            let ghost pv = ports_view(outs@);
            let mut i: usize = 0;
            let mut k: usize = 0;
            while k < outs.len()
                invariant
                    k <= outs@.len(),
                    pv == ports_view(outs@),
                    lang_type(self@, typ@) is Some,
                    lang_type(self@, typ@)->0.outputs == pv,
                    i == port_names(pv, k as int).len(),
                    i <= idx,
                    (i as int) <= k,
                decreases outs.len() - k,
            {
                proof {
                    assert(pv[k as int] == match outs@[k as int] {
                        Some(s) => Some(s@),
                        None => None::<Seq<char>>,
                    });
                }
                if let Some(outname) = &outs[k] {
                    proof {
                        assert(port_names(pv, k + 1) == port_names(pv, k as int).push(outname@));
                    }
                    if i == idx {
                        proof {
                            lemma_port_names_prefix(pv, k + 1, pv.len() as int);
                            assert(port_names(pv, k + 1)[idx as int] == outname@);
                            assert(port_names(pv, pv.len() as int)[idx as int] == outname@);
                        }
                        return Some(outname.clone());
                    }
                    i += 1;
                } else {
                    proof {
                        assert(port_names(pv, k + 1) == port_names(pv, k as int));
                    }
                }
                k += 1;
            }
            None
        } else {
            None
        }
    }

    /// The number of present outputs of the type named `typ`; 0 for an unknown type.
    pub fn type_output_count(&self, typ: &str) -> (r: usize)
        requires
            self.wf(),
        ensures
            match lang_type(self@, typ@) {
                Some(t) => r == port_names(t.outputs, t.outputs.len() as int).len(),
                None => r == 0,
            },
    {
        let mut cnt: usize = 0;
        if let Some(outs) = self.get_type_outputs(typ) {
            let ghost pv = ports_view(outs@);
            let mut k: usize = 0;
            while k < outs.len()
                invariant
                    k <= outs@.len(),
                    pv == ports_view(outs@),
                    cnt == port_names(pv, k as int).len(),
                    (cnt as int) <= k,
                decreases outs.len() - k,
            {
                if outs[k].is_some() {
                    cnt += 1;
                }
                k += 1;
            }
        }
        cnt
    }

    /// The category, name and user input kind of every type.
    pub fn get_type_list(&self) -> (r: Vec<(String, String, BlockUserInput)>)
        ensures
            r@.len() == self@.types.len(),
            forall|i: int| 0 <= i < r@.len() ==> list_entry(#[trigger] r@[i], self@.types[i]),
    {
        let mut out: Vec<(String, String, BlockUserInput)> = Vec::new();
        let mut i: usize = 0;
        while i < self.types.len()
            invariant
                i <= self.types@.len(),
                out@.len() == i,
                forall|j: int| 0 <= j < i ==> list_entry(#[trigger] out@[j], self@.types[j]),
            decreases self.types.len() - i,
        {
            proof {
                assert(self@.types[i as int] == type_spec(self.types@[i as int]));
            }
            let t = &self.types[i];
            let ghost prev = out@;
            out.push((t.category.clone(), t.name.clone(), t.user_input));
            proof {
                assert(list_entry(out@[i as int], self@.types[i as int]));
                assert forall|j: int| 0 <= j < i implies list_entry(#[trigger] out@[j], self@.types[j]) by {
                    assert(out@[j] == prev[j]);
                }
            }
            i += 1;
        }
        out
    }
}

/// An entry of the type list shows the category, name and user input kind of `t`.
pub open spec fn list_entry(e: (String, String, BlockUserInput), t: TypeSpec) -> bool {
    e.0@ == t.category && e.1@ == t.name && e.2 == t.user_input
}

/// The port names of a prefix are a prefix of the port names.
proof fn lemma_port_names_prefix(ports: Seq<Option<Seq<char>>>, k: int, n: int)
    requires
        0 <= k <= n,
    ensures
        port_names(ports, k).len() <= port_names(ports, n).len(),
        forall|i: int| 0 <= i < port_names(ports, k).len() ==> port_names(ports, n)[i] == port_names(ports, k)[i],
    decreases n - k,
{
    if k < n {
        lemma_port_names_prefix(ports, k, n - 1);
    }
}

/// `chars_less` is asymmetric.
proof fn lemma_chars_less_asym(a: Seq<char>, b: Seq<char>)
    requires
        chars_less(a, b),
    ensures
        !chars_less(b, a),
    decreases a.len(),
{
    if a.len() > 0 && b.len() > 0 && a[0] == b[0] {
        lemma_chars_less_asym(a.drop_first(), b.drop_first());
    }
}

/// `chars_less` is transitive.
proof fn lemma_chars_less_trans(a: Seq<char>, b: Seq<char>, c: Seq<char>)
    requires
        chars_less(a, b),
        chars_less(b, c),
    ensures
        chars_less(a, c),
    decreases a.len(),
{
    if a.len() > 0 && b.len() > 0 && c.len() > 0 && a[0] == b[0] && b[0] == c[0] {
        lemma_chars_less_trans(a.drop_first(), b.drop_first(), c.drop_first());
    }
}

/// `chars_less` is total on distinct sequences.
proof fn lemma_chars_less_total(a: Seq<char>, b: Seq<char>)
    requires
        !chars_less(a, b),
        !chars_less(b, a),
    ensures
        a == b,
    decreases a.len(),
{
    if a.len() > 0 && b.len() > 0 {
        if a[0] == b[0] {
            lemma_chars_less_total(a.drop_first(), b.drop_first());
            assert(a =~= seq![a[0]] + a.drop_first());
            assert(b =~= seq![b[0]] + b.drop_first());
        } else {
            assert((a[0] as int) != (b[0] as int));
        }
    } else {
        assert(a.len() == 0 && b.len() == 0);
        assert(a =~= b);
    }
}

/// In a sorted sequence, an element that is not below the one at `k - 1` is not
/// below any earlier one either.
proof fn lemma_chars_less_sorted_prefix(v: Seq<Seq<char>>, e: Seq<char>, j: int, k: int)
    requires
        names_sorted(v),
        0 <= j < k <= v.len(),
        k > 0 ==> !chars_less(e, v[k - 1]),
    ensures
        !chars_less(e, v[j]),
{
    if j < k - 1 && chars_less(e, v[j]) {
        // v[j] <= v[k-1] and e < v[j] gives e < v[k-1]
        if chars_less(v[j], v[k - 1]) {
            lemma_chars_less_trans(e, v[j], v[k - 1]);
        } else {
            assert(!chars_less(v[k - 1], v[j]));
            lemma_chars_less_total(v[j], v[k - 1]);
        }
    }
}


// ---------------------------------------------------------------------------
// Block functions: the areas of one program
// ---------------------------------------------------------------------------

/// The block after its port at `idx` was shifted (see [`Block::shift_port`]).
pub open spec fn shifted_block(b: BlockSpec, idx: usize, output: bool) -> BlockSpec {
    if b.rows <= 1 {
        b
    } else if output {
        BlockSpec { outputs: shifted_ports(b.outputs, b.rows, idx as int), ..b }
    } else {
        BlockSpec { inputs: shifted_ports(b.inputs, b.rows, idx as int), ..b }
    }
}

/// An empty area of the given size.
pub open spec fn empty_area(w: usize, h: usize, shrink: bool) -> AreaSpec {
    AreaSpec { blocks: Seq::empty(), size: (w, h), auto_shrink: shrink, header: Seq::empty() }
}

/// The errors of the editing operations.
#[derive(Debug, Clone)]
pub enum BlockDSPError {
    UnknownArea(usize),
    UnknownLanguageType(String),
    NoBlockAt(usize, i64, i64),
    CircularAction(usize, usize),
    NoSpaceAvailable(usize, i64, i64, usize),
}

/// What a block function is, as the contracts speak of it: its language, its
/// areas (area 0 is the main area), the last block ID handed out and the
/// generation counter that counts changes.
pub ghost struct FunSpec {
    pub lang: LangSpec,
    pub areas: Seq<AreaSpec>,
    pub id: usize,
    pub generation: u64,
}

/// A block function is well formed: it has a main area, every area is well
/// formed and names only existing sub areas, and its language is well formed.
pub open spec fn fun_wf(f: FunSpec) -> bool {
    &&& f.areas.len() >= 1
    &&& forall|i: int| #![trigger f.areas[i]] 0 <= i < f.areas.len() ==> blocks_wf(f.areas[i].blocks) && subs_below(
        f.areas[i].blocks,
        f.areas.len(),
    )
    &&& lang_wf(f.lang)
}

/// The block that occupies cell `(x, y)` of area `id`, with its index.
pub open spec fn fun_cell(f: FunSpec, id: usize, x: int, y: int) -> Option<int> {
    if id < f.areas.len() {
        cell_index(f.areas[id as int].blocks, x, y)
    } else {
        None
    }
}

/// Mapping a sequence after changing one element changes the same element
/// of the mapped sequence.
pub broadcast proof fn lemma_map_values_update<A, B>(s: Seq<A>, i: int, a: A, f: spec_fn(A) -> B)
    requires
        0 <= i < s.len(),
    ensures
        #[trigger] s.update(i, a).map_values(f) == s.map_values(f).update(i, f(a)),
{
    assert(s.update(i, a).map_values(f) =~= s.map_values(f).update(i, f(a)));
}

/// A program of the block language: a main area and the sub areas of its
/// blocks, with the language and an ID generator.
#[derive(Debug)]
pub struct BlockFun {
    language: Rc<BlockLanguage>,
    areas: Vec<Box<BlockArea>>,
    id_gen: BlockIDGenerator,
    generation: u64,
}

impl View for BlockFun {
    type V = FunSpec;

    closed spec fn view(&self) -> FunSpec {
        FunSpec {
            lang: (*self.language)@,
            areas: self.areas@.map_values(|a: Box<BlockArea>| a@),
            id: self.id_gen@,
            generation: self.generation,
        }
    }
}

impl BlockFun {
    /// A program with an empty 16 x 16 main area.
    pub fn new(lang: Rc<BlockLanguage>) -> (r: Self)
        requires
            lang.wf(),
        ensures
            r@ == (FunSpec { lang: (*lang)@, areas: seq![empty_area(16, 16, false)], id: 0, generation: 0 }),
            r.wf(),
    {
        let mut areas: Vec<Box<BlockArea>> = Vec::new();
        areas.push(Box::new(BlockArea::new(16, 16)));
        let r = Self { language: lang, areas, id_gen: BlockIDGenerator::new(), generation: 0 };
        proof {
            assert(r@.areas =~= seq![empty_area(16, 16, false)]);
        }
        r
    }

    /// The program is well formed.
    pub open spec fn wf(&self) -> bool {
        fun_wf(self@)
    }

    /// Whether nothing was changed since the program was made.
    pub fn is_unset(&self) -> (r: bool)
        ensures
            r == (self@.generation == 0),
    {
        self.generation == 0
    }

    /// The language of the program.
    pub fn block_language(&self) -> (r: Rc<BlockLanguage>)
        ensures
            (*r)@ == self@.lang,
    {
        share_rc(&self.language)
    }

    /// The block that occupies cell `(x, y)` of area `id`.
    pub fn block_ref(&self, id: usize, x: i64, y: i64) -> (r: Option<&Block>)
        ensures
            match fun_cell(self@, id, x as int, y as int) {
                Some(i) => r is Some && r->0@ == self@.areas[id as int].blocks[i].2,
                None => r is None,
            },
    {
        if id < self.areas.len() {
            proof {
                assert(self@.areas[id as int] == self.areas@[id as int]@);
            }
            self.areas[id].ref_at(x, y)
        } else {
            None
        }
    }

    /// The block that occupies cell `(x, y)` of area `id`, to change in
    /// place.
    pub fn block_ref_mut(&mut self, id: usize, x: i64, y: i64) -> (r: Option<&mut Block>)
        ensures
            match fun_cell(old(self)@, id, x as int, y as int) {
                Some(i) => r.is_some() && (*r.unwrap())@ == old(self)@.areas[id as int].blocks[i].2 && final(self)@ == (
                FunSpec {
                    areas: old(self)@.areas.update(
                        id as int,
                        AreaSpec {
                            blocks: old(self)@.areas[id as int].blocks.update(
                                i,
                                (
                                    old(self)@.areas[id as int].blocks[i].0,
                                    old(self)@.areas[id as int].blocks[i].1,
                                    (*final(r.unwrap()))@,
                                ),
                            ),
                            ..old(self)@.areas[id as int]
                        },
                    ),
                    ..old(self)@
                }),
                None => r.is_none() && final(self)@ == old(self)@,
            },
    {
        broadcast use lemma_map_values_update;

        if id >= self.areas.len() {
            return None;
        }
        proof {
            assert(self@.areas[id as int] == self.areas@[id as int]@);
        }
        match self.areas[id].cover_at(x, y) {
            Some(k) => {
                let area: &mut Box<BlockArea> = &mut self.areas[id];
                let entry = &mut area.blocks[k];
                let b: &mut Block = &mut *entry.2;
                Some(b)
            },
            None => None,
        }
    }

    /// The size of area `id`; `(0, 0)` for an unknown area.
    pub fn area_size(&self, id: usize) -> (r: (usize, usize))
        ensures
            r == if id < self@.areas.len() {
                self@.areas[id as int].size
            } else {
                (0usize, 0usize)
            },
    {
        if id < self.areas.len() {
            proof {
                assert(self@.areas[id as int] == self.areas@[id as int]@);
            }
            self.areas[id].size
        } else {
            (0, 0)
        }
    }

    /// The block whose origin is `(x, y)` in area `id`.
    pub fn block_at(&self, id: usize, x: i64, y: i64) -> (r: Option<&Block>)
        ensures
            id < self@.areas.len() && self.wf() ==> match origin_index(self@.areas[id as int].blocks, x as int, y as int) {
                Some(i) => r is Some && r->0@ == self@.areas[id as int].blocks[i].2,
                None => r is None,
            },
            id >= self@.areas.len() ==> r is None,
    {
        if id < self.areas.len() {
            proof {
                assert(self@.areas[id as int] == self.areas@[id as int]@);
            }
            self.areas[id].block_with_origin(x, y)
        } else {
            None
        }
    }

    /// The origin of the block that occupies cell `(x, y)` of area `id`.
    pub fn origin_at(&self, id: usize, x: i64, y: i64) -> (r: Option<(i64, i64)>)
        ensures
            id < self@.areas.len() ==> r == origin_of(self@.areas[id as int].blocks, x as int, y as int),
            id >= self@.areas.len() ==> r is None,
    {
        if id < self.areas.len() {
            proof {
                assert(self@.areas[id as int] == self.areas@[id as int]@);
            }
            match self.areas[id].ref_at_origin(x, y) {
                Some((_, xo, yo)) => Some((xo, yo)),
                None => None,
            }
        } else {
            None
        }
    }

    /// Shifts the port at row `row` of the block at cell `(x, y)` of area
    /// `id` one row down (see [`Block::shift_port`]) and counts a change.
    pub fn shift_port(&mut self, id: usize, x: i64, y: i64, row: usize, output: bool)
        requires
            old(self).wf(),
            old(self)@.generation < u64::MAX,
            match fun_cell(old(self)@, id, x as int, y as int) {
                Some(i) => {
                    let b = old(self)@.areas[id as int].blocks[i].2;
                    shift_index_ok(if output { b.outputs } else { b.inputs }, b.rows, row)
                },
                None => true,
            },
        ensures
            final(self).wf(),
            final(self)@ == match fun_cell(old(self)@, id, x as int, y as int) {
                Some(i) => {
                    let a = old(self)@.areas[id as int];
                    let e = a.blocks[i];
                    FunSpec {
                        areas: old(self)@.areas.update(
                            id as int,
                            AreaSpec { blocks: a.blocks.update(i, (e.0, e.1, shifted_block(e.2, row, output))), ..a },
                        ),
                        generation: (old(self)@.generation + 1) as u64,
                        ..old(self)@
                    }
                },
                None => old(self)@,
            },
    {
        if id < self.areas.len() {
            let ghost f0 = self@;
            proof {
                assert(self@.areas[id as int] == self.areas@[id as int]@);
            }
            let done = self.areas[id].shift_port_at(x, y, row, output);
            if done {
                self.generation = self.generation + 1;
            }
            proof {
                assert(self@.areas =~= match fun_cell(f0, id, x as int, y as int) {
                    Some(i) => {
                        let a = f0.areas[id as int];
                        let e = a.blocks[i];
                        f0.areas.update(
                            id as int,
                            AreaSpec { blocks: a.blocks.update(i, (e.0, e.1, shifted_block(e.2, row, output))), ..a },
                        )
                    },
                    None => f0.areas,
                });
                lemma_shift_keeps_wf(f0, self@, id as int);
            }
        }
    }
}

/// Replacing an area by one with the same cells and sub areas keeps a program
/// well formed.
proof fn lemma_shift_keeps_wf(f0: FunSpec, f1: FunSpec, id: int)
    requires
        fun_wf(f0),
        0 <= id < f0.areas.len(),
        f1.areas.len() == f0.areas.len(),
        f1.lang == f0.lang,
        forall|j: int| 0 <= j < f0.areas.len() && j != id ==> f1.areas[j] == f0.areas[j],
        blocks_wf(f1.areas[id].blocks),
        subs_below(f1.areas[id].blocks, f1.areas.len()),
    ensures
        fun_wf(f1),
{
    assert forall|i: int| #![trigger f1.areas[i]] 0 <= i < f1.areas.len() implies blocks_wf(f1.areas[i].blocks)
        && subs_below(f1.areas[i].blocks, f1.areas.len()) by {
        if i != id {
            assert(f1.areas[i] == f0.areas[i]);
        }
    }
}


/// The sub area IDs a block gets when new areas are made for its sub areas,
/// numbered from `n`.
pub open spec fn fresh_contains(c: (Option<usize>, Option<usize>), n: nat) -> (Option<usize>, Option<usize>) {
    let c0 = match c.0 {
        Some(_) => Some(n as usize),
        None => None,
    };
    let n1 = if c.0 is Some { n + 1 } else { n };
    let c1 = match c.1 {
        Some(_) => Some(n1 as usize),
        None => None,
    };
    (c0, c1)
}

/// The new (empty, auto-shrinking, 1 x 1) areas made for a block's sub areas.
pub open spec fn fresh_areas(c: (Option<usize>, Option<usize>)) -> Seq<AreaSpec> {
    (if c.0 is Some { seq![empty_area(1, 1, true)] } else { Seq::empty() }) + (if c.1 is Some {
        seq![empty_area(1, 1, true)]
    } else {
        Seq::empty()
    })
}

/// The areas after placing `b` at `(x, y)` in area `id`.
pub open spec fn areas_with_placed(areas: Seq<AreaSpec>, id: int, x: i64, y: i64, b: BlockSpec) -> Seq<AreaSpec> {
    areas.update(id, AreaSpec { blocks: insert_placed(areas[id].blocks, x, y, b), ..areas[id] })
}

/// Sub area bounds hold for a larger bound too.
proof fn lemma_subs_grow(s: Seq<PlacedSpec>, n: nat, m: nat)
    requires
        subs_below(s, n),
        n <= m,
    ensures
        subs_below(s, m),
{
}

/// Placing a block whose sub areas are below `m` keeps the sub area bound.
proof fn lemma_subs_insert(s: Seq<PlacedSpec>, x: i64, y: i64, b: BlockSpec, m: nat)
    requires
        subs_below(s, m),
        b.contains.0 matches Some(c) ==> c < m,
        b.contains.1 matches Some(c) ==> c < m,
    ensures
        subs_below(insert_placed(s, x, y, b), m),
{
    let t = insert_placed(s, x, y, b);
    assert forall|i: int| #![trigger t[i]] 0 <= i < t.len() implies (t[i].2.contains.0 matches Some(c) ==> c < m) && (
    t[i].2.contains.1 matches Some(c) ==> c < m) by {
        match origin_index(s, x as int, y as int) {
            Some(k) => {
                if i != k {
                    assert(t[i] == s[i]);
                }
            },
            None => {
                if i < s.len() {
                    assert(t[i] == s[i]);
                }
            },
        }
    }
}

/// Removing a placed block keeps the sub area bound.
proof fn lemma_subs_remove(s: Seq<PlacedSpec>, i: int, m: nat)
    requires
        subs_below(s, m),
        0 <= i < s.len(),
    ensures
        subs_below(s.remove(i), m),
{
    let t = s.remove(i);
    assert forall|k: int| #![trigger t[k]] 0 <= k < t.len() implies (t[k].2.contains.0 matches Some(c) ==> c < m) && (
    t[k].2.contains.1 matches Some(c) ==> c < m) by {
        if k < i {
            assert(t[k] == s[k]);
        } else {
            assert(t[k] == s[k + 1]);
        }
    }
}

/// A program stays well formed when areas are added and area `id` is
/// replaced by well formed blocks with sub areas below the new count.
proof fn lemma_fun_wf_extend(f0: FunSpec, f1: FunSpec, id: int)
    requires
        fun_wf(f0),
        0 <= id < f0.areas.len(),
        f1.areas.len() >= f0.areas.len(),
        f1.lang == f0.lang,
        forall|j: int| 0 <= j < f0.areas.len() && j != id ==> f1.areas[j] == f0.areas[j],
        forall|j: int| f0.areas.len() <= j < f1.areas.len() ==> f1.areas[j].blocks.len() == 0,
        blocks_wf(f1.areas[id].blocks),
        subs_below(f1.areas[id].blocks, f1.areas.len()),
    ensures
        fun_wf(f1),
{
    assert forall|i: int| #![trigger f1.areas[i]] 0 <= i < f1.areas.len() implies blocks_wf(f1.areas[i].blocks)
        && subs_below(f1.areas[i].blocks, f1.areas.len()) by {
        if i != id && i < f0.areas.len() {
            assert(f1.areas[i] == f0.areas[i]);
            assert(subs_below(f0.areas[i].blocks, f0.areas.len()));
            lemma_subs_grow(f0.areas[i].blocks, f0.areas.len(), f1.areas.len());
        } else if i >= f0.areas.len() {
            assert(f1.areas[i].blocks =~= Seq::<PlacedSpec>::empty());
        }
    }
}

impl BlockFun {
    /// Makes new areas for the sub areas of `block` and points the block at them.
    fn create_areas_for_block(&mut self, block: &mut Block)
        requires
            old(self)@.areas.len() + 2 <= usize::MAX,
        ensures
            final(self)@ == (FunSpec { areas: old(self)@.areas + fresh_areas(old(block)@.contains), ..old(self)@ }),
            final(block)@ == (BlockSpec {
                contains: fresh_contains(old(block)@.contains, old(self)@.areas.len()),
                ..old(block)@
            }),
    {
        let ghost a0 = self@.areas;
        let ghost c = block@.contains;
        if block.contains.0.is_some() {
            let mut area = Box::new(BlockArea::new(1, 1));
            area.set_auto_shrink(true);
            self.areas.push(area);
            block.contains.0 = Some(self.areas.len() - 1);
        }
        if block.contains.1.is_some() {
            let mut area = Box::new(BlockArea::new(1, 1));
            area.set_auto_shrink(true);
            self.areas.push(area);
            block.contains.1 = Some(self.areas.len() - 1);
        }
        proof {
            assert(self@.areas =~= a0 + fresh_areas(c));
        }
    }

    /// Removes the block at cell `(x, y)` of area `id`.
    pub fn remove_at(&mut self, id: usize, x: i64, y: i64) -> (r: Result<(), BlockDSPError>)
        requires
            old(self).wf(),
            old(self)@.generation < u64::MAX,
        ensures
            final(self).wf(),
            id >= old(self)@.areas.len() ==> (r matches Err(BlockDSPError::UnknownArea(a)) && a == id) && final(self)@
                == old(self)@,
            id < old(self)@.areas.len() ==> match cell_index(old(self)@.areas[id as int].blocks, x as int, y as int) {
                Some(i) => r is Ok && final(self)@ == (FunSpec {
                    areas: old(self)@.areas.update(
                        id as int,
                        AreaSpec { blocks: old(self)@.areas[id as int].blocks.remove(i), ..old(self)@.areas[id as int] },
                    ),
                    generation: (old(self)@.generation + 1) as u64,
                    ..old(self)@
                }),
                None => (r matches Err(BlockDSPError::NoBlockAt(a, b, c)) && a == id && b == x && c == y) && final(self)@ == old(self)@,
            },
    {
        if id >= self.areas.len() {
            return Err(BlockDSPError::UnknownArea(id));
        }
        let ghost f0 = self@;
        proof {
            assert(self@.areas[id as int] == self.areas@[id as int]@);
            assert(blocks_wf(f0.areas[id as int].blocks));
        }
        match self.areas[id].remove_at(x, y) {
            Some(_) => {
                self.generation = self.generation + 1;
                proof {
                    let i = cell_index(f0.areas[id as int].blocks, x as int, y as int)->0;
                    assert(self@.areas =~= f0.areas.update(
                        id as int,
                        AreaSpec { blocks: f0.areas[id as int].blocks.remove(i), ..f0.areas[id as int] },
                    ));
                    lemma_subs_remove(f0.areas[id as int].blocks, i, f0.areas.len() as nat);
                    lemma_fun_wf_extend(f0, self@, id as int);
                }
                Ok(())
            },
            None => {
                proof {
                    assert(self@.areas =~= f0.areas);
                }
                Err(BlockDSPError::NoBlockAt(id, x, y))
            },
        }
    }

    /// Places a new block of type `typ` at `(x, y)` in area `id`, with the
    /// user input as its label if there is one, and new areas for its sub areas.
    pub fn instanciate_at(&mut self, id: usize, x: i64, y: i64, typ: &str, user_input: Option<String>) -> (r: Result<
        (),
        BlockDSPError,
    >)
        requires
            old(self).wf(),
            old(self)@.generation < u64::MAX,
            old(self)@.areas.len() + 2 <= usize::MAX,
        ensures
            final(self).wf(),
            id >= old(self)@.areas.len() ==> (r matches Err(BlockDSPError::UnknownArea(a)) && a == id) && final(self)@
                == old(self)@,
            id < old(self)@.areas.len() ==> match lang_type(old(self)@.lang, typ@) {
                None => (r matches Err(BlockDSPError::UnknownLanguageType(n)) && n@ == typ@) && final(self)@ == old(self)@,
                Some(t) => if !space_at(old(self)@.areas[id as int].blocks, x as int, y as int, t.rows as int) {
                    (r matches Err(BlockDSPError::NoSpaceAvailable(a, b, c, d)) && a == id && b == x && c == y && d
                        == t.rows) && final(self)@ == old(self)@
                } else {
                    let b = type_instance(
                        t,
                        id_after(old(self)@.id as nat, 1),
                        match user_input {
                            Some(u) => u@,
                            None => t.name,
                        },
                    );
                    let nb = BlockSpec { contains: fresh_contains(b.contains, old(self)@.areas.len()), ..b };
                    r is Ok && final(self)@ == (FunSpec {
                        areas: areas_with_placed(old(self)@.areas + fresh_areas(b.contains), id as int, x, y, nb),
                        id: id_after(old(self)@.id as nat, 1),
                        generation: (old(self)@.generation + 1) as u64,
                        ..old(self)@
                    })
                },
            },
    {
        if id >= self.areas.len() {
            return Err(BlockDSPError::UnknownArea(id));
        }
        let ghost f0 = self@;
        proof {
            assert(self@.areas[id as int] == self.areas@[id as int]@);
        }
        let ti = match self.language.find_type(typ) {
            Some(ti) => ti,
            None => {
                return Err(BlockDSPError::UnknownLanguageType(typ.to_string()));
            },
        };
        proof {
            assert(f0.lang.types[ti as int] == type_spec(self.language.types@[ti as int]));
        }
        let rows = self.language.types[ti].rows;
        if !self.areas[id].check_space_at(x, y, rows) {
            return Err(BlockDSPError::NoSpaceAvailable(id, x, y, rows));
        }
        let mut block = self.language.types[ti].instanciate_block(user_input, &mut self.id_gen);
        let ghost b0 = block@;
        self.create_areas_for_block(&mut *block);
        let ghost f1 = self@;
        proof {
            assert(self.areas@.len() == f1.areas.len());
            assert(f1.areas.len() >= f0.areas.len());
            assert(f1.areas[id as int] == f0.areas[id as int]);
            assert(self@.areas[id as int] == self.areas@[id as int]@);
        }
        self.generation = self.generation + 1;
        self.areas[id].set_block_at(x, y, block);
        proof {
            let nb = block@;
            assert(self@.areas =~= areas_with_placed(f1.areas, id as int, x, y, nb));
            lemma_subs_grow(f0.areas[id as int].blocks, f0.areas.len() as nat, f1.areas.len() as nat);
            lemma_subs_insert(f0.areas[id as int].blocks, x, y, nb, f1.areas.len() as nat);
            assert forall|j: int| f0.areas.len() <= j < self@.areas.len() implies self@.areas[j].blocks.len() == 0 by {
                assert(self@.areas[j] == f1.areas[j]);
            }
            lemma_fun_wf_extend(f0, self@, id as int);
        }
        Ok(())
    }
}


/// Some area flagged among the first `n` of `cur` holds a block with sub area `j`.
pub open spec fn linked_from(areas: Seq<AreaSpec>, cur: Seq<bool>, n: int, j: int) -> bool {
    exists|i: int| 0 <= i < n && cur[i] && #[trigger] sub_area_list(areas[i].blocks).contains(j as usize)
}

/// One step of reaching sub areas: the flagged areas and their direct sub areas.
pub open spec fn reach_step(areas: Seq<AreaSpec>, cur: Seq<bool>) -> Seq<bool> {
    Seq::new(cur.len(), |j: int| cur[j] || linked_from(areas, cur, cur.len() as int, j))
}

/// The areas reached from the flagged ones in at most `k` steps.
pub open spec fn reach_within(areas: Seq<AreaSpec>, start: Seq<bool>, k: nat) -> Seq<bool>
    decreases k,
{
    if k == 0 {
        start
    } else {
        reach_step(areas, reach_within(areas, start, (k - 1) as nat))
    }
}

/// The areas reachable from the flagged ones through sub areas of blocks: as
/// many steps as there are areas reach every one of them.
pub open spec fn reachable(areas: Seq<AreaSpec>, start: Seq<bool>) -> Seq<bool> {
    reach_within(areas, start, areas.len())
}

/// The flags for the sub areas of a block.
pub open spec fn contains_flags(c: (Option<usize>, Option<usize>), n: nat) -> Seq<bool> {
    Seq::new(n, |j: int| (c.0 == Some(j as usize)) || (c.1 == Some(j as usize)))
}

/// The indices of the set flags among the first `n`, in increasing order.
pub open spec fn flag_list(r: Seq<bool>, n: int) -> Seq<usize>
    decreases n,
{
    if n <= 0 {
        Seq::empty()
    } else if r[n - 1] {
        flag_list(r, n - 1).push((n - 1) as usize)
    } else {
        flag_list(r, n - 1)
    }
}

/// The queue of a block's sub areas: the first, then the second.
pub open spec fn contains_queue(c: (Option<usize>, Option<usize>)) -> Seq<usize> {
    let q = match c.0 {
        Some(a) => seq![a],
        None => Seq::empty(),
    };
    match c.1 {
        Some(b) => q.push(b),
        None => q,
    }
}

/// The queue after taking its first area and adding that area's sub areas.
pub open spec fn bfs_next(areas: Seq<AreaSpec>, q: Seq<usize>) -> Seq<usize> {
    q.drop_first() + sub_area_list(areas[q[0] as int].blocks)
}

/// Working off the queue `q` ends within `n` steps, every area taken off
/// being an area of the function.
pub open spec fn bfs_done(areas: Seq<AreaSpec>, q: Seq<usize>, n: nat) -> bool
    decreases n,
{
    q.len() == 0 || (n > 0 && q[0] < areas.len() && bfs_done(areas, bfs_next(areas, q), (n - 1) as nat))
}

/// The areas taken off the queue `q`, in order, within `n` steps.
pub open spec fn bfs_order(areas: Seq<AreaSpec>, q: Seq<usize>, n: nat) -> Seq<usize>
    decreases n,
{
    if n == 0 || q.len() == 0 {
        Seq::empty()
    } else {
        seq![q[0]] + bfs_order(areas, bfs_next(areas, q), (n - 1) as nat)
    }
}

/// Working off the queue `q` ends.
pub open spec fn bfs_ends(areas: Seq<AreaSpec>, q: Seq<usize>) -> bool {
    exists|n: nat| bfs_done(areas, q, n)
}

/// The fewest steps in which working off `q` ends.
pub open spec fn bfs_fuel(areas: Seq<AreaSpec>, q: Seq<usize>) -> nat {
    choose|n: nat| bfs_done(areas, q, n)
}

/// The areas taken off the queue `q`, breadth first, until it is empty.
pub open spec fn bfs_list(areas: Seq<AreaSpec>, q: Seq<usize>) -> Seq<usize> {
    bfs_order(areas, q, bfs_fuel(areas, q))
}

/// Any number of steps within which the queue empties gives the same areas.
proof fn lemma_bfs_fuel(areas: Seq<AreaSpec>, q: Seq<usize>, n: nat, m: nat)
    requires
        bfs_done(areas, q, n),
        bfs_done(areas, q, m),
    ensures
        bfs_order(areas, q, n) == bfs_order(areas, q, m),
    decreases n,
{
    if q.len() > 0 {
        lemma_bfs_fuel(areas, bfs_next(areas, q), (n - 1) as nat, (m - 1) as nat);
    }
}

/// One round of size resolution: every area resolved against `prev`.
pub open spec fn size_round(areas: Seq<AreaSpec>, prev: Seq<(usize, usize)>) -> Seq<(usize, usize)> {
    Seq::new(areas.len(), |i: int| resolved_size(areas[i], prev))
}

/// The area sizes after `k` rounds of resolution, starting from all zero.
pub open spec fn size_rounds(areas: Seq<AreaSpec>, k: nat) -> Seq<(usize, usize)>
    decreases k,
{
    if k == 0 {
        Seq::new(areas.len(), |i: int| (0usize, 0usize))
    } else {
        size_round(areas, size_rounds(areas, (k - 1) as nat))
    }
}

/// The areas after recalculating sizes: every area reachable from the main
/// area gets its size resolved bottom up (as many rounds as there are areas
/// settle every tree of sub areas); the others keep theirs.
pub open spec fn resized_areas(areas: Seq<AreaSpec>) -> Seq<AreaSpec> {
    let reach = reachable(areas, contains_flags((Some(0usize), None), areas.len()));
    let sizes = size_rounds(areas, areas.len());
    Seq::new(
        areas.len(),
        |i: int| if reach[i] { AreaSpec { size: sizes[i], ..areas[i] } } else { areas[i] },
    )
}

/// The smallest extent of the placed blocks covers each of them.
proof fn lemma_min_extent_covers(s: Seq<PlacedSpec>, sizes: Seq<(usize, usize)>, k: int)
    requires
        0 <= k < s.len(),
    ensures
        min_extent(s, sizes).0 >= placed_extent(s[k], sizes).0,
        min_extent(s, sizes).1 >= placed_extent(s[k], sizes).1,
        min_extent(s, sizes).0 >= 1,
        min_extent(s, sizes).1 >= 1,
    decreases s.len(),
{
    if k < s.len() - 1 {
        lemma_min_extent_covers(s.drop_last(), sizes, k);
        assert(s.drop_last()[k] == s[k]);
    } else if s.len() > 1 {
        lemma_min_extent_covers(s.drop_last(), sizes, 0);
    }
}

/// Recalculating sizes never makes an area smaller that does not shrink
/// automatically.
pub proof fn law_sizes_grow_without_auto_shrink(areas: Seq<AreaSpec>, i: int)
    requires
        0 <= i < areas.len(),
        !areas[i].auto_shrink,
    ensures
        resized_areas(areas)[i].size.0 >= areas[i].size.0,
        resized_areas(areas)[i].size.1 >= areas[i].size.1,
{
    assert(size_rounds(areas, areas.len()) == size_round(areas, size_rounds(areas, (areas.len() - 1) as nat)));
}

/// After recalculating sizes, an area below the main area is at least one
/// cell wide and high and holds every cell of its blocks that lies right of
/// and below its origin.
pub proof fn law_sizes_cover_blocks(areas: Seq<AreaSpec>, i: int, k: int)
    requires
        0 <= i < areas.len(),
        reachable(areas, contains_flags((Some(0usize), None), areas.len()))[i],
        0 <= k < areas[i].blocks.len(),
        areas[i].blocks[k].2.rows > 0,
    ensures
        resized_areas(areas)[i].size.0 >= 1,
        resized_areas(areas)[i].size.1 >= 1,
        resized_areas(areas)[i].size.0 >= sat(imax(areas[i].blocks[k].0 as int, 0) + 1),
        resized_areas(areas)[i].size.1 >= sat(
            imax(areas[i].blocks[k].1 + areas[i].blocks[k].2.rows - 1, 0) + 1,
        ),
{
    let prev = size_rounds(areas, (areas.len() - 1) as nat);
    assert(size_rounds(areas, areas.len()) == size_round(areas, prev));
    lemma_min_extent_covers(areas[i].blocks, prev, k);
}

/// What a snapshot of a program holds: its areas and the last block ID.
pub ghost struct SnapSpec {
    pub areas: Seq<AreaSpec>,
    pub cur_id: usize,
}

/// A saved state of a program's areas and ID counter.
#[derive(Debug)]
pub struct BlockFunSnapshot {
    areas: Vec<Box<BlockArea>>,
    cur_id: usize,
}

impl View for BlockFunSnapshot {
    type V = SnapSpec;

    closed spec fn view(&self) -> SnapSpec {
        SnapSpec { areas: self.areas@.map_values(|a: Box<BlockArea>| a@), cur_id: self.cur_id }
    }
}

/// The areas of a snapshot form a well formed program.
pub open spec fn snap_wf(s: SnapSpec) -> bool {
    &&& s.areas.len() >= 1
    &&& forall|i: int| #![trigger s.areas[i]] 0 <= i < s.areas.len() ==> blocks_wf(s.areas[i].blocks) && subs_below(
        s.areas[i].blocks,
        s.areas.len(),
    )
}

impl Block {
    /// A copy of this block.
    fn duplicate(&self) -> (r: Self)
        ensures
            r@ == self@,
    {
        self.clone_with_new_id(self.id)
    }
}

impl BlockArea {
    /// A copy of this area.
    fn duplicate(&self) -> (r: Box<BlockArea>)
        ensures
            r@ == self@,
    {
        let ghost s = self@.blocks;
        let mut blocks: Vec<(i64, i64, Box<Block>)> = Vec::new();
        let mut i: usize = 0;
        while i < self.blocks.len()
            invariant
                i <= self.blocks@.len(),
                s == placed_view(self.blocks@),
                placed_view(blocks@) == s.subrange(0, i as int),
            decreases self.blocks.len() - i,
        {
            let e = &self.blocks[i];
            let b = e.2.duplicate();
            let ghost pv = placed_view(blocks@);
            proof {
                assert(s[i as int] == (e.0, e.1, e.2@));
            }
            blocks.push((e.0, e.1, Box::new(b)));
            i += 1;
            proof {
                assert(placed_view(blocks@) =~= pv.push(s[i - 1]));
                assert(placed_view(blocks@) =~= s.subrange(0, i as int));
            }
        }
        proof {
            assert(s.subrange(0, s.len() as int) =~= s);
        }
        Box::new(BlockArea { blocks, size: self.size, auto_shrink: self.auto_shrink, header: self.header.clone() })
    }
}

/// Copies a list of areas.
fn duplicate_areas(v: &Vec<Box<BlockArea>>) -> (r: Vec<Box<BlockArea>>)
    ensures
        r@.map_values(|a: Box<BlockArea>| a@) == v@.map_values(|a: Box<BlockArea>| a@),
{
    let mut out: Vec<Box<BlockArea>> = Vec::new();
    let mut i: usize = 0;
    while i < v.len()
        invariant
            i <= v@.len(),
            out@.map_values(|a: Box<BlockArea>| a@) == v@.map_values(|a: Box<BlockArea>| a@).subrange(0, i as int),
        decreases v.len() - i,
    {
        let a = v[i].duplicate();
        let ghost ov = out@.map_values(|a: Box<BlockArea>| a@);
        out.push(a);
        i += 1;
        proof {
            assert(out@.map_values(|a: Box<BlockArea>| a@) =~= ov.push(v@[i - 1]@));
            assert(out@.map_values(|a: Box<BlockArea>| a@) =~= v@.map_values(|a: Box<BlockArea>| a@).subrange(
                0,
                i as int,
            ));
        }
    }
    proof {
        assert(v@.map_values(|a: Box<BlockArea>| a@).subrange(0, v@.len() as int) =~= v@.map_values(
            |a: Box<BlockArea>| a@,
        ));
    }
    out
}

impl BlockFun {
    /// The areas reached from the flagged ones in one more step.
    fn reach_one_step(&self, cur: &Vec<bool>) -> (r: Vec<bool>)
        requires
            self.wf(),
            cur@.len() == self@.areas.len(),
        ensures
            r@ == reach_step(self@.areas, cur@),
    {
        let ghost areas = self@.areas;
        let n = self.areas.len();
        let mut next: Vec<bool> = Vec::new();
        let mut j: usize = 0;
        while j < n
            invariant
                j <= n,
                n == cur@.len(),
                next@ == cur@.subrange(0, j as int),
            decreases n - j,
        {
            next.push(cur[j]);
            j += 1;
            proof {
                assert(next@ =~= cur@.subrange(0, j as int));
            }
        }
        proof {
            assert(cur@.subrange(0, n as int) =~= cur@);
        }
        let mut i: usize = 0;
        while i < n
            invariant
                i <= n,
                n == cur@.len(),
                n == self@.areas.len(),
                areas == self@.areas,
                fun_wf(self@),
                next@.len() == n,
                forall|k: int| 0 <= k < n ==> #[trigger] next@[k] == (cur@[k] || linked_from(areas, cur@, i as int, k)),
            decreases n - i,
        {
            if cur[i] {
                let mut subs: Vec<usize> = Vec::new();
                proof {
                    assert(self@.areas[i as int] == self.areas@[i as int]@);
                }
                self.areas[i].get_direct_sub_areas(&mut subs);
                let ghost sl = sub_area_list(areas[i as int].blocks);
                proof {
                    assert(subs@ =~= sl);
                    lemma_sub_area_list_below(areas[i as int].blocks, n as nat);
                }
                let mut t: usize = 0;
                while t < subs.len()
                    invariant
                        t <= subs@.len(),
                        subs@ == sl,
                        i < n,
                        n == cur@.len(),
                        cur@[i as int],
                        forall|q: int| 0 <= q < sl.len() ==> sl[q] < n,
                        next@.len() == n,
                        forall|k: int| 0 <= k < n ==> #[trigger] next@[k] == (cur@[k] || linked_from(areas, cur@, i as int, k)
                            || sl.subrange(0, t as int).contains(k as usize)),
                    decreases subs.len() - t,
                {
                    let c = subs[t];
                    next.set(c, true);
                    t += 1;
                    proof {
                        assert forall|k: int| 0 <= k < n implies #[trigger] next@[k] == (cur@[k] || linked_from(
                            areas,
                            cur@,
                            i as int,
                            k,
                        ) || sl.subrange(0, t as int).contains(k as usize)) by {
                            assert(sl.subrange(0, t as int) =~= sl.subrange(0, t - 1).push(c));
                            if k == c as int {
                                assert(sl.subrange(0, t as int)[t - 1] == c);
                            }
                        }
                    }
                }
                proof {
                    assert(sl.subrange(0, sl.len() as int) =~= sl);
                    assert forall|k: int| 0 <= k < n implies #[trigger] next@[k] == (cur@[k] || linked_from(
                        areas,
                        cur@,
                        i + 1,
                        k,
                    )) by {
                        if sl.contains(k as usize) {
                            assert(cur@[i as int] && sub_area_list(areas[i as int].blocks).contains(k as usize));
                        }
                        if linked_from(areas, cur@, i + 1, k) {
                            let w = choose|w: int| 0 <= w < i + 1 && cur@[w] && #[trigger] sub_area_list(
                                areas[w].blocks,
                            ).contains(k as usize);
                            if w < i {
                                assert(linked_from(areas, cur@, i as int, k));
                            }
                        }
                    }
                }
            } else {
                proof {
                    assert forall|k: int| 0 <= k < n implies #[trigger] next@[k] == (cur@[k] || linked_from(
                        areas,
                        cur@,
                        i + 1,
                        k,
                    )) by {
                        if linked_from(areas, cur@, i + 1, k) {
                            let w = choose|w: int| 0 <= w < i + 1 && cur@[w] && #[trigger] sub_area_list(
                                areas[w].blocks,
                            ).contains(k as usize);
                            assert(w != i);
                            assert(linked_from(areas, cur@, i as int, k));
                        }
                    }
                }
            }
            i += 1;
        }
        proof {
            assert(next@ =~= reach_step(areas, cur@));
        }
        next
    }

    /// The areas reachable from the flagged ones.
    fn reach_from(&self, start: Vec<bool>) -> (r: Vec<bool>)
        requires
            self.wf(),
            start@.len() == self@.areas.len(),
        ensures
            r@ == reachable(self@.areas, start@),
            r@.len() == self@.areas.len(),
    {
        let n = self.areas.len();
        let mut cur = start;
        let ghost st = cur@;
        let mut k: usize = 0;
        while k < n
            invariant
                k <= n,
                n == self@.areas.len(),
                fun_wf(self@),
                cur@ == reach_within(self@.areas, st, k as nat),
                cur@.len() == n,
            decreases n - k,
        {
            cur = self.reach_one_step(&cur);
            k += 1;
        }
        cur
    }

    /// Flags for the sub areas of a block.
    fn flags_of(&self, c: (Option<usize>, Option<usize>)) -> (r: Vec<bool>)
        ensures
            r@ == contains_flags(c, self@.areas.len()),
    {
        let n = self.areas.len();
        let mut r: Vec<bool> = Vec::new();
        let mut j: usize = 0;
        while j < n
            invariant
                j <= n,
                n == self@.areas.len(),
                r@ == contains_flags(c, n as nat).subrange(0, j as int),
            decreases n - j,
        {
            let f = c.0 == Some(j) || c.1 == Some(j);
            r.push(f);
            j += 1;
            proof {
                assert(r@ =~= contains_flags(c, n as nat).subrange(0, j as int));
            }
        }
        proof {
            assert(contains_flags(c, n as nat).subrange(0, n as int) =~= contains_flags(c, n as nat));
        }
        r
    }

    /// Appends to `areas` the IDs of all areas below the sub areas of `block`
    /// (those included), breadth first: the first sub area, the second, then
    /// level by level, the sub areas of an area in the order of its blocks.
    pub fn all_sub_areas_of(&self, block: &Block, areas: &mut Vec<usize>)
        requires
            self.wf(),
            bfs_ends(self@.areas, contains_queue(block@.contains)),
        ensures
            final(areas)@ == old(areas)@ + bfs_list(self@.areas, contains_queue(block@.contains)),
    {
        let contains = block.contains;
        let mut work: VecDeque<usize> = VecDeque::new();
        if let Some(area_id) = contains.0 {
            work.push_back(area_id);
        }
        if let Some(area_id) = contains.1 {
            work.push_back(area_id);
        }
        let ghost q0 = contains_queue(block@.contains);
        let ghost n0: nat = choose|n: nat| bfs_done(self@.areas, q0, n);
        let ghost mut n: nat = n0;
        proof {
            assert(work@ =~= q0);
            lemma_bfs_fuel(self@.areas, q0, n0, bfs_fuel(self@.areas, q0));
        }
        let mut cur_sub: Vec<usize> = Vec::new();
        while work.len() > 0
            invariant
                fun_wf(self@),
                bfs_done(self@.areas, work@, n),
                areas@ + bfs_order(self@.areas, work@, n) == old(areas)@ + bfs_list(self@.areas, q0),
            decreases n,
        {
            let ghost q = work@;
            let area_idx = match work.pop_front() {
                Some(a) => a,
                None => {
                    return;
                },
            };
            proof {
                assert(work@ =~= q.drop_first());
                assert(self@.areas[area_idx as int] == self.areas@[area_idx as int]@);
            }
            areas.push(area_idx);
            cur_sub.clear();
            self.areas[area_idx].get_direct_sub_areas(&mut cur_sub);
            let mut t: usize = 0;
            let ghost w0 = work@;
            while t < cur_sub.len()
                invariant
                    t <= cur_sub@.len(),
                    work@ == w0 + cur_sub@.subrange(0, t as int),
                decreases cur_sub.len() - t,
            {
                work.push_back(cur_sub[t]);
                t += 1;
                proof {
                    assert(work@ =~= w0 + cur_sub@.subrange(0, t as int));
                }
            }
            proof {
                assert(cur_sub@ =~= Seq::<usize>::empty() + sub_area_list(self@.areas[area_idx as int].blocks));
                assert(cur_sub@.subrange(0, t as int) =~= cur_sub@);
                assert(work@ =~= bfs_next(self@.areas, q));
                assert(bfs_order(self@.areas, q, n) == seq![area_idx] + bfs_order(self@.areas, work@, (n - 1) as nat));
                assert(areas@ + bfs_order(self@.areas, work@, (n - 1) as nat) =~= old(areas)@ + bfs_list(self@.areas, q0));
                n = (n - 1) as nat;
            }
        }
        proof {
            assert(work@.len() == 0);
            assert(bfs_order(self@.areas, work@, n) =~= Seq::<usize>::empty());
            assert(areas@ =~= areas@ + Seq::<usize>::empty());
        }
    }

    /// Whether area `area_id` lies below the sub areas of the block at cell
    /// `(x, y)` of area `a_id`.
    pub fn area_is_subarea_of(&self, area_id: usize, a_id: usize, x: i64, y: i64) -> (r: bool)
        requires
            self.wf(),
        ensures
            r == match fun_cell(self@, a_id, x as int, y as int) {
                Some(i) => area_id < self@.areas.len() && reachable(
                    self@.areas,
                    contains_flags(self@.areas[a_id as int].blocks[i].2.contains, self@.areas.len()),
                )[area_id as int],
                None => false,
            },
    {
        let c = match self.block_ref(a_id, x, y) {
            Some(b) => b.contains,
            None => {
                return false;
            },
        };
        let start = self.flags_of(c);
        let reach = self.reach_from(start);
        area_id < reach.len() && reach[area_id]
    }

    /// Saves the areas and the ID counter.
    pub fn save_snapshot(&self) -> (r: BlockFunSnapshot)
        ensures
            r@ == (SnapSpec { areas: self@.areas, cur_id: self@.id }),
    {
        BlockFunSnapshot { areas: duplicate_areas(&self.areas), cur_id: self.id_gen.current() }
    }

    /// Restores the areas and the ID counter of a snapshot, recalculates the
    /// area sizes and counts a change.
    pub fn load_snapshot(&mut self, repr: &BlockFunSnapshot)
        requires
            old(self).wf(),
            snap_wf(repr@),
            old(self)@.generation < u64::MAX,
        ensures
            final(self).wf(),
            final(self)@ == (FunSpec {
                areas: resized_areas(repr@.areas),
                id: repr@.cur_id,
                generation: (old(self)@.generation + 1) as u64,
                ..old(self)@
            }),
    {
        self.areas = duplicate_areas(&repr.areas);
        self.id_gen = BlockIDGenerator::new_with_id(repr.cur_id);
        self.recalculate_area_sizes();
        self.generation = self.generation + 1;
    }

    /// Resolves the sizes of the main area and every area below it, bottom up.
    pub fn recalculate_area_sizes(&mut self)
        requires
            old(self).wf(),
        ensures
            final(self).wf(),
            final(self)@ == (FunSpec { areas: resized_areas(old(self)@.areas), ..old(self)@ }),
    {
        let ghost a0 = self@.areas;
        let n = self.areas.len();
        let start = self.flags_of((Some(0), None));
        let reach = self.reach_from(start);
        let mut sizes: Vec<(usize, usize)> = Vec::new();
        let mut j: usize = 0;
        while j < n
            invariant
                j <= n,
                sizes@ == size_rounds(a0, 0).subrange(0, j as int),
                n == a0.len(),
            decreases n - j,
        {
            sizes.push((0, 0));
            j += 1;
            proof {
                assert(sizes@ =~= size_rounds(a0, 0).subrange(0, j as int));
            }
        }
        proof {
            assert(size_rounds(a0, 0).subrange(0, n as int) =~= size_rounds(a0, 0));
        }
        let mut k: usize = 0;
        while k < n
            invariant
                k <= n,
                n == a0.len(),
                a0 == self@.areas,
                fun_wf(self@),
                sizes@ == size_rounds(a0, k as nat),
            decreases n - k,
        {
            let mut next: Vec<(usize, usize)> = Vec::new();
            let mut i: usize = 0;
            while i < n
                invariant
                    i <= n,
                    n == a0.len(),
                    a0 == self@.areas,
                    fun_wf(self@),
                    sizes@ == size_rounds(a0, k as nat),
                    sizes@.len() == n,
                    next@ == size_round(a0, sizes@).subrange(0, i as int),
                decreases n - i,
            {
                proof {
                    assert(self@.areas[i as int] == self.areas@[i as int]@);
                    assert(blocks_wf(a0[i as int].blocks) && subs_below(a0[i as int].blocks, n as nat));
                }
                let sz = self.areas[i].resolve_size(&sizes);
                next.push(sz);
                i += 1;
                proof {
                    assert(next@ =~= size_round(a0, sizes@).subrange(0, i as int));
                }
            }
            proof {
                assert(size_round(a0, sizes@).subrange(0, n as int) =~= size_round(a0, sizes@));
            }
            sizes = next;
            k += 1;
        }
        let ghost target = resized_areas(a0);
        let ghost f0 = self@;
        let mut i: usize = 0;
        while i < n
            invariant
                i <= n,
                n == a0.len(),
                self@.areas.len() == n,
                self@.lang == f0.lang,
                self@.id == f0.id,
                self@.generation == f0.generation,
                reach@ == reachable(a0, contains_flags((Some(0usize), None), n as nat)),
                reach@.len() == n,
                sizes@ == size_rounds(a0, n as nat),
                sizes@.len() == n,
                target == resized_areas(a0),
                target.len() == n,
                forall|q: int| 0 <= q < i ==> #[trigger] self@.areas[q] == target[q],
                forall|q: int| i <= q < n ==> #[trigger] self@.areas[q] == a0[q],
            decreases n - i,
        {
            let ghost before = self@.areas;
            proof {
                assert(before[i as int] == a0[i as int]);
                assert(target[i as int] == if reach@[i as int] {
                    AreaSpec { size: sizes@[i as int], ..a0[i as int] }
                } else {
                    a0[i as int]
                });
            }
            if reach[i] {
                let sz = sizes[i];
                self.areas[i].set_size(sz.0, sz.1);
                proof {
                    assert(self@.areas =~= before.update(i as int, AreaSpec { size: sz, ..a0[i as int] }));
                }
            }
            proof {
                assert(self@.areas[i as int] == target[i as int]);
                assert forall|q: int| 0 <= q < n && q != i implies #[trigger] self@.areas[q] == before[q] by {}
            }
            i += 1;
        }
        proof {
            assert(self@.areas =~= target);
            assert forall|q: int| #![trigger self@.areas[q]] 0 <= q < n implies blocks_wf(self@.areas[q].blocks)
                && subs_below(self@.areas[q].blocks, n as nat) by {
                assert(self@.areas[q].blocks == a0[q].blocks);
                assert(blocks_wf(a0[q].blocks) && subs_below(a0[q].blocks, n as nat));
            }
        }
    }
}

/// Every sub area ID listed for placed blocks with bounded sub areas is in bounds.
proof fn lemma_sub_area_list_below(s: Seq<PlacedSpec>, n: nat)
    requires
        subs_below(s, n),
    ensures
        forall|q: int| 0 <= q < sub_area_list(s).len() ==> sub_area_list(s)[q] < n,
    decreases s.len(),
{
    if s.len() > 0 {
        let t = s.drop_last();
        let e = s.last().2;
        let a = sub_area_list(t);
        assert(subs_below(t, n)) by {
            assert forall|i: int| #![trigger t[i]] 0 <= i < t.len() implies (t[i].2.contains.0 matches Some(c) ==> c < n)
                && (t[i].2.contains.1 matches Some(c) ==> c < n) by {
                assert(t[i] == s[i]);
            }
        }
        lemma_sub_area_list_below(t, n);
        assert(s[s.len() - 1] == s.last());
        assert(e.contains.0 matches Some(c) ==> c < n);
        assert(e.contains.1 matches Some(c) ==> c < n);
        let a1 = match e.contains.0 {
            Some(c) => a.push(c),
            None => a,
        };
        assert forall|q: int| 0 <= q < a1.len() implies a1[q] < n by {
            if q < a.len() {
                assert(a1[q] == a[q]);
            }
        }
        let a2 = match e.contains.1 {
            Some(c) => a1.push(c),
            None => a1,
        };
        assert(sub_area_list(s) == a2);
        assert forall|q: int| 0 <= q < a2.len() implies a2[q] < n by {
            if q < a1.len() {
                assert(a2[q] == a1[q]);
            }
        }
    }
}


// ---------------------------------------------------------------------------
// Facts about loads taken out of an area and placed back
// ---------------------------------------------------------------------------

/// The loaded blocks as placed blocks.
pub open spec fn load_placed(v: Seq<(BlockSpec, i64, i64)>) -> Seq<PlacedSpec> {
    v.map_values(|e: (BlockSpec, i64, i64)| (e.1, e.2, e.0))
}

/// The loaded blocks have distinct origins and share no cell.
pub open spec fn load_disjoint(v: Seq<(BlockSpec, i64, i64)>) -> bool {
    origins_distinct(load_placed(v)) && no_overlap(load_placed(v))
}

/// A loaded block lies inside the coordinate range.
pub open spec fn load_entry_in_domain(e: (BlockSpec, i64, i64)) -> bool {
    in_domain(e.1 as int, e.2 as int, e.0.rows as int)
}

/// A loaded block's sub areas are below `n`.
pub open spec fn load_entry_subs(e: (BlockSpec, i64, i64), n: nat) -> bool {
    (e.0.contains.0 matches Some(c) ==> c < n) && (e.0.contains.1 matches Some(c) ==> c < n)
}

/// Every loaded block lies inside the coordinate range.
pub open spec fn load_in_domain(v: Seq<(BlockSpec, i64, i64)>) -> bool {
    forall|i: int| 0 <= i < v.len() ==> load_entry_in_domain(#[trigger] v[i])
}

/// Every loaded block's column and row lie within `b` of zero.
pub open spec fn load_pos_within(v: Seq<(BlockSpec, i64, i64)>, b: int) -> bool {
    forall|i: int| #![trigger v[i]] 0 <= i < v.len() ==> -b <= v[i].1 <= b && -b <= v[i].2 <= b
}

/// Every loaded block's sub areas are below `n`.
pub open spec fn load_subs_ok(v: Seq<(BlockSpec, i64, i64)>, n: nat) -> bool {
    forall|i: int| 0 <= i < v.len() ==> load_entry_subs(#[trigger] v[i], n)
}

/// A cell covered in some placed block is the cell of the block at `cell_index`.
proof fn lemma_cover_some(s: Seq<PlacedSpec>, x: int, y: int, j: int)
    requires
        0 <= j < s.len(),
        covers(s[j], x, y),
    ensures
        cell_index(s, x, y) is Some,
    decreases j,
{
    if forall|k: int| 0 <= k < j ==> !covers(#[trigger] s[k], x, y) {
        assert(is_first_cover(s, x, y, j));
    } else {
        let k = choose|k: int| 0 <= k < j && covers(#[trigger] s[k], x, y);
        lemma_cover_some(s, x, y, k);
    }
}

/// Moving the element at `i` to the end keeps placed blocks well formed.
proof fn lemma_wf_move_last(x: Seq<PlacedSpec>, i: int)
    requires
        blocks_wf(x),
        0 <= i < x.len(),
    ensures
        blocks_wf(x.remove(i).push(x[i])),
{
    let t = x.remove(i).push(x[i]);
    let n = x.len() as int;
    assert forall|a: int| 0 <= a < t.len() implies #[trigger] t[a] == x[if a == n - 1 {
        i
    } else if a < i {
        a
    } else {
        a + 1
    }] by {}
    assert forall|a: int, b: int| 0 <= a < t.len() && 0 <= b < t.len() && a != b implies !(t[a].0 == t[b].0 && t[a].1
        == t[b].1) by {
        let a2 = if a == n - 1 { i } else if a < i { a } else { a + 1 };
        let b2 = if b == n - 1 { i } else if b < i { b } else { b + 1 };
        assert(t[a] == x[a2] && t[b] == x[b2]);
    }
    assert forall|a: int, b: int, c: int|
        0 <= a < t.len() && 0 <= b < t.len() && a != b && covers(t[a], t[a].0 as int, c) implies !covers(
        t[b],
        t[a].0 as int,
        c,
    ) by {
        let a2 = if a == n - 1 { i } else if a < i { a } else { a + 1 };
        let b2 = if b == n - 1 { i } else if b < i { b } else { b + 1 };
        assert(t[a] == x[a2] && t[b] == x[b2]);
        assert(covers(x[a2], x[a2].0 as int, c));
    }
    assert forall|a: int| 0 <= a < t.len() implies in_domain(t[a].0 as int, t[a].1 as int, t[a].2.rows as int) by {
        let a2 = if a == n - 1 { i } else if a < i { a } else { a + 1 };
        assert(t[a] == x[a2]);
    }
}

/// The rest of an area and the blocks taken out of it, placed side by side,
/// stay well formed.
proof fn lemma_removal_wf(s: Seq<PlacedSpec>, pos: Seq<(i64, i64)>, k: int)
    requires
        blocks_wf(s),
    ensures
        blocks_wf(removal_steps(s, pos, k).0 + load_placed(removal_steps(s, pos, k).1)),
        blocks_wf(removal_steps(s, pos, k).0),
    decreases k,
{
    if k <= 0 {
        assert(load_placed(Seq::<(BlockSpec, i64, i64)>::empty()) =~= Seq::<PlacedSpec>::empty());
        assert(s + Seq::<PlacedSpec>::empty() =~= s);
    } else {
        lemma_removal_wf(s, pos, k - 1);
        let (a, l) = removal_steps(s, pos, k - 1);
        match cell_index(a, pos[k - 1].0 as int, pos[k - 1].1 as int) {
            Some(i) => {
                let x = a + load_placed(l);
                assert(0 <= i < a.len());
                lemma_wf_move_last(x, i);
                assert(a.remove(i) + load_placed(l.push((a[i].2, a[i].0, a[i].1))) =~= x.remove(i).push(x[i]));
                lemma_remove_wf(a, i);
            },
            None => {},
        }
    }
}

/// The second part of well formed placed blocks is disjoint.
proof fn lemma_wf_suffix(a: Seq<PlacedSpec>, v: Seq<(BlockSpec, i64, i64)>)
    requires
        blocks_wf(a + load_placed(v)),
    ensures
        load_disjoint(v),
        load_in_domain(v),
{
    let x = a + load_placed(v);
    let lp = load_placed(v);
    let n = a.len() as int;
    assert forall|i: int| 0 <= i < lp.len() implies #[trigger] lp[i] == x[n + i] by {}
    assert forall|i: int, j: int| 0 <= i < lp.len() && 0 <= j < lp.len() && i != j implies !(lp[i].0 == lp[j].0
        && lp[i].1 == lp[j].1) by {
        assert(lp[i] == x[n + i] && lp[j] == x[n + j]);
    }
    assert forall|i: int, j: int, c: int|
        0 <= i < lp.len() && 0 <= j < lp.len() && i != j && covers(lp[i], lp[i].0 as int, c) implies !covers(
        lp[j],
        lp[i].0 as int,
        c,
    ) by {
        assert(lp[i] == x[n + i] && lp[j] == x[n + j]);
    }
    assert forall|i: int| 0 <= i < v.len() implies #[trigger] load_entry_in_domain(v[i]) by {
        assert(lp[i] == x[n + i]);
    }
}

/// Disjointness carries over between loads with the same multiset.
proof fn lemma_disjoint_perm(a: Seq<(BlockSpec, i64, i64)>, b: Seq<(BlockSpec, i64, i64)>)
    requires
        load_disjoint(a),
        a.to_multiset() == b.to_multiset(),
    ensures
        load_disjoint(b),
{
    broadcast use vstd::seq_lib::group_to_multiset_ensures;
    let la = load_placed(a);
    let lb = load_placed(b);
    assert(a.no_duplicates()) by {
        assert forall|i: int, j: int| 0 <= i < a.len() && 0 <= j < a.len() && i != j implies a[i] != a[j] by {
            assert(la[i] == (a[i].1, a[i].2, a[i].0) && la[j] == (a[j].1, a[j].2, a[j].0));
        }
    }
    a.lemma_multiset_has_no_duplicates();
    b.lemma_multiset_has_no_duplicates_conv();
    assert forall|i: int, j: int| 0 <= i < lb.len() && 0 <= j < lb.len() && i != j implies !(lb[i].0 == lb[j].0
        && lb[i].1 == lb[j].1) by {
        assert(b.contains(b[i]) && b.contains(b[j]));
        assert(a.to_multiset().count(b[i]) > 0 && a.to_multiset().count(b[j]) > 0);
        let p = choose|p: int| 0 <= p < a.len() && a[p] == b[i];
        let q = choose|q: int| 0 <= q < a.len() && a[q] == b[j];
        assert(b[i] != b[j]);
        assert(la[p] == lb[i] && la[q] == lb[j]);
    }
    assert forall|i: int, j: int, c: int|
        0 <= i < lb.len() && 0 <= j < lb.len() && i != j && covers(lb[i], lb[i].0 as int, c) implies !covers(
        lb[j],
        lb[i].0 as int,
        c,
    ) by {
        assert(b.contains(b[i]) && b.contains(b[j]));
        assert(a.to_multiset().count(b[i]) > 0 && a.to_multiset().count(b[j]) > 0);
        let p = choose|p: int| 0 <= p < a.len() && a[p] == b[i];
        let q = choose|q: int| 0 <= q < a.len() && a[q] == b[j];
        assert(b[i] != b[j]);
        assert(la[p] == lb[i] && la[q] == lb[j]);
    }
}

/// Moving every loaded block by the same offset keeps them disjoint.
proof fn lemma_disjoint_moved(v: Seq<(BlockSpec, i64, i64)>, xo: int, yo: int)
    requires
        load_disjoint(v),
        load_move_fits(v, xo, yo),
    ensures
        load_disjoint(load_moved(v, xo, yo)),
{
    let m = load_moved(v, xo, yo);
    let lv = load_placed(v);
    let lm = load_placed(m);
    assert forall|i: int| 0 <= i < lm.len() implies #[trigger] lm[i] == ((lv[i].0 + xo) as i64, (lv[i].1 + yo) as i64,
        lv[i].2) && lm[i].0 == lv[i].0 + xo && lm[i].1 == lv[i].1 + yo by {
        assert(v[i].1 + xo <= i64::MAX && v[i].1 + xo >= i64::MIN);
        assert(v[i].2 + yo <= i64::MAX && v[i].2 + yo >= i64::MIN);
    }
    assert forall|i: int, j: int| 0 <= i < lm.len() && 0 <= j < lm.len() && i != j implies !(lm[i].0 == lm[j].0
        && lm[i].1 == lm[j].1) by {
        assert(lm[i].0 == lv[i].0 + xo && lm[j].0 == lv[j].0 + xo);
        assert(lm[i].1 == lv[i].1 + yo && lm[j].1 == lv[j].1 + yo);
    }
    assert forall|i: int, j: int, c: int|
        0 <= i < lm.len() && 0 <= j < lm.len() && i != j && covers(lm[i], lm[i].0 as int, c) implies !covers(
        lm[j],
        lm[i].0 as int,
        c,
    ) by {
        assert(lm[i].0 == lv[i].0 + xo && lm[j].0 == lv[j].0 + xo);
        assert(lm[i].1 == lv[i].1 + yo && lm[j].1 == lv[j].1 + yo);
        assert(covers(lv[i], lv[i].0 as int, c - yo));
        if covers(lm[j], lm[i].0 as int, c) {
            assert(covers(lv[j], lv[i].0 as int, c - yo));
        }
    }
}

/// A cell covered after placing a list of blocks was covered before, or is
/// covered by one of the placed blocks.
proof fn lemma_insert_all_covers(s: Seq<PlacedSpec>, v: Seq<(BlockSpec, i64, i64)>, x: int, c: int, j: int)
    requires
        0 <= j < insert_all(s, v).len(),
        covers(insert_all(s, v)[j], x, c),
    ensures
        (exists|k: int| 0 <= k < s.len() && covers(#[trigger] s[k], x, c)) || (exists|k: int|
            0 <= k < v.len() && covers(#[trigger] load_placed(v)[k], x, c)),
    decreases v.len(),
{
    if v.len() > 0 {
        let w = v.drop_last();
        let l = v.last();
        let t = insert_all(s, w);
        assert(load_placed(v)[v.len() - 1] == (l.1, l.2, l.0));
        match origin_index(t, l.1 as int, l.2 as int) {
            Some(k) => {
                if j != k {
                    assert(insert_all(s, v)[j] == t[j]);
                    lemma_insert_all_covers(s, w, x, c, j);
                    if exists|q: int| 0 <= q < w.len() && covers(#[trigger] load_placed(w)[q], x, c) {
                        let q = choose|q: int| 0 <= q < w.len() && covers(#[trigger] load_placed(w)[q], x, c);
                        assert(load_placed(v)[q] == load_placed(w)[q]);
                    }
                }
            },
            None => {
                if j < t.len() {
                    assert(insert_all(s, v)[j] == t[j]);
                    lemma_insert_all_covers(s, w, x, c, j);
                    if exists|q: int| 0 <= q < w.len() && covers(#[trigger] load_placed(w)[q], x, c) {
                        let q = choose|q: int| 0 <= q < w.len() && covers(#[trigger] load_placed(w)[q], x, c);
                        assert(load_placed(v)[q] == load_placed(w)[q]);
                    }
                }
            },
        }
    }
}

/// Placing disjoint blocks that each have space keeps the area well formed.
proof fn lemma_insert_all_wf(s: Seq<PlacedSpec>, v: Seq<(BlockSpec, i64, i64)>)
    requires
        blocks_wf(s),
        no_overlap(load_placed(v)),
        forall|i: int| 0 <= i < v.len() ==> space_at(s, #[trigger] v[i].1 as int, v[i].2 as int, v[i].0.rows as int),
    ensures
        blocks_wf(insert_all(s, v)),
    decreases v.len(),
{
    if v.len() > 0 {
        let w = v.drop_last();
        let l = v.last();
        let n = v.len() - 1;
        assert(no_overlap(load_placed(w))) by {
            let lw = load_placed(w);
            let lv = load_placed(v);
            assert forall|i: int, j: int, c: int|
                0 <= i < lw.len() && 0 <= j < lw.len() && i != j && covers(lw[i], lw[i].0 as int, c) implies !covers(
                lw[j],
                lw[i].0 as int,
                c,
            ) by {
                assert(lw[i] == lv[i] && lw[j] == lv[j]);
            }
        }
        assert forall|i: int| 0 <= i < w.len() implies space_at(s, #[trigger] w[i].1 as int, w[i].2 as int, w[i].0.rows as int) by {
            assert(w[i] == v[i]);
        }
        lemma_insert_all_wf(s, w);
        let t = insert_all(s, w);
        assert(space_at(s, l.1 as int, l.2 as int, l.0.rows as int)) by {
            assert(v[n] == l);
        }
        assert forall|c: int| l.2 <= c < l.2 + l.0.rows implies #[trigger] cell_index(t, l.1 as int, c) is None by {
            if cell_index(t, l.1 as int, c) is Some {
                let j = cell_index(t, l.1 as int, c)->0;
                assert(is_first_cover(t, l.1 as int, c, choose|i: int| is_first_cover(t, l.1 as int, c, i)));
                lemma_insert_all_covers(s, w, l.1 as int, c, j);
                if exists|k: int| 0 <= k < s.len() && covers(#[trigger] s[k], l.1 as int, c) {
                    let k = choose|k: int| 0 <= k < s.len() && covers(#[trigger] s[k], l.1 as int, c);
                    lemma_cover_some(s, l.1 as int, c, k);
                    assert(cell_index(s, l.1 as int, c) is None);
                } else {
                    let k = choose|k: int| 0 <= k < w.len() && covers(#[trigger] load_placed(w)[k], l.1 as int, c);
                    let lv = load_placed(v);
                    assert(lv[k] == load_placed(w)[k]);
                    assert(lv[n] == (l.1, l.2, l.0));
                    assert(covers(lv[k], lv[k].0 as int, c));
                    assert(covers(lv[n], lv[k].0 as int, c));
                }
            }
        }
        lemma_insert_wf(t, l.1, l.2, l.0);
    }
}

/// Placing blocks whose sub areas are below `m` keeps the sub area bound.
proof fn lemma_subs_insert_all(s: Seq<PlacedSpec>, v: Seq<(BlockSpec, i64, i64)>, m: nat)
    requires
        subs_below(s, m),
        load_subs_ok(v, m),
    ensures
        subs_below(insert_all(s, v), m),
    decreases v.len(),
{
    if v.len() > 0 {
        let w = v.drop_last();
        assert forall|i: int| 0 <= i < w.len() implies #[trigger] load_entry_subs(w[i], m) by {
            assert(w[i] == v[i]);
        }
        lemma_subs_insert_all(s, w, m);
        let l = v.last();
        assert(load_entry_subs(v[v.len() - 1], m));
        lemma_subs_insert(insert_all(s, w), l.1, l.2, l.0, m);
    }
}

/// The blocks taken out of an area carry its sub area bound.
/// Every cell of every placed block lies within `w` of zero in both
/// coordinates.
pub open spec fn placed_within(s: Seq<PlacedSpec>, w: int) -> bool {
    forall|i: int| #![trigger s[i]] 0 <= i < s.len() ==> -w <= s[i].0 <= w && -w <= s[i].1 && s[i].1 + s[i].2.rows <= w + 1
}

/// A covered cell of blocks within a bound lies within it.
proof fn lemma_cell_within(s: Seq<PlacedSpec>, x: int, y: int, w: int)
    requires
        placed_within(s, w),
        cell_index(s, x, y) is Some,
    ensures
        -w <= x <= w,
        -w <= y <= w,
{
    let i = cell_index(s, x, y)->0;
    assert(is_first_cover(s, x, y, choose|k: int| is_first_cover(s, x, y, k)));
    assert(covers(s[i], x, y));
}

/// Taking blocks out keeps the origins of the rest and of the loaded ones
/// within a bound.
proof fn lemma_removal_within(s: Seq<PlacedSpec>, pos: Seq<(i64, i64)>, k: int, w: int)
    requires
        placed_within(s, w),
    ensures
        placed_within(removal_steps(s, pos, k).0, w),
        load_pos_within(removal_steps(s, pos, k).1, w),
    decreases k,
{
    if k > 0 {
        lemma_removal_within(s, pos, k - 1, w);
        let (a, l) = removal_steps(s, pos, k - 1);
        match cell_index(a, pos[k - 1].0 as int, pos[k - 1].1 as int) {
            Some(i) => {
                let a2 = a.remove(i);
                assert forall|q: int| #![trigger a2[q]] 0 <= q < a2.len() implies -w <= a2[q].0 <= w && -w <= a2[q].1 && a2[q].1
                    + a2[q].2.rows <= w + 1 by {
                    if q < i {
                        assert(a2[q] == a[q]);
                    } else {
                        assert(a2[q] == a[q + 1]);
                    }
                }
                let l2 = l.push((a[i].2, a[i].0, a[i].1));
                assert forall|q: int| #![trigger l2[q]] 0 <= q < l2.len() implies -w <= l2[q].1 <= w && -w <= l2[q].2 <= w by {
                    if q < l.len() {
                        assert(l2[q] == l[q]);
                    } else {
                        assert(a[i].2.rows >= 0);
                    }
                }
            },
            None => {},
        }
    }
}

/// Taking blocks out moves each of them from the area to the load.
proof fn lemma_removal_contains(s: Seq<PlacedSpec>, pos: Seq<(i64, i64)>, k: int)
    ensures
        forall|p: PlacedSpec|
            s.contains(p) <==> (#[trigger] removal_steps(s, pos, k).0.contains(p) || load_placed(removal_steps(s, pos, k).1).contains(
                p,
            )),
    decreases k,
{
    if k > 0 {
        lemma_removal_contains(s, pos, k - 1);
        let (a, l) = removal_steps(s, pos, k - 1);
        match cell_index(a, pos[k - 1].0 as int, pos[k - 1].1 as int) {
            Some(i) => {
                let a2 = a.remove(i);
                let l2 = l.push((a[i].2, a[i].0, a[i].1));
                assert(load_placed(l2) =~= load_placed(l).push(a[i]));
                assert forall|p: PlacedSpec| a.contains(p) <==> (a2.contains(p) || p == a[i]) by {
                    if a.contains(p) && p != a[i] {
                        let j = choose|j: int| 0 <= j < a.len() && a[j] == p;
                        if j < i {
                            assert(a2[j] == p);
                        } else {
                            assert(a2[j - 1] == p);
                        }
                    }
                    if a2.contains(p) {
                        let j = choose|j: int| 0 <= j < a2.len() && a2[j] == p;
                        if j < i {
                            assert(a[j] == p);
                        } else {
                            assert(a[j + 1] == p);
                        }
                    }
                    if p == a[i] {
                        assert(a[i] == p);
                    }
                }
                assert forall|p: PlacedSpec| load_placed(l2).contains(p) <==> (load_placed(l).contains(p) || p == a[i]) by {
                    let lp = load_placed(l);
                    if load_placed(l2).contains(p) {
                        let j = choose|j: int| 0 <= j < load_placed(l2).len() && load_placed(l2)[j] == p;
                        if j < lp.len() {
                            assert(lp[j] == p);
                        }
                    }
                    if lp.contains(p) {
                        let j = choose|j: int| 0 <= j < lp.len() && lp[j] == p;
                        assert(load_placed(l2)[j] == p);
                    }
                    if p == a[i] {
                        assert(load_placed(l2)[lp.len() as int] == p);
                    }
                }
            },
            None => {},
        }
    }
}

/// Placing blocks whose origins are all new appends them.
proof fn lemma_insert_all_fresh(a: Seq<PlacedSpec>, l: Seq<(BlockSpec, i64, i64)>)
    requires
        origins_distinct(a + load_placed(l)),
    ensures
        insert_all(a, l) == a + load_placed(l),
    decreases l.len(),
{
    if l.len() > 0 {
        let dl = l.drop_last();
        let x = a + load_placed(l);
        let y = a + load_placed(dl);
        assert forall|i: int, j: int| 0 <= i < y.len() && 0 <= j < y.len() && i != j implies !(y[i].0 == y[j].0 && y[i].1
            == y[j].1) by {
            assert(y[i] == x[i] && y[j] == x[j]);
        }
        lemma_insert_all_fresh(a, dl);
        let e = l.last();
        assert(x[x.len() - 1] == (e.1, e.2, e.0));
        assert forall|i: int| 0 <= i < y.len() implies !(y[i].0 == e.1 && y[i].1 == e.2) by {
            assert(y[i] == x[i]);
        }
        assert(origin_index(y, e.1 as int, e.2 as int) is None);
        assert(y.push((e.1, e.2, e.0)) =~= x);
    }
}

/// Taking a chain's blocks out of a well formed area and placing the load
/// back gives an area with exactly the blocks it had.
pub proof fn law_remove_then_place_load(s: Seq<PlacedSpec>, pos: Seq<(i64, i64)>, l: Seq<(BlockSpec, i64, i64)>)
    requires
        blocks_wf(s),
        l.to_multiset() == removal_steps(s, pos, pos.len() as int).1.to_multiset(),
    ensures
        forall|p: PlacedSpec| s.contains(p) <==> #[trigger] insert_all(removal_steps(s, pos, pos.len() as int).0, l).contains(p),
        insert_all(removal_steps(s, pos, pos.len() as int).0, l).len() == s.len(),
{
    broadcast use vstd::seq_lib::group_to_multiset_ensures;
    let rs = removal_steps(s, pos, pos.len() as int);
    let a = rs.0;
    lemma_removal_wf(s, pos, pos.len() as int);
    lemma_removal_contains(s, pos, pos.len() as int);
    lemma_wf_suffix(a, rs.1);
    lemma_disjoint_perm(rs.1, l);
    let w = a + load_placed(rs.1);
    let x = a + load_placed(l);
    assert forall|p: PlacedSpec| load_placed(l).contains(p) <==> load_placed(rs.1).contains(p) by {
        if load_placed(l).contains(p) {
            let j = choose|j: int| 0 <= j < load_placed(l).len() && load_placed(l)[j] == p;
            assert(l.contains(l[j]));
            assert(rs.1.to_multiset().count(l[j]) > 0);
            let q = choose|q: int| 0 <= q < rs.1.len() && rs.1[q] == l[j];
            assert(load_placed(rs.1)[q] == p);
        }
        if load_placed(rs.1).contains(p) {
            let j = choose|j: int| 0 <= j < load_placed(rs.1).len() && load_placed(rs.1)[j] == p;
            assert(rs.1.contains(rs.1[j]));
            assert(l.to_multiset().count(rs.1[j]) > 0);
            let q = choose|q: int| 0 <= q < l.len() && l[q] == rs.1[j];
            assert(load_placed(l)[q] == p);
        }
    }
    assert forall|i: int, j: int| 0 <= i < x.len() && 0 <= j < x.len() && i != j implies !(x[i].0 == x[j].0 && x[i].1 == x[j].1) by {
        let n = a.len() as int;
        if i < n && j < n {
            assert(x[i] == w[i] && x[j] == w[j]);
        } else if i >= n && j >= n {
            assert(x[i] == load_placed(l)[i - n] && x[j] == load_placed(l)[j - n]);
        } else {
            let (ia, jl) = if i < n { (i, j) } else { (j, i) };
            assert(x[ia] == w[ia]);
            assert(load_placed(l).contains(x[jl])) by {
                assert(load_placed(l)[jl - n] == x[jl]);
            }
            assert(load_placed(rs.1).contains(x[jl]));
            let q = choose|q: int| 0 <= q < load_placed(rs.1).len() && load_placed(rs.1)[q] == x[jl];
            assert(w[n + q] == x[jl]);
        }
    }
    lemma_insert_all_fresh(a, l);
    assert forall|p: PlacedSpec| s.contains(p) <==> #[trigger] x.contains(p) by {
        if x.contains(p) {
            let j = choose|j: int| 0 <= j < x.len() && x[j] == p;
            if j < a.len() {
                assert(a[j] == p);
            } else {
                assert(load_placed(l)[j - a.len()] == p);
            }
        }
        if a.contains(p) {
            let j = choose|j: int| 0 <= j < a.len() && a[j] == p;
            assert(x[j] == p);
        }
        if load_placed(l).contains(p) {
            let j = choose|j: int| 0 <= j < load_placed(l).len() && load_placed(l)[j] == p;
            assert(x[a.len() + j] == p);
        }
    }
    vstd::seq_lib::to_multiset_len(l);
    vstd::seq_lib::to_multiset_len(rs.1);
    assert(l.len() == rs.1.len());
    lemma_removal_len(s, pos, pos.len() as int);
}

/// Taking blocks out keeps their number.
proof fn lemma_removal_len(s: Seq<PlacedSpec>, pos: Seq<(i64, i64)>, k: int)
    ensures
        removal_steps(s, pos, k).0.len() + removal_steps(s, pos, k).1.len() == s.len(),
    decreases k,
{
    if k > 0 {
        lemma_removal_len(s, pos, k - 1);
    }
}

proof fn lemma_removal_subs(s: Seq<PlacedSpec>, pos: Seq<(i64, i64)>, k: int, m: nat)
    requires
        subs_below(s, m),
    ensures
        subs_below(removal_steps(s, pos, k).0, m),
        load_subs_ok(removal_steps(s, pos, k).1, m),
    decreases k,
{
    if k > 0 {
        lemma_removal_subs(s, pos, k - 1, m);
        let (a, l) = removal_steps(s, pos, k - 1);
        match cell_index(a, pos[k - 1].0 as int, pos[k - 1].1 as int) {
            Some(i) => {
                lemma_subs_remove(a, i, m);
                let l2 = l.push((a[i].2, a[i].0, a[i].1));
                assert forall|q: int| 0 <= q < l2.len() implies #[trigger] load_entry_subs(l2[q], m) by {
                    if q < l.len() {
                        assert(l2[q] == l[q]);
                    }
                }
            },
            None => {},
        }
    }
}


/// The cells a removed block occupied are free afterwards.
proof fn lemma_removed_space(s: Seq<PlacedSpec>, i: int)
    requires
        blocks_wf(s),
        0 <= i < s.len(),
    ensures
        space_at(s.remove(i), s[i].0 as int, s[i].1 as int, s[i].2.rows as int),
{
    let t = s.remove(i);
    let x = s[i].0 as int;
    assert forall|c: int| s[i].1 <= c < s[i].1 + s[i].2.rows implies #[trigger] cell_index(t, x, c) is None by {
        assert forall|j: int| 0 <= j < t.len() implies !covers(#[trigger] t[j], x, c) by {
            let j2 = if j < i { j } else { j + 1 };
            assert(t[j] == s[j2]);
            assert(covers(s[i], s[i].0 as int, c));
        }
        lemma_no_cover(t, x, c);
    }
}

/// A cell that a block of well formed placed blocks covers lies in the coordinate range.
proof fn lemma_cell_in_domain(s: Seq<PlacedSpec>, x: int, y: int)
    requires
        blocks_wf(s),
        cell_index(s, x, y) is Some,
    ensures
        i64::MIN < x < i64::MAX,
        i64::MIN <= y <= i64::MAX,
{
    let i = cell_index(s, x, y)->0;
    assert(is_first_cover(s, x, y, choose|k: int| is_first_cover(s, x, y, k)));
    assert(covers(s[i], x, y));
    assert(in_domain(s[i].0 as int, s[i].1 as int, s[i].2.rows as int));
}

/// The row a block grabbed at row `y` lands on when its grabbed row is put at `y2`.
pub open spec fn grabbed_row(y: i64, yo: i64, y2: i64) -> i64 {
    if y > yo {
        if y2 < y - yo {
            0
        } else {
            (y2 - (y - yo)) as i64
        }
    } else {
        y2
    }
}

/// Whether area `area` lies below the sub areas of the block at cell `(x, y)` of area `id`.
pub open spec fn cell_holds_area(f: FunSpec, area: usize, id: usize, x: int, y: int) -> bool {
    match fun_cell(f, id, x, y) {
        Some(i) => area < f.areas.len() && reachable(
            f.areas,
            contains_flags(f.areas[id as int].blocks[i].2.contains, f.areas.len()),
        )[area as int],
        None => false,
    }
}

/// The copy of a block that cloning makes: a new ID, sub area placeholders as
/// its type defines them, if the language knows the type.
pub open spec fn cloned_block(f: FunSpec, b: BlockSpec) -> BlockSpec {
    BlockSpec {
        id: id_after(f.id as nat, 1),
        contains: match lang_type(f.lang, b.typ) {
            Some(t) => contains_for(t.area_count),
            None => b.contains,
        },
        ..b
    }
}

impl BlockFun {
    /// The chain of blocks at cell `(x, y)` of area `id`, with its blocks
    /// taken out of the area (`remove_blocks`) or copied with new IDs.
    pub fn retrieve_block_chain_at(&mut self, id: usize, x: i64, y: i64, remove_blocks: bool) -> (r: Option<
        Box<BlockChain>,
    >)
        requires
            old(self).wf(),
        ensures
            final(self).wf(),
            match fun_cell(old(self)@, id, x as int, y as int) {
                None => r is None && final(self)@ == old(self)@,
                Some(a) => {
                    let s = old(self)@.areas[id as int].blocks;
                    &&& r is Some
                    &&& chain_of(s, a, r->0@)
                    &&& r->0@.area_id == 0
                    &&& load_sorted(r->0@.load)
                    &&& if remove_blocks {
                        let rs = removal_steps(s, r->0@.blocks, r->0@.blocks.len() as int);
                        &&& r->0@.load.to_multiset() == rs.1.to_multiset()
                        &&& final(self)@ == (FunSpec {
                            areas: old(self)@.areas.update(
                                id as int,
                                AreaSpec { blocks: rs.0, ..old(self)@.areas[id as int] },
                            ),
                            ..old(self)@
                        })
                    } else {
                        let cs = clone_steps(s, r->0@.blocks, old(self)@.id as nat, r->0@.blocks.len() as int);
                        &&& r->0@.load.to_multiset() == cs.to_multiset()
                        &&& final(self)@ == (FunSpec { id: id_after(old(self)@.id as nat, cs.len()), ..old(self)@ })
                    }
                },
            },
    {
        if id >= self.areas.len() {
            return None;
        }
        let ghost f0 = self@;
        proof {
            assert(self@.areas[id as int] == self.areas@[id as int]@);
            assert(blocks_wf(f0.areas[id as int].blocks));
        }
        let mut chain = match self.areas[id].chain_at(x, y) {
            Some(c) => c,
            None => {
                return None;
            },
        };
        if remove_blocks {
            chain.remove_load(&mut self.areas[id]);
            proof {
                let rs = removal_steps(f0.areas[id as int].blocks, chain@.blocks, chain@.blocks.len() as int);
                assert(self@.areas =~= f0.areas.update(id as int, AreaSpec { blocks: rs.0, ..f0.areas[id as int] }));
                lemma_removal_subs(f0.areas[id as int].blocks, chain@.blocks, chain@.blocks.len() as int, f0.areas.len() as nat);
                lemma_fun_wf_extend(f0, self@, id as int);
            }
        } else {
            chain.clone_load(&mut self.areas[id], &mut self.id_gen);
            proof {
                assert(self@.areas =~= f0.areas);
            }
        }
        Some(chain)
    }

    /// Moves the block at cell `(x, y)` of area `id` so that the grabbed row
    /// lands on `(x2, y2)` of area `id2`; without space there it goes back.
    pub fn move_block_from_to(&mut self, id: usize, x: i64, y: i64, id2: usize, x2: i64, y2: i64) -> (r: Result<
        (),
        BlockDSPError,
    >)
        requires
            old(self).wf(),
            old(self)@.generation < u64::MAX,
        ensures
            final(self).wf(),
            cell_holds_area(old(self)@, id2, id, x as int, y as int) ==> (r matches Err(
                BlockDSPError::CircularAction(a, b),
            ) && a == id && b == id2) && final(self)@ == old(self)@,
            !cell_holds_area(old(self)@, id2, id, x as int, y as int) && id >= old(self)@.areas.len() ==> (r matches Err(
                BlockDSPError::UnknownArea(a),
            ) && a == id) && final(self)@ == old(self)@,
            !cell_holds_area(old(self)@, id2, id, x as int, y as int) && id < old(self)@.areas.len() ==> match cell_index(
                old(self)@.areas[id as int].blocks,
                x as int,
                y as int,
            ) {
                None => (r matches Err(BlockDSPError::NoBlockAt(a, b, c)) && a == id && b == x && c == y) && final(self)@
                    == old(self)@,
                Some(i) => {
                    let e = old(self)@.areas[id as int].blocks[i];
                    let areas1 = old(self)@.areas.update(
                        id as int,
                        AreaSpec { blocks: old(self)@.areas[id as int].blocks.remove(i), ..old(self)@.areas[id as int] },
                    );
                    let ny = grabbed_row(y, e.1, y2);
                    if id2 >= old(self)@.areas.len() {
                        (r matches Err(BlockDSPError::UnknownArea(a)) && a == id2) && final(self)@ == (FunSpec {
                            areas: areas1,
                            ..old(self)@
                        })
                    } else if space_at(areas1[id2 as int].blocks, x2 as int, ny as int, e.2.rows as int) {
                        r is Ok && final(self)@ == (FunSpec {
                            areas: areas_with_placed(areas1, id2 as int, x2, ny, e.2),
                            generation: (old(self)@.generation + 1) as u64,
                            ..old(self)@
                        })
                    } else {
                        (r matches Err(BlockDSPError::NoSpaceAvailable(a, b, c, d)) && a == id2 && b == x2 && c == ny
                            && d == e.2.rows) && final(self)@ == (FunSpec {
                            areas: areas_with_placed(areas1, id as int, e.0, e.1, e.2),
                            generation: (old(self)@.generation + 1) as u64,
                            ..old(self)@
                        })
                    }
                },
            },
    {
        if self.area_is_subarea_of(id2, id, x, y) {
            return Err(BlockDSPError::CircularAction(id, id2));
        }
        if id >= self.areas.len() {
            return Err(BlockDSPError::UnknownArea(id));
        }
        let ghost f0 = self@;
        let ghost s = f0.areas[id as int].blocks;
        proof {
            assert(self@.areas[id as int] == self.areas@[id as int]@);
            assert(blocks_wf(s) && subs_below(s, f0.areas.len() as nat));
        }
        let (block, xo, yo) = match self.areas[id].remove_at(x, y) {
            Some(t) => t,
            None => {
                proof {
                    assert(self@.areas =~= f0.areas);
                }
                return Err(BlockDSPError::NoBlockAt(id, x, y));
            },
        };
        let ghost i = cell_index(s, x as int, y as int)->0;
        let ghost areas1 = self@.areas;
        proof {
            lemma_cell_in_domain(s, x as int, y as int);
            assert(in_domain(s[i].0 as int, s[i].1 as int, s[i].2.rows as int));
            assert(areas1 =~= f0.areas.update(id as int, AreaSpec { blocks: s.remove(i), ..f0.areas[id as int] }));
            lemma_subs_remove(s, i, f0.areas.len() as nat);
            lemma_fun_wf_extend(f0, self@, id as int);
            lemma_removed_space(s, i);
        }
        let mut ny = y2;
        if y > yo {
            let offs = y - yo;
            ny = if y2 < offs { 0 } else { y2 - offs };
        }
        if id2 >= self.areas.len() {
            return Err(BlockDSPError::UnknownArea(id2));
        }
        let rows = block.rows;
        self.generation = self.generation + 1;
        let ghost f1 = self@;
        proof {
            assert(self@.areas[id2 as int] == self.areas@[id2 as int]@);
            assert(self@.areas[id as int] == self.areas@[id as int]@);
            assert(blocks_wf(f1.areas[id2 as int].blocks));
            assert(subs_below(s, f0.areas.len() as nat));
            assert(s[i] == s[i]);
        }
        if self.areas[id2].check_space_at(x2, ny, rows) {
            self.areas[id2].set_block_at(x2, ny, block);
            proof {
                assert(self@.areas =~= areas_with_placed(areas1, id2 as int, x2, ny, s[i].2));
                assert(subs_below(areas1[id2 as int].blocks, f0.areas.len() as nat));
                lemma_subs_insert(areas1[id2 as int].blocks, x2, ny, s[i].2, f0.areas.len() as nat);
                lemma_fun_wf_extend(f1, self@, id2 as int);
            }
            Ok(())
        } else {
            self.areas[id].set_block_at(xo, yo, block);
            proof {
                assert(self@.areas =~= areas_with_placed(areas1, id as int, s[i].0, s[i].1, s[i].2));
                lemma_subs_insert(areas1[id as int].blocks, xo, yo, s[i].2, f0.areas.len() as nat);
                lemma_fun_wf_extend(f1, self@, id as int);
            }
            Err(BlockDSPError::NoSpaceAvailable(id2, x2, ny, rows))
        }
    }

    /// Places a copy of the block at cell `(x, y)` of area `id`, with a new ID
    /// and new sub areas, so that the grabbed row lands on `(x2, y2)` of area `id2`.
    pub fn clone_block_from_to(&mut self, id: usize, x: i64, y: i64, id2: usize, x2: i64, y2: i64) -> (r: Result<
        (),
        BlockDSPError,
    >)
        requires
            old(self).wf(),
            old(self)@.generation < u64::MAX,
            old(self)@.areas.len() + 2 <= usize::MAX,
        ensures
            final(self).wf(),
            id >= old(self)@.areas.len() ==> (r matches Err(BlockDSPError::UnknownArea(a)) && a == id) && final(self)@
                == old(self)@,
            id < old(self)@.areas.len() ==> match cell_index(old(self)@.areas[id as int].blocks, x as int, y as int) {
                None => (r matches Err(BlockDSPError::NoBlockAt(a, b, c)) && a == id && b == x && c == y) && final(self)@
                    == old(self)@,
                Some(i) => {
                    let e = old(self)@.areas[id as int].blocks[i];
                    let b1 = cloned_block(old(self)@, e.2);
                    let nb = BlockSpec { contains: fresh_contains(b1.contains, old(self)@.areas.len()), ..b1 };
                    let areas1 = old(self)@.areas + fresh_areas(b1.contains);
                    let ny = grabbed_row(y, e.1, y2);
                    let f1 = FunSpec { areas: areas1, id: id_after(old(self)@.id as nat, 1), ..old(self)@ };
                    if id2 >= areas1.len() {
                        (r matches Err(BlockDSPError::UnknownArea(a)) && a == id2) && final(self)@ == f1
                    } else if space_at(areas1[id2 as int].blocks, x2 as int, ny as int, e.2.rows as int) {
                        r is Ok && final(self)@ == (FunSpec {
                            areas: areas_with_placed(areas1, id2 as int, x2, ny, nb),
                            generation: (old(self)@.generation + 1) as u64,
                            ..f1
                        })
                    } else {
                        (r matches Err(BlockDSPError::NoSpaceAvailable(a, b, c, d)) && a == id2 && b == x2 && c == ny
                            && d == e.2.rows) && final(self)@ == f1
                    }
                },
            },
    {
        if id >= self.areas.len() {
            return Err(BlockDSPError::UnknownArea(id));
        }
        let ghost f0 = self@;
        let ghost s = f0.areas[id as int].blocks;
        proof {
            assert(self@.areas[id as int] == self.areas@[id as int]@);
            assert(blocks_wf(s));
        }
        let (mut nb, yo) = match self.areas[id].ref_at_origin(x, y) {
            Some((block, _xo, yo)) => {
                let nid = self.id_gen.next();
                (Box::new(block.clone_with_new_id(nid)), yo)
            },
            None => {
                return Err(BlockDSPError::NoBlockAt(id, x, y));
            },
        };
        let ghost i = cell_index(s, x as int, y as int)->0;
        proof {
            lemma_cell_in_domain(s, x as int, y as int);
            assert(in_domain(s[i].0 as int, s[i].1 as int, s[i].2.rows as int));
        }
        match self.language.find_type(nb.typ.as_str()) {
            Some(ti) => {
                proof {
                    assert(f0.lang.types[ti as int] == type_spec(self.language.types@[ti as int]));
                }
                self.language.types[ti].touch_contains(&mut *nb);
            },
            None => {},
        }
        proof {
            assert(nb@ == cloned_block(f0, s[i].2));
        }
        self.create_areas_for_block(&mut *nb);
        let mut ny = y2;
        if y > yo {
            let offs = y - yo;
            ny = if y2 < offs { 0 } else { y2 - offs };
        }
        if id2 >= self.areas.len() {
            proof {
                assert(self@.areas.len() == self.areas@.len());
                lemma_fun_wf_new_areas(f0, self@);
            }
            return Err(BlockDSPError::UnknownArea(id2));
        }
        let rows = nb.rows;
        let ghost f1 = self@;
        proof {
            assert(self.areas@.len() == f1.areas.len());
            assert(self@.areas[id2 as int] == self.areas@[id2 as int]@);
            lemma_fun_wf_new_areas(f0, f1);
            assert(blocks_wf(f1.areas[id2 as int].blocks));
        }
        if self.areas[id2].check_space_at(x2, ny, rows) {
            self.generation = self.generation + 1;
            self.areas[id2].set_block_at(x2, ny, nb);
            proof {
                assert(self@.areas =~= areas_with_placed(f1.areas, id2 as int, x2, ny, nb@));
                assert(subs_below(f1.areas[id2 as int].blocks, f1.areas.len() as nat));
                lemma_subs_insert(f1.areas[id2 as int].blocks, x2, ny, nb@, f1.areas.len() as nat);
                lemma_fun_wf_extend(f1, self@, id2 as int);
            }
            Ok(())
        } else {
            Err(BlockDSPError::NoSpaceAvailable(id2, x2, ny, rows))
        }
    }
}

/// Adding empty areas keeps a program well formed.
proof fn lemma_fun_wf_new_areas(f0: FunSpec, f1: FunSpec)
    requires
        fun_wf(f0),
        f1.areas.len() >= f0.areas.len(),
        f1.lang == f0.lang,
        forall|j: int| 0 <= j < f0.areas.len() ==> f1.areas[j] == f0.areas[j],
        forall|j: int| f0.areas.len() <= j < f1.areas.len() ==> f1.areas[j].blocks.len() == 0,
    ensures
        fun_wf(f1),
{
    assert forall|i: int| #![trigger f1.areas[i]] 0 <= i < f1.areas.len() implies blocks_wf(f1.areas[i].blocks)
        && subs_below(f1.areas[i].blocks, f1.areas.len()) by {
        if i < f0.areas.len() {
            assert(f1.areas[i] == f0.areas[i]);
            assert(subs_below(f0.areas[i].blocks, f0.areas.len()));
            lemma_subs_grow(f0.areas[i].blocks, f0.areas.len(), f1.areas.len());
        } else {
            assert(f1.areas[i].blocks =~= Seq::<PlacedSpec>::empty());
        }
    }
}


/// Loads with the same multiset lie inside the coordinate range together.
proof fn lemma_perm_in_domain(a: Seq<(BlockSpec, i64, i64)>, b: Seq<(BlockSpec, i64, i64)>)
    requires
        load_in_domain(a),
        a.to_multiset() == b.to_multiset(),
    ensures
        load_in_domain(b),
{
    broadcast use vstd::seq_lib::group_to_multiset_ensures;
    assert forall|i: int| 0 <= i < b.len() implies load_entry_in_domain(#[trigger] b[i]) by {
        assert(b.contains(b[i]));
        assert(a.to_multiset().count(b[i]) > 0);
        let j = choose|j: int| 0 <= j < a.len() && a[j] == b[i];
    }
}

/// Loads with the same multiset carry the same sub area bound.
proof fn lemma_perm_subs(a: Seq<(BlockSpec, i64, i64)>, b: Seq<(BlockSpec, i64, i64)>, n: nat)
    requires
        load_subs_ok(a, n),
        a.to_multiset() == b.to_multiset(),
    ensures
        load_subs_ok(b, n),
{
    broadcast use vstd::seq_lib::group_to_multiset_ensures;
    assert forall|i: int| 0 <= i < b.len() implies load_entry_subs(#[trigger] b[i], n) by {
        assert(b.contains(b[i]));
        assert(a.to_multiset().count(b[i]) > 0);
        let j = choose|j: int| 0 <= j < a.len() && a[j] == b[i];
    }
}

/// Loads with the same multiset lie within the same bound.
proof fn lemma_perm_within(a: Seq<(BlockSpec, i64, i64)>, b: Seq<(BlockSpec, i64, i64)>, w: int)
    requires
        load_pos_within(a, w),
        a.to_multiset() == b.to_multiset(),
    ensures
        load_pos_within(b, w),
{
    broadcast use vstd::seq_lib::group_to_multiset_ensures;
    assert forall|i: int| 0 <= i < b.len() implies -w <= #[trigger] b[i].1 <= w && -w <= b[i].2 <= w by {
        assert(b.contains(b[i]));
        assert(a.to_multiset().count(b[i]) > 0);
        let j = choose|j: int| 0 <= j < a.len() && a[j] == b[i];
    }
}

/// A moved load keeps its blocks and sub areas, and lies within the bound
/// grown by the offset.
proof fn lemma_moved_facts(v: Seq<(BlockSpec, i64, i64)>, xo: int, yo: int, w: int, n: nat)
    requires
        load_pos_within(v, w),
        -w <= xo <= w,
        -w <= yo <= w,
        2 * w <= i64::MAX,
    ensures
        load_move_fits(v, xo, yo),
        load_pos_within(load_moved(v, xo, yo), 2 * w),
        load_subs_ok(v, n) ==> load_subs_ok(load_moved(v, xo, yo), n),
        forall|i: int| #![trigger load_moved(v, xo, yo)[i]] 0 <= i < v.len() ==> load_moved(v, xo, yo)[i].1 == v[i].1
            + xo && load_moved(v, xo, yo)[i].2 == v[i].2 + yo && load_moved(v, xo, yo)[i].0 == v[i].0,
{
    let m = load_moved(v, xo, yo);
    assert forall|i: int| #![trigger m[i]] 0 <= i < v.len() implies m[i].1 == v[i].1 + xo && m[i].2 == v[i].2 + yo
        && m[i].0 == v[i].0 by {
        assert(-w <= v[i].1 <= w && -w <= v[i].2 <= w);
    }
    if load_subs_ok(v, n) {
        assert forall|i: int| 0 <= i < m.len() implies load_entry_subs(#[trigger] m[i], n) by {
            assert(m[i].0 == v[i].0);
            assert(load_entry_subs(v[i], n));
        }
    }
}

/// The smallest column and row of a load are at most 100000000, at most every
/// block's, and either the start value or some block's.
proof fn lemma_load_min(v: Seq<(BlockSpec, i64, i64)>, w: int)
    requires
        load_pos_within(v, w),
        w >= 100000000,
    ensures
        -w <= load_min(v).0 <= 100000000,
        -w <= load_min(v).1 <= 100000000,
        forall|i: int| 0 <= i < v.len() ==> load_min(v).0 <= #[trigger] v[i].1 && load_min(v).1 <= v[i].2,
    decreases v.len(),
{
    if v.len() > 0 {
        let u = v.drop_last();
        assert forall|i: int| #![trigger u[i]] 0 <= i < u.len() implies -w <= u[i].1 <= w && -w <= u[i].2 <= w by {
            assert(u[i] == v[i]);
        }
        lemma_load_min(u, w);
        assert forall|i: int| 0 <= i < v.len() implies load_min(v).0 <= #[trigger] v[i].1 && load_min(v).1 <= v[i].2 by {
            if i < u.len() {
                assert(u[i] == v[i]);
            }
        }
        assert(v[v.len() - 1] == v.last());
    }
}

/// Whether area `area` lies below the sub areas of some loaded block.
pub open spec fn loaded_reach(areas: Seq<AreaSpec>, v: Seq<(BlockSpec, i64, i64)>, area: usize) -> bool {
    exists|i: int|
        0 <= i < v.len() && area < areas.len() && #[trigger] reachable(
            areas,
            contains_flags(v[i].0.contains, areas.len()),
        )[area as int]
}

/// The placed blocks after moving a load by the first offset at which it fits
/// into `base`; `None` if it fits nowhere.
pub open spec fn fit_and_place(base: Seq<PlacedSpec>, m: Seq<(BlockSpec, i64, i64)>) -> Option<Seq<PlacedSpec>> {
    match first_fit(base, m, 21) {
        Some(k) => Some(insert_all(base, load_moved(m, fit_offsets()[k].0 as int, fit_offsets()[k].1 as int))),
        None => None,
    }
}

/// The larger of a value and zero.
pub open spec fn nonneg(v: int) -> int {
    if v > 0 {
        v
    } else {
        0
    }
}

/// The outcome of moving a chain whose loaded (sorted) blocks are `l`, taken
/// out of area `id` leaving `rest`, so that the grabbed cell `(x, y)` lands on
/// `(x2, y2)` of area `id2`: `r` and the program `g` after it.
pub open spec fn chain_move_result(
    f: FunSpec,
    id: usize,
    x: i64,
    y: i64,
    id2: usize,
    x2: i64,
    y2: i64,
    rest: Seq<PlacedSpec>,
    l: Seq<(BlockSpec, i64, i64)>,
    r: Result<(), BlockDSPError>,
    g: FunSpec,
) -> bool {
    let f1 = FunSpec { generation: (f.generation + 1) as u64, ..f };
    if id2 == id {
        match fit_and_place(rest, load_moved(l, x2 - x, y2 - y)) {
            Some(nb) => r is Ok && g == (FunSpec {
                areas: f.areas.update(id as int, AreaSpec { blocks: nb, ..f.areas[id as int] }),
                generation: (f.generation + 2) as u64,
                ..f
            }),
            None => (r matches Err(BlockDSPError::NoSpaceAvailable(a, b, c, d)) && a == id && b == x2 && c == y2 && d
                == 0) && g == f1,
        }
    } else if loaded_reach(f.areas, l, id2) {
        (r matches Err(BlockDSPError::CircularAction(a, b)) && a == id && b == id2) && g == f1
    } else {
        let mn = load_min(l);
        exists|l2: Seq<(BlockSpec, i64, i64)>|
            #![trigger load_sorted(l2)]
            l2.to_multiset() == load_moved(l, -mn.0, -mn.1).to_multiset() && load_sorted(l2) && {
                let m = load_moved(l2, nonneg(mn.0 - x + x2), nonneg(mn.1 - y + y2));
                if id2 >= f.areas.len() {
                    (r matches Err(BlockDSPError::UnknownArea(a)) && a == id) && g == f1
                } else {
                    match fit_and_place(f.areas[id2 as int].blocks, m) {
                        Some(nb) => r is Ok && g == (FunSpec {
                            areas: f.areas.update(id as int, AreaSpec { blocks: rest, ..f.areas[id as int] }).update(
                                id2 as int,
                                AreaSpec { blocks: nb, ..f.areas[id2 as int] },
                            ),
                            generation: (f.generation + 2) as u64,
                            ..f
                        }),
                        None => (r matches Err(BlockDSPError::NoSpaceAvailable(a, b, c, d)) && a == id && b == x2 && c
                            == y2 && d == 1) && g == f1,
                    }
                }
            }
    }
}

impl BlockChain {
    /// Whether area `area` lies below the sub areas of some loaded block.
    pub fn area_is_subarea_of_loaded(&mut self, area: usize, fun: &BlockFun) -> (r: bool)
        requires
            fun.wf(),
        ensures
            r == loaded_reach(fun@.areas, old(self)@.load, area),
            final(self)@ == old(self)@,
    {
        let ghost l = self@.load;
        let mut i: usize = 0;
        while i < self.load.len()
            invariant
                i <= self.load@.len(),
                l == load_view(self.load@),
                self@ == old(self)@,
                fun.wf(),
                forall|k: int| 0 <= k < i ==> !(area < fun@.areas.len() && #[trigger] reachable(
                    fun@.areas,
                    contains_flags(l[k].0.contains, fun@.areas.len()),
                )[area as int]),
            decreases self.load.len() - i,
        {
            proof {
                assert(l[i as int] == (self.load@[i as int].0@, self.load@[i as int].1, self.load@[i as int].2));
            }
            let start = fun.flags_of(self.load[i].0.contains);
            let reach = fun.reach_from(start);
            if area < reach.len() && reach[area] {
                proof {
                    assert(self.load@[i as int].0@.contains == self.load[i as int].0.contains);
                    assert(area < fun@.areas.len() && reachable(
                        fun@.areas,
                        contains_flags(l[i as int].0.contains, fun@.areas.len()),
                    )[area as int]);
                    assert(l == old(self)@.load);
                    assert(loaded_reach(fun@.areas, l, area));
                }
                return true;
            }
            i += 1;
        }
        false
    }
}

impl BlockFun {
    /// Moves the chain of blocks at cell `(x, y)` of area `id` so that the
    /// grabbed cell lands on `(x2, y2)` of area `id2`, at the first of
    /// [`fit_offsets`] where it fits; a chain is not moved into an area
    /// below its own blocks.
    #[verifier::rlimit(40)]
    pub fn move_block_chain_from_to(&mut self, id: usize, x: i64, y: i64, id2: usize, x2: i64, y2: i64) -> (r: Result<
        (),
        BlockDSPError,
    >)
        requires
            old(self).wf(),
            old(self)@.generation < u64::MAX - 1,
            -MAX_COORD <= x2 <= MAX_COORD,
            -MAX_COORD <= y2 <= MAX_COORD,
            id < old(self)@.areas.len() ==> placed_within(old(self)@.areas[id as int].blocks, MAX_COORD as int),
        ensures
            final(self).wf(),
            id >= old(self)@.areas.len() ==> (r matches Err(BlockDSPError::UnknownArea(a)) && a == id) && final(self)@
                == old(self)@,
            id < old(self)@.areas.len() ==> match cell_index(old(self)@.areas[id as int].blocks, x as int, y as int) {
                None => (r matches Err(BlockDSPError::NoBlockAt(a, b, c)) && a == id && b == x && c == y) && final(self)@
                    == old(self)@,
                Some(a) => {
                    let s = old(self)@.areas[id as int].blocks;
                    exists|c: ChainSpec, l: Seq<(BlockSpec, i64, i64)>|
                        #![trigger chain_of(s, a, c), load_sorted(l)]
                        chain_of(s, a, c) && l.to_multiset() == removal_steps(
                            s,
                            c.blocks,
                            c.blocks.len() as int,
                        ).1.to_multiset() && load_sorted(l) && chain_move_result(
                            old(self)@,
                            id,
                            x,
                            y,
                            id2,
                            x2,
                            y2,
                            removal_steps(s, c.blocks, c.blocks.len() as int).0,
                            l,
                            r,
                            final(self)@,
                        )
                },
            },
    {
        if id >= self.areas.len() {
            return Err(BlockDSPError::UnknownArea(id));
        }
        let ghost f0 = self@;
        let ghost s = f0.areas[id as int].blocks;
        let ghost n = f0.areas.len();
        proof {
            assert(self@.areas[id as int] == self.areas@[id as int]@);
            assert(blocks_wf(s) && subs_below(s, n as nat));
        }
        let mut area_clone = self.areas[id].duplicate();
        let mut chain = match area_clone.chain_at(x, y) {
            Some(c) => c,
            None => {
                return Err(BlockDSPError::NoBlockAt(id, x, y));
            },
        };
        let ghost a = cell_index(s, x as int, y as int)->0;
        let ghost c = chain@;
        proof {
            lemma_cell_in_domain(s, x as int, y as int);
        }
        chain.remove_load(&mut area_clone);
        self.generation = self.generation + 1;
        let ghost rs = removal_steps(s, c.blocks, c.blocks.len() as int);
        let ghost l = chain@.load;
        let ghost rest = area_clone@.blocks;
        let w: i64 = 0x400_0000_0000_0000;
        proof {
            lemma_removal_wf(s, c.blocks, c.blocks.len() as int);
            lemma_removal_subs(s, c.blocks, c.blocks.len() as int, n as nat);
            lemma_wf_suffix(rs.0, rs.1);
            lemma_disjoint_perm(rs.1, l);
            lemma_perm_in_domain(rs.1, l);
            lemma_perm_subs(rs.1, l, n as nat);
            lemma_removal_within(s, c.blocks, c.blocks.len() as int, MAX_COORD as int);
            lemma_perm_within(rs.1, l, MAX_COORD as int);
            lemma_cell_within(s, x as int, y as int, MAX_COORD as int);
            assert(load_pos_within(l, MAX_COORD as int));
            assert(rest == rs.0);
        }
        if id2 == id {
            let dx = x2 - x;
            let dy = y2 - y;
            proof {
                lemma_moved_facts(l, dx as int, dy as int, 2 * MAX_COORD, n as nat);
            }
            chain.move_by_offs(dx, dy);
            let ghost m = chain@.load;
            proof {
                lemma_disjoint_moved(l, dx as int, dy as int);
                assert(load_pos_within(m, 4 * MAX_COORD));
            }
            if !chain.try_fit_load_into_space(&mut area_clone) {
                proof {
                    assert(chain_move_result(f0, id, x, y, id2, x2, y2, rest, l, Err(BlockDSPError::NoSpaceAvailable(id, x2, y2, 0)), self@));
                }
                return Err(BlockDSPError::NoSpaceAvailable(id, x2, y2, 0));
            }
            let ghost k = first_fit(rest, m, 21)->0;
            proof {
                assert(fit_offset_small(k));
                lemma_first_fit_space(rest, m, 21);
                let o = fit_offsets()[k];
                lemma_moved_facts(m, o.0 as int, o.1 as int, 4 * MAX_COORD, n as nat);
                lemma_disjoint_moved(m, o.0 as int, o.1 as int);
                let fin = load_moved(m, o.0 as int, o.1 as int);
                assert forall|i: int| 0 <= i < fin.len() implies space_at(
                    rest,
                    #[trigger] fin[i].1 as int,
                    fin[i].2 as int,
                    fin[i].0.rows as int,
                ) by {
                    assert(load_has_space(rest, m, o.0 as int, o.1 as int));
                    assert(space_at(rest, m[i].1 + o.0, m[i].2 + o.1, m[i].0.rows as int));
                }
                lemma_insert_all_wf(rest, fin);
            }
            chain.place_load(&mut area_clone);
            self.areas.set(id, area_clone);
            proof {
                let o = fit_offsets()[k];
                let fin = load_moved(m, o.0 as int, o.1 as int);
                lemma_subs_insert_all(rest, fin, n as nat);
                assert(self@.areas =~= f0.areas.update(id as int, AreaSpec { blocks: insert_all(rest, fin), ..f0.areas[id as int] }));
                lemma_fun_wf_extend(f0, self@, id as int);
            }
        } else {
            if chain.area_is_subarea_of_loaded(id2, self) {
                proof {
                    assert(chain_move_result(f0, id, x, y, id2, x2, y2, rest, l, Err(BlockDSPError::CircularAction(id, id2)), self@));
                }
                return Err(BlockDSPError::CircularAction(id, id2));
            }
            proof {
                lemma_load_min(l, MAX_COORD as int);
                lemma_moved_facts(l, -load_min(l).0, -load_min(l).1, 2 * MAX_COORD, n as nat);
                lemma_disjoint_moved(l, -load_min(l).0, -load_min(l).1);
            }
            let (xo, yo) = chain.normalize_load_pos();
            let ghost l2 = chain@.load;
            let gx = xo - x + x2;
            let gy = yo - y + y2;
            let mx = if gx > 0 { gx } else { 0 };
            let my = if gy > 0 { gy } else { 0 };
            proof {
                let nl = load_moved(l, -load_min(l).0, -load_min(l).1);
                lemma_disjoint_perm(nl, l2);
                lemma_perm_within(nl, l2, 2 * MAX_COORD);
                lemma_perm_subs(nl, l2, n as nat);
                lemma_moved_facts(l2, mx as int, my as int, 4 * MAX_COORD, n as nat);
                lemma_disjoint_moved(l2, mx as int, my as int);
            }
            chain.move_by_offs(mx, my);
            let ghost m = chain@.load;
            if id2 >= self.areas.len() {
                proof {
                    assert(chain_move_result(f0, id, x, y, id2, x2, y2, rest, l, Err(BlockDSPError::UnknownArea(id)), self@));
                }
                return Err(BlockDSPError::UnknownArea(id));
            }
            proof {
                assert(self@.areas[id2 as int] == self.areas@[id2 as int]@);
            }
            let mut area2_clone = self.areas[id2].duplicate();
            let ghost base = area2_clone@.blocks;
            proof {
                assert(base == f0.areas[id2 as int].blocks);
                assert(load_pos_within(m, 8 * MAX_COORD));
            }
            if !chain.try_fit_load_into_space(&mut area2_clone) {
                proof {
                    assert(chain_move_result(f0, id, x, y, id2, x2, y2, rest, l, Err(BlockDSPError::NoSpaceAvailable(id, x2, y2, 1)), self@));
                }
                return Err(BlockDSPError::NoSpaceAvailable(id, x2, y2, 1));
            }
            let ghost k = first_fit(base, m, 21)->0;
            proof {
                assert(fit_offset_small(k));
                lemma_first_fit_space(base, m, 21);
                let o = fit_offsets()[k];
                lemma_moved_facts(m, o.0 as int, o.1 as int, 8 * MAX_COORD, n as nat);
                lemma_disjoint_moved(m, o.0 as int, o.1 as int);
                let fin = load_moved(m, o.0 as int, o.1 as int);
                assert forall|i: int| 0 <= i < fin.len() implies space_at(
                    base,
                    #[trigger] fin[i].1 as int,
                    fin[i].2 as int,
                    fin[i].0.rows as int,
                ) by {
                    assert(load_has_space(base, m, o.0 as int, o.1 as int));
                    assert(space_at(base, m[i].1 + o.0, m[i].2 + o.1, m[i].0.rows as int));
                }
                assert(blocks_wf(base));
                lemma_insert_all_wf(base, fin);
            }
            chain.place_load(&mut area2_clone);
            self.areas.set(id, area_clone);
            self.areas.set(id2, area2_clone);
            proof {
                let o = fit_offsets()[k];
                let fin = load_moved(m, o.0 as int, o.1 as int);
                assert(subs_below(base, n as nat));
                lemma_subs_insert_all(base, fin, n as nat);
                let f1 = FunSpec { areas: f0.areas.update(id as int, AreaSpec { blocks: rest, ..f0.areas[id as int] }), ..f0 };
                lemma_fun_wf_extend(f0, f1, id as int);
                assert(self@.areas =~= f1.areas.update(id2 as int, AreaSpec { blocks: insert_all(base, fin), ..f0.areas[id2 as int] }));
                lemma_fun_wf_extend(f1, self@, id2 as int);
            }
        }
        self.generation = self.generation + 1;
        proof {
            assert(chain_move_result(f0, id, x, y, id2, x2, y2, rest, l, Ok(()), self@));
        }
        Ok(())
    }
}


/// Two placed blocks share their origin or a cell.
pub open spec fn clash(p: PlacedSpec, q: PlacedSpec) -> bool {
    p.0 == q.0 && ((p.1 == q.1) || (p.2.rows > 0 && q.2.rows > 0 && p.1 < q.1 + q.2.rows && q.1 < p.1 + p.2.rows))
}

/// Blocks that clash break disjointness; blocks that never clash are disjoint.
proof fn lemma_clash_disjoint(v: Seq<(BlockSpec, i64, i64)>)
    ensures
        load_disjoint(v) <==> forall|a: int, b: int|
            0 <= a < v.len() && 0 <= b < v.len() && a != b ==> !clash(
                #[trigger] load_placed(v)[a],
                #[trigger] load_placed(v)[b],
            ),
{
    let lp = load_placed(v);
    if load_disjoint(v) {
        assert forall|a: int, b: int| 0 <= a < v.len() && 0 <= b < v.len() && a != b implies !clash(
            #[trigger] lp[a],
            #[trigger] lp[b],
        ) by {
            if clash(lp[a], lp[b]) && lp[a].1 != lp[b].1 {
                let y = if lp[a].1 < lp[b].1 { lp[b].1 as int } else { lp[a].1 as int };
                assert(covers(lp[a], lp[a].0 as int, y));
                assert(covers(lp[b], lp[a].0 as int, y));
            }
        }
    }
    if forall|a: int, b: int|
        0 <= a < v.len() && 0 <= b < v.len() && a != b ==> !clash(#[trigger] lp[a], #[trigger] lp[b]) {
        assert forall|a: int, b: int, c: int|
            0 <= a < lp.len() && 0 <= b < lp.len() && a != b && covers(lp[a], lp[a].0 as int, c) implies !covers(
            lp[b],
            lp[a].0 as int,
            c,
        ) by {
            assert(!clash(lp[a], lp[b]));
        }
    }
}

/// Placed blocks that never clash are well placed, and the other way round.
proof fn lemma_clash_placed(s: Seq<PlacedSpec>)
    ensures
        (origins_distinct(s) && no_overlap(s)) <==> forall|a: int, b: int|
            0 <= a < s.len() && 0 <= b < s.len() && a != b ==> !clash(#[trigger] s[a], #[trigger] s[b]),
{
    if origins_distinct(s) && no_overlap(s) {
        assert forall|a: int, b: int| 0 <= a < s.len() && 0 <= b < s.len() && a != b implies !clash(#[trigger] s[a], #[trigger] s[b]) by {
            if clash(s[a], s[b]) && s[a].1 != s[b].1 {
                let y = if s[a].1 < s[b].1 { s[b].1 as int } else { s[a].1 as int };
                assert(covers(s[a], s[a].0 as int, y));
                assert(covers(s[b], s[a].0 as int, y));
            }
        }
    }
    if forall|a: int, b: int| 0 <= a < s.len() && 0 <= b < s.len() && a != b ==> !clash(#[trigger] s[a], #[trigger] s[b]) {
        assert forall|a: int, b: int, c: int|
            0 <= a < s.len() && 0 <= b < s.len() && a != b && covers(s[a], s[a].0 as int, c) implies !covers(s[b], s[a].0 as int, c) by {
            assert(!clash(s[a], s[b]));
        }
    }
}

impl BlockArea {
    /// Whether the placed blocks are well formed and name only sub areas
    /// below `n`.
    fn blocks_ok(&self, n: usize) -> (r: bool)
        ensures
            r == (blocks_wf(self@.blocks) && subs_below(self@.blocks, n as nat)),
    {
        let ghost s = self@.blocks;
        proof {
            lemma_clash_placed(s);
        }
        let m = self.blocks.len();
        let mut i: usize = 0;
        while i < m
            invariant
                i <= m,
                m == s.len(),
                s == placed_view(self.blocks@),
                forall|a: int| 0 <= a < i ==> in_domain(#[trigger] s[a].0 as int, s[a].1 as int, s[a].2.rows as int),
                forall|a: int| #![trigger s[a]] 0 <= a < i ==> (s[a].2.contains.0 matches Some(c) ==> c < n) && (
                s[a].2.contains.1 matches Some(c) ==> c < n),
                forall|a: int, b: int| 0 <= a < i && 0 <= b < m && a != b ==> !clash(#[trigger] s[a], #[trigger] s[b]),
            decreases m - i,
        {
            let p = &self.blocks[i];
            proof {
                assert(s[i as int] == (p.0, p.1, p.2@));
            }
            let pr = p.2.rows as i128;
            if p.0 == i64::MIN || p.0 == i64::MAX || pr > i64::MAX as i128 || (p.1 as i128) + pr > i64::MAX as i128 + 1 {
                proof {
                    assert(!in_domain(s[i as int].0 as int, s[i as int].1 as int, s[i as int].2.rows as int));
                }
                return false;
            }
            match p.2.contains.0 {
                Some(c) => {
                    if c >= n {
                        proof {
                            assert(s[i as int].2.contains.0 == Some(c));
                        }
                        return false;
                    }
                },
                None => {},
            }
            match p.2.contains.1 {
                Some(c) => {
                    if c >= n {
                        proof {
                            assert(s[i as int].2.contains.1 == Some(c));
                        }
                        return false;
                    }
                },
                None => {},
            }
            let mut j: usize = 0;
            while j < m
                invariant
                    j <= m,
                    i < m,
                    m == s.len(),
                    s == placed_view(self.blocks@),
                    forall|a: int, b: int| 0 <= a < i && 0 <= b < m && a != b ==> !clash(#[trigger] s[a], #[trigger] s[b]),
                    forall|b: int| 0 <= b < j && b != i ==> !clash(s[i as int], #[trigger] s[b]),
                decreases m - j,
            {
                if j != i {
                    let p = &self.blocks[i];
                    let q = &self.blocks[j];
                    proof {
                        assert(s[i as int] == (p.0, p.1, p.2@));
                        assert(s[j as int] == (q.0, q.1, q.2@));
                    }
                    let pr = p.2.rows as i128;
                    let qr = q.2.rows as i128;
                    if p.0 == q.0 && (p.1 == q.1 || (pr > 0 && qr > 0 && (p.1 as i128) < (q.1 as i128) + qr && (q.1 as i128)
                        < (p.1 as i128) + pr)) {
                        proof {
                            assert(clash(s[i as int], s[j as int]));
                            lemma_clash_placed(s);
                        }
                        return false;
                    }
                }
                j += 1;
            }
            i += 1;
        }
        proof {
            assert(all_in_domain(s));
            lemma_clash_placed(s);
        }
        true
    }
}

impl BlockFunSnapshot {
    /// Whether the snapshot can be loaded: it has a main area, and the blocks
    /// of every area are well placed and name only areas of the snapshot.
    pub fn is_loadable(&self) -> (r: bool)
        ensures
            r == snap_wf(self@),
    {
        let n = self.areas.len();
        if n == 0 {
            return false;
        }
        let mut i: usize = 0;
        while i < n
            invariant
                i <= n,
                n == self@.areas.len(),
                forall|a: int| #![trigger self@.areas[a]] 0 <= a < i ==> blocks_wf(self@.areas[a].blocks) && subs_below(
                    self@.areas[a].blocks,
                    n as nat,
                ),
            decreases n - i,
        {
            proof {
                assert(self@.areas[i as int] == self.areas@[i as int]@);
            }
            if !self.areas[i].blocks_ok(n) {
                return false;
            }
            i += 1;
        }
        true
    }
}

/// The filler blocks of a type carry the type's sub area placeholders.
proof fn lemma_filler_subs(pos: Seq<(i64, i64)>, y: i64, t: TypeSpec, id: nat, n: nat)
    requires
        load_entry_subs((type_instance(t, 0, t.name), 0, 0), n),
    ensures
        load_subs_ok(filler_blocks(pos, y, t, id), n),
    decreases pos.len(),
{
    if pos.len() > 0 {
        lemma_filler_subs(pos.drop_last(), y, t, id, n);
        let prev = filler_blocks(pos.drop_last(), y, t, id);
        let fb = filler_blocks(pos, y, t, id);
        assert forall|i: int| 0 <= i < fb.len() implies load_entry_subs(#[trigger] fb[i], n) by {
            if i < prev.len() {
                assert(fb[i] == prev[i]);
            }
        }
    }
}

/// Shifting columns keeps the blocks and their sub areas.
proof fn lemma_split_shift_subs(v: Seq<(BlockSpec, i64, i64)>, x: int, n: nat)
    requires
        load_subs_ok(v, n),
    ensures
        load_subs_ok(load_split_shift(v, x), n),
{
    let w = load_split_shift(v, x);
    assert forall|i: int| 0 <= i < w.len() implies load_entry_subs(#[trigger] w[i], n) by {
        assert(w[i].0 == v[i].0);
        assert(load_entry_subs(v[i], n));
    }
}

/// The sub area bound holds for a concatenation of loads that have it.
proof fn lemma_concat_subs(a: Seq<(BlockSpec, i64, i64)>, b: Seq<(BlockSpec, i64, i64)>, n: nat)
    requires
        load_subs_ok(a, n),
        load_subs_ok(b, n),
    ensures
        load_subs_ok(a + b, n),
{
    let c = a + b;
    assert forall|i: int| 0 <= i < c.len() implies load_entry_subs(#[trigger] c[i], n) by {
        if i < a.len() {
            assert(c[i] == a[i]);
        } else {
            assert(c[i] == b[i - a.len()]);
        }
    }
}

/// A filler type can be placed in a program with `n` areas: its sub area
/// placeholders name existing areas.
pub open spec fn filler_fits(f: FunSpec, filler_type: Option<Seq<char>>) -> bool {
    match filler_type {
        Some(name) => match lang_type(f.lang, name) {
            Some(t) => load_entry_subs((type_instance(t, 0, t.name), 0, 0), f.areas.len()),
            None => true,
        },
        None => true,
    }
}

/// The outcome of splitting a chain whose loaded (sorted) blocks are `l`,
/// taken out of area `id` leaving `rest`, after column `x` at row `y`.
pub open spec fn chain_split_result(
    f: FunSpec,
    id: usize,
    x: i64,
    y: i64,
    filler: Option<TypeSpec>,
    rest: Seq<PlacedSpec>,
    l: Seq<(BlockSpec, i64, i64)>,
    r: Result<(), BlockDSPError>,
    g: FunSpec,
) -> bool {
    let fillers = split_fillers(l, x as int, y, filler, f.id as nat);
    let nid = id_after(f.id as nat, fillers.len());
    exists|l2: Seq<(BlockSpec, i64, i64)>|
        #![trigger load_sorted(l2)]
        l2.to_multiset() == (load_split_shift(l, x as int) + fillers).to_multiset() && load_sorted(l2) && if load_has_space(
            rest,
            l2,
            0,
            0,
        ) && load_disjoint(l2) {
            r is Ok && g == (FunSpec {
                areas: f.areas.update(id as int, AreaSpec { blocks: insert_all(rest, l2), ..f.areas[id as int] }),
                id: nid,
                generation: (f.generation + 1) as u64,
                ..f
            })
        } else {
            (r matches Err(BlockDSPError::NoSpaceAvailable(a, b, c, d)) && a == id && b == x && c == y && d == 0) && g
                == (FunSpec { id: nid, ..f })
        }
}

impl BlockChain {
    /// Whether no two loaded blocks share an origin or a cell.
    fn load_is_disjoint(&self) -> (r: bool)
        ensures
            r == load_disjoint(self@.load),
    {
        let ghost v = self@.load;
        let ghost lp = load_placed(v);
        proof {
            lemma_clash_disjoint(v);
        }
        let n = self.load.len();
        let mut i: usize = 0;
        while i < n
            invariant
                i <= n,
                n == v.len(),
                v == load_view(self.load@),
                lp == load_placed(v),
                forall|a: int, b: int| 0 <= a < i && 0 <= b < n && a != b ==> !clash(#[trigger] lp[a], #[trigger] lp[b]),
            decreases n - i,
        {
            let mut j: usize = 0;
            while j < n
                invariant
                    j <= n,
                    i < n,
                    n == v.len(),
                    v == load_view(self.load@),
                    lp == load_placed(v),
                    forall|a: int, b: int| 0 <= a < i && 0 <= b < n && a != b ==> !clash(#[trigger] lp[a], #[trigger] lp[b]),
                    forall|b: int| 0 <= b < j && b != i ==> !clash(lp[i as int], #[trigger] lp[b]),
                decreases n - j,
            {
                if j != i {
                    let p = &self.load[i];
                    let q = &self.load[j];
                    proof {
                        assert(lp[i as int] == (p.1, p.2, p.0@));
                        assert(lp[j as int] == (q.1, q.2, q.0@));
                    }
                    let pr = p.0.rows as i128;
                    let qr = q.0.rows as i128;
                    if p.1 == q.1 && (p.2 == q.2 || (pr > 0 && qr > 0 && (p.2 as i128) < (q.2 as i128) + qr && (q.2 as i128)
                        < (p.2 as i128) + pr)) {
                        proof {
                            assert(clash(lp[i as int], lp[j as int]));
                            lemma_clash_disjoint(v);
                        }
                        return false;
                    }
                }
                j += 1;
            }
            i += 1;
        }
        true
    }
}

impl BlockFun {
    /// Splits the chain at cell `(x, y)` of area `id` after column `x`: the
    /// blocks right of it move one column right, and with a filler type each
    /// input that an output in column `x` fed gets a filler block, but the one
    /// in row `y`.
    pub fn split_block_chain_after(&mut self, id: usize, x: i64, y: i64, filler_type: Option<&str>) -> (r: Result<
        (),
        BlockDSPError,
    >)
        requires
            old(self).wf(),
            old(self)@.generation < u64::MAX,
            filler_fits(
                old(self)@,
                match filler_type {
                    Some(t) => Some(t@),
                    None => None,
                },
            ),
        ensures
            final(self).wf(),
            id >= old(self)@.areas.len() ==> (r matches Err(BlockDSPError::UnknownArea(a)) && a == id) && final(self)@
                == old(self)@,
            id < old(self)@.areas.len() ==> match cell_index(old(self)@.areas[id as int].blocks, x as int, y as int) {
                None => (r matches Err(BlockDSPError::NoBlockAt(a, b, c)) && a == id && b == x && c == y) && final(self)@
                    == old(self)@,
                Some(a) => match filler_type {
                    Some(nm) if lang_type(old(self)@.lang, nm@) is None => (r matches Err(
                        BlockDSPError::UnknownLanguageType(t),
                    ) && t@ == nm@) && final(self)@ == old(self)@,
                    _ => {
                        let s = old(self)@.areas[id as int].blocks;
                        let filler = match filler_type {
                            Some(nm) => lang_type(old(self)@.lang, nm@),
                            None => None,
                        };
                        exists|c: ChainSpec, l: Seq<(BlockSpec, i64, i64)>|
                            #![trigger chain_of(s, a, c), load_sorted(l)]
                            chain_of(s, a, c) && l.to_multiset() == removal_steps(
                                s,
                                c.blocks,
                                c.blocks.len() as int,
                            ).1.to_multiset() && load_sorted(l) && chain_split_result(
                                old(self)@,
                                id,
                                x,
                                y,
                                filler,
                                removal_steps(s, c.blocks, c.blocks.len() as int).0,
                                l,
                                r,
                                final(self)@,
                            )
                    },
                },
            },
    {
        if id >= self.areas.len() {
            return Err(BlockDSPError::UnknownArea(id));
        }
        let ghost f0 = self@;
        let ghost s = f0.areas[id as int].blocks;
        let ghost n = f0.areas.len();
        proof {
            assert(self@.areas[id as int] == self.areas@[id as int]@);
            assert(blocks_wf(s) && subs_below(s, n as nat));
        }
        let mut area_clone = self.areas[id].duplicate();
        let mut chain = match area_clone.chain_at(x, y) {
            Some(c) => c,
            None => {
                return Err(BlockDSPError::NoBlockAt(id, x, y));
            },
        };
        let ghost c = chain@;
        proof {
            lemma_cell_in_domain(s, x as int, y as int);
        }
        chain.remove_load(&mut area_clone);
        let ghost rs = removal_steps(s, c.blocks, c.blocks.len() as int);
        let ghost l = chain@.load;
        let ghost rest = area_clone@.blocks;
        let ti: Option<usize> = match filler_type {
            Some(nm) => match self.language.find_type(nm) {
                Some(ti) => Some(ti),
                None => {
                    return Err(BlockDSPError::UnknownLanguageType(nm.to_string()));
                },
            },
            None => None,
        };
        let ghost filler = match filler_type {
            Some(nm) => lang_type(f0.lang, nm@),
            None => None,
        };
        proof {
            lemma_removal_wf(s, c.blocks, c.blocks.len() as int);
            lemma_removal_subs(s, c.blocks, c.blocks.len() as int, n as nat);
            lemma_wf_suffix(rs.0, rs.1);
            lemma_perm_in_domain(rs.1, l);
            lemma_perm_subs(rs.1, l, n as nat);
            assert(rest == rs.0);
            assert forall|i: int| #![trigger l[i]] 0 <= i < l.len() implies l[i].2 + l[i].0.rows <= i64::MAX + 1
                && l[i].0.rows <= i64::MAX && l[i].1 < i64::MAX by {
                assert(load_entry_in_domain(l[i]));
            }
            match ti {
                Some(k) => {
                    assert(f0.lang.types[k as int] == type_spec(self.language.types@[k as int]));
                },
                None => {},
            }
        }
        match ti {
            Some(k) => {
                chain.split_load_after_x(x, y, Some(&self.language.types[k]), &mut self.id_gen);
            },
            None => {
                chain.split_load_after_x(x, y, None, &mut self.id_gen);
            },
        }
        let ghost l2 = chain@.load;
        let ghost fillers = split_fillers(l, x as int, y, filler, f0.id as nat);
        proof {
            assert(self@.areas =~= f0.areas);
        }
        let space = chain.area_has_space_for_load(&mut area_clone, 0, 0);
        let disjoint = chain.load_is_disjoint();
        if !(space && disjoint) {
            proof {
                assert(chain_split_result(f0, id, x, y, filler, rest, l, Err(BlockDSPError::NoSpaceAvailable(id, x, y, 0)), self@));
            }
            return Err(BlockDSPError::NoSpaceAvailable(id, x, y, 0));
        }
        proof {
            assert forall|i: int| 0 <= i < l2.len() implies space_at(
                rest,
                #[trigger] l2[i].1 as int,
                l2[i].2 as int,
                l2[i].0.rows as int,
            ) by {
                assert(space_at(rest, l2[i].1 + 0, l2[i].2 + 0, l2[i].0.rows as int));
            }
            lemma_insert_all_wf(rest, l2);
            lemma_split_shift_subs(l, x as int, n as nat);
            match filler {
                Some(t) => {
                    lemma_filler_subs(
                        load_connected_inputs(l, x as int, load_outputs_at(l, x as int)),
                        y,
                        t,
                        f0.id as nat,
                        n as nat,
                    );
                },
                None => {
                    assert(fillers =~= Seq::<(BlockSpec, i64, i64)>::empty());
                },
            }
            lemma_concat_subs(load_split_shift(l, x as int), fillers, n as nat);
            lemma_perm_subs(load_split_shift(l, x as int) + fillers, l2, n as nat);
        }
        chain.place_load(&mut area_clone);
        self.generation = self.generation + 1;
        self.areas.set(id, area_clone);
        proof {
            lemma_subs_insert_all(rest, l2, n as nat);
            assert(self@.areas =~= f0.areas.update(id as int, AreaSpec { blocks: insert_all(rest, l2), ..f0.areas[id as int] }));
            lemma_fun_wf_extend(f0, self@, id as int);
            assert(chain_split_result(f0, id, x, y, filler, rest, l, Ok(()), self@));
        }
        Ok(())
    }
}


// ---------------------------------------------------------------------------
// Generating the syntax tree of a block function
// ---------------------------------------------------------------------------

/// A pending step of the tree generation.
enum GenJob {
    /// Attach `node` below `out`.
    Node { node: usize, out: usize },
    /// Attach what the output at cell `(x, y)` of an area computes below `out`,
    /// feeding its input `in_port`.
    Output { area_id: usize, x: i64, y: i64, in_port: String, out: usize },
    /// Attach the sink block at cell `(x, y)` of an area below `out`.
    Sink { area_id: usize, x: i64, y: i64, out: usize },
    /// Attach the tree of an area below `out`.
    Area { area_id: usize, out: usize },
}

/// The weight of a pending job: an area job stands for all its sinks.
spec fn job_weight(j: GenJob, c: nat) -> nat {
    match j {
        GenJob::Area { .. } => c,
        _ => 1,
    }
}

/// The total weight of the pending jobs.
spec fn stack_weight(js: Seq<GenJob>, c: nat) -> nat
    decreases js.len(),
{
    if js.len() == 0 {
        0
    } else {
        stack_weight(js.drop_last(), c) + job_weight(js.last(), c)
    }
}

/// The node a job attaches to and the area it reads, with its bounds.
spec fn job_ok(j: GenJob, nn: nat, na: nat) -> bool {
    match j {
        GenJob::Node { node, out } => node < nn && out < nn && out != 0,
        GenJob::Output { area_id, out, .. } => area_id < na && out < nn && out != 0,
        GenJob::Sink { area_id, out, .. } => area_id < na && out < nn && out != 0,
        GenJob::Area { area_id, out } => area_id < na && out < nn,
    }
}

/// The number of blocks without a tree node yet.
spec fn count_none(v: Seq<Option<usize>>) -> nat
    decreases v.len(),
{
    if v.len() == 0 {
        0
    } else {
        count_none(v.drop_last()) + if v.last() is None {
            1nat
        } else {
            0nat
        }
    }
}

/// The number of blocks of all areas without a tree node yet.
spec fn uninit(m: Seq<Seq<Option<usize>>>) -> nat
    decreases m.len(),
{
    if m.len() == 0 {
        0
    } else {
        uninit(m.drop_last()) + count_none(m.last())
    }
}

/// The number of sinks of an area.
pub open spec fn sink_count(a: AreaSpec) -> nat {
    sink_candidates(a.blocks, a.blocks.len() as int).len()
}

/// The largest number of sinks of the first `n` areas.
pub open spec fn max_sinks(areas: Seq<AreaSpec>, n: int) -> nat
    decreases n,
{
    if n <= 0 {
        0
    } else {
        let m = max_sinks(areas, n - 1);
        if m < sink_count(areas[n - 1]) {
            sink_count(areas[n - 1])
        } else {
            m
        }
    }
}

/// A tree node that marks the root, an area or a result.
pub open spec fn marker_node(n: NodeSpec) -> bool {
    &&& n.id == 0
    &&& n.lbl.len() == 0
    &&& (n.typ == "<r>"@ || n.typ == "<a>"@ || n.typ == "<res>"@)
}

/// A tree node of the type that fills unconnected inputs.
pub open spec fn null_node(n: NodeSpec, null_name: Seq<char>) -> bool {
    n.id == 0 && n.lbl.len() == 0 && n.typ == null_name
}

/// A tree node that stands for block `k` of area `a`.
pub open spec fn node_of_block(f: FunSpec, n: NodeSpec, a: int, k: int) -> bool {
    &&& 0 <= a < f.areas.len()
    &&& 0 <= k < f.areas[a].blocks.len()
    &&& n.id == f.areas[a].blocks[k].2.id
    &&& n.typ == f.areas[a].blocks[k].2.typ
    &&& n.lbl == f.areas[a].blocks[k].2.lbl
}

/// A tree node is a marker, a filler for an unconnected input, or stands for a block.
pub open spec fn node_kind_ok(f: FunSpec, n: NodeSpec, null_name: Seq<char>) -> bool {
    marker_node(n) || null_node(n, null_name) || exists|a: int, k: int| #[trigger] node_of_block(f, n, a, k)
}

/// The node `j` fed into an input from the cell `(x, y)` of area `a`, through
/// output `outp`: the node of the block there where that row of it has an
/// output, else a node of the null type.
pub open spec fn source_ok(
    f: FunSpec,
    g: Seq<NodeSpec>,
    mp: Seq<Seq<Option<usize>>>,
    nn: Seq<char>,
    a: int,
    x: int,
    y: int,
    outp: Seq<char>,
    j: usize,
) -> bool {
    let s = f.areas[a].blocks;
    match cell_index(s, x, y) {
        Some(k2) => {
            let b2 = s[k2];
            let r2 = y - b2.1;
            if has_port(b2.2.outputs, r2) {
                outp == b2.2.outputs[r2]->0 && mp[a][k2] == Some(j)
            } else {
                outp.len() == 0 && null_node(g[j as int], nn)
            }
        },
        None => outp.len() == 0 && null_node(g[j as int], nn),
    }
}

/// A child `e` of the node of block `k` of area `a`: the tree of one of its
/// sub areas, or what feeds one of its inputs from the cell left of that
/// input's row.
pub open spec fn block_child_ok(
    f: FunSpec,
    g: Seq<NodeSpec>,
    mp: Seq<Seq<Option<usize>>>,
    nn: Seq<char>,
    a: int,
    k: int,
    e: (Seq<char>, Seq<char>, usize),
) -> bool {
    let b = f.areas[a].blocks[k];
    ||| (e.0.len() == 0 && e.1.len() == 0 && marker_node(g[e.2 as int]) && g[e.2 as int].typ == "<a>"@)
    ||| exists|row: int|
        #![trigger has_port(b.2.inputs, row)]
        0 <= row < b.2.rows && has_port(b.2.inputs, row) && b.2.inputs[row]->0 == e.0 && source_ok(
            f,
            g,
            mp,
            nn,
            a,
            b.0 - 1,
            b.1 + row,
            e.1,
            e.2,
        )
}

/// `mp` assigns tree nodes to blocks: every assigned node stands for its
/// block and has only children that `block_child_ok` allows, no node stands
/// for two blocks, and every node is a marker, a null filler or assigned.
pub open spec fn block_nodes_ok(f: FunSpec, g: Seq<NodeSpec>, mp: Seq<Seq<Option<usize>>>, nn: Seq<char>) -> bool {
    &&& mp.len() == f.areas.len()
    &&& forall|a: int| #![trigger mp[a]] 0 <= a < mp.len() ==> mp[a].len() == f.areas[a].blocks.len()
    &&& forall|a: int, k: int|
        #![trigger mp[a][k]]
        0 <= a < mp.len() && 0 <= k < mp[a].len() && mp[a][k] is Some ==> {
            let v = mp[a][k]->0;
            &&& v < g.len()
            &&& node_of_block(f, g[v as int], a, k)
            &&& forall|c: int| 0 <= c < g[v as int].nodes.len() ==> block_child_ok(f, g, mp, nn, a, k, #[trigger] g[v as int].nodes[c])
        }
    &&& forall|a: int, k: int, a2: int, k2: int|
        #![trigger mp[a][k], mp[a2][k2]]
        0 <= a < mp.len() && 0 <= k < mp[a].len() && 0 <= a2 < mp.len() && 0 <= k2 < mp[a2].len() && mp[a][k] is Some
            && mp[a][k] == mp[a2][k2] ==> a == a2 && k == k2
    &&& forall|i: int|
        0 <= i < g.len() ==> marker_node(#[trigger] g[i]) || null_node(g[i], nn) || exists|a: int, k: int|
            0 <= a < mp.len() && 0 <= k < mp[a].len() && #[trigger] mp[a][k] == Some(i as usize)
}

/// Row `r` of block `k` of area `a` holds an input port.
pub open spec fn is_input_row(f: FunSpec, a: int, k: int, r: int) -> bool {
    let b = f.areas[a].blocks[k];
    0 <= r < b.2.rows && has_port(b.2.inputs, r)
}

/// The child `e` feeds the input at row `r` of block `k` of area `a`, from
/// the cell left of that row.
pub open spec fn input_child(
    f: FunSpec,
    g: Seq<NodeSpec>,
    mp: Seq<Seq<Option<usize>>>,
    nn: Seq<char>,
    a: int,
    k: int,
    r: int,
    e: (Seq<char>, Seq<char>, usize),
) -> bool {
    let b = f.areas[a].blocks[k];
    &&& is_input_row(f, a, k, r)
    &&& b.2.inputs[r]->0 == e.0
    &&& source_ok(f, g, mp, nn, a, b.0 - 1, b.1 + r, e.1, e.2)
}

/// Every input of every block with a tree node is fed by a child of that
/// node.
pub open spec fn inputs_fed(f: FunSpec, g: Seq<NodeSpec>, mp: Seq<Seq<Option<usize>>>, nn: Seq<char>) -> bool {
    forall|a: int, k: int, r: int|
        #![trigger mp[a][k], is_input_row(f, a, k, r)]
        0 <= a < mp.len() && 0 <= k < mp[a].len() && mp[a][k] is Some && is_input_row(f, a, k, r) ==> exists|c: int|
            0 <= c < g[mp[a][k]->0 as int].nodes.len() && #[trigger] input_child(
                f,
                g,
                mp,
                nn,
                a,
                k,
                r,
                g[mp[a][k]->0 as int].nodes[c],
            )
}

/// Node `v` has the child `e`.
pub open spec fn has_child(g: Seq<NodeSpec>, v: int, e: (Seq<char>, Seq<char>, usize)) -> bool {
    exists|c: int| 0 <= c < g[v].nodes.len() && #[trigger] g[v].nodes[c] == e
}

/// Result node `r` has a child, fed into no named input, that computes the
/// output at cell `(x, y)` of area `a`.
pub open spec fn res_fed(
    f: FunSpec,
    g: Seq<NodeSpec>,
    mp: Seq<Seq<Option<usize>>>,
    nn: Seq<char>,
    a: int,
    x: int,
    y: int,
    r: usize,
) -> bool {
    exists|d: int|
        0 <= d < g[r as int].nodes.len() && (#[trigger] g[r as int].nodes[d]).0.len() == 0 && source_ok(
            f,
            g,
            mp,
            nn,
            a,
            x,
            y,
            g[r as int].nodes[d].1,
            g[r as int].nodes[d].2,
        )
}

/// Sink `sk` of area `a` hangs below area node `v`: a block without outputs
/// as its node; an unconnected output through the result node `r`, whose
/// child computes that output.
pub open spec fn sink_done(
    f: FunSpec,
    g: Seq<NodeSpec>,
    mp: Seq<Seq<Option<usize>>>,
    nn: Seq<char>,
    a: int,
    v: int,
    sk: (i64, i64, Option<usize>),
    r: usize,
) -> bool {
    match sk.2 {
        None => match cell_index(f.areas[a].blocks, sk.0 as int, sk.1 as int) {
            Some(k) => mp[a][k] is Some && has_child(g, v, (Seq::empty(), Seq::empty(), mp[a][k]->0)),
            None => true,
        },
        Some(_) => r < g.len() && marker_node(g[r as int]) && g[r as int].typ == "<res>"@ && has_child(
            g,
            v,
            (Seq::empty(), Seq::empty(), r),
        ) && res_fed(f, g, mp, nn, a, sk.0 as int, sk.1 as int, r),
    }
}

/// The area nodes `am` stand each for an area with its sinks in order and a
/// result node for each unconnected output: every sink of the area hangs
/// below the area node.
pub open spec fn areas_ok(
    f: FunSpec,
    g: Seq<NodeSpec>,
    mp: Seq<Seq<Option<usize>>>,
    nn: Seq<char>,
    am: Map<usize, (usize, Seq<(i64, i64, Option<usize>)>, Seq<usize>)>,
) -> bool {
    forall|v: usize|
        #[trigger] am.contains_key(v) ==> {
            let (a, sk, rs) = am[v];
            &&& v < g.len()
            &&& marker_node(g[v as int])
            &&& g[v as int].typ == "<a>"@
            &&& a < f.areas.len()
            &&& sk.to_multiset() == sink_candidates(f.areas[a as int].blocks, f.areas[a as int].blocks.len() as int).to_multiset()
            &&& sinks_sorted(sk)
            &&& rs.len() == sk.len()
            &&& forall|t: int| 0 <= t < sk.len() ==> #[trigger] sink_done(f, g, mp, nn, a as int, v as int, sk[t], rs[t])
        }
}

/// Below node `v` hangs an area node that stands for area `c`.
pub open spec fn sub_done(
    g: Seq<NodeSpec>,
    am: Map<usize, (usize, Seq<(i64, i64, Option<usize>)>, Seq<usize>)>,
    v: usize,
    c: usize,
) -> bool {
    exists|w: usize| am.contains_key(w) && am[w].0 == c && #[trigger] has_child(g, v as int, (Seq::empty(), Seq::empty(), w))
}

/// Every block with a tree node has the area nodes of its sub areas below
/// that node.
pub open spec fn subs_ok(
    f: FunSpec,
    g: Seq<NodeSpec>,
    mp: Seq<Seq<Option<usize>>>,
    am: Map<usize, (usize, Seq<(i64, i64, Option<usize>)>, Seq<usize>)>,
) -> bool {
    forall|a: int, k: int|
        #![trigger mp[a][k]]
        0 <= a < mp.len() && 0 <= k < mp[a].len() && mp[a][k] is Some ==> {
            let cs = f.areas[a].blocks[k].2.contains;
            &&& (cs.0 matches Some(c) ==> sub_done(g, am, mp[a][k]->0, c))
            &&& (cs.1 matches Some(c) ==> sub_done(g, am, mp[a][k]->0, c))
        }
}

/// What a child of a tree node stands for.
pub ghost enum Slot {
    /// What feeds the input `port` from cell `(x, y)` of area `a`.
    Input { a: usize, x: int, y: int, port: Seq<char> },
    /// The area node of area `c`.
    Sub { c: usize },
    /// The node of the block at cell `(x, y)` of area `a`.
    SinkBlock { a: usize, x: int, y: int },
    /// The result node `r`.
    Res { r: usize },
}

/// The child `e` is what the slot `s` asks for.
pub open spec fn child_fits(
    f: FunSpec,
    g: Seq<NodeSpec>,
    mp: Seq<Seq<Option<usize>>>,
    nn: Seq<char>,
    am: Map<usize, (usize, Seq<(i64, i64, Option<usize>)>, Seq<usize>)>,
    s: Slot,
    e: (Seq<char>, Seq<char>, usize),
) -> bool {
    match s {
        Slot::Input { a, x, y, port } => a < f.areas.len() && e.0 == port && source_ok(f, g, mp, nn, a as int, x, y, e.1, e.2),
        Slot::Sub { c } => e.0.len() == 0 && e.1.len() == 0 && am.contains_key(e.2) && am[e.2].0 == c,
        Slot::SinkBlock { a, x, y } => a < f.areas.len() && e.0.len() == 0 && e.1.len() == 0 && match cell_index(f.areas[a as int].blocks, x, y) {
            Some(k) => mp[a as int][k] == Some(e.2),
            None => false,
        },
        Slot::Res { r } => e == (Seq::<char>::empty(), Seq::<char>::empty(), r),
    }
}

/// The children of the node of block `k` of area `a`, in order: what feeds
/// each input, in row order, then the area nodes of its first and second
/// sub area.
pub open spec fn block_slots(f: FunSpec, a: usize, k: int) -> Seq<Slot> {
    let b = f.areas[a as int].blocks[k];
    let pl = port_list(b.2.inputs, b.2.rows);
    Seq::new(pl.len(), |i: int| Slot::Input { a, x: b.0 - 1, y: b.1 + pl[i].0, port: pl[i].1 }) + contains_queue(
        b.2.contains,
    ).map_values(|c: usize| Slot::Sub { c })
}

/// The children of an area node of area `a` with sinks `sk` and result
/// nodes `rs`, for the first `n` sinks: one for each, the last sink first;
/// none for a sink whose cell holds no block.
pub open spec fn area_slots(
    f: FunSpec,
    a: usize,
    sk: Seq<(i64, i64, Option<usize>)>,
    rs: Seq<usize>,
    n: int,
) -> Seq<Slot>
    decreases n,
{
    if n <= 0 {
        Seq::empty()
    } else {
        let t = n - 1;
        let rest = area_slots(f, a, sk, rs, t);
        match sk[t].2 {
            Some(_) => seq![Slot::Res { r: rs[t] }] + rest,
            None => if cell_index(f.areas[a as int].blocks, sk[t].0 as int, sk[t].1 as int) is Some {
                seq![Slot::SinkBlock { a, x: sk[t].0 as int, y: sk[t].1 as int }] + rest
            } else {
                rest
            },
        }
    }
}

/// The children of every node are exactly those that `sl` lists for it, in
/// order: one area node below the root, the slots of a block below its
/// node, those of an area below its area node, and below a result node what
/// its output computes.
pub open spec fn shape_with(
    f: FunSpec,
    g: Seq<NodeSpec>,
    mp: Seq<Seq<Option<usize>>>,
    nn: Seq<char>,
    am: Map<usize, (usize, Seq<(i64, i64, Option<usize>)>, Seq<usize>)>,
    sl: Map<usize, Seq<Slot>>,
) -> bool {
    &&& slot_keys(f, mp, am, sl)
    &&& forall|v: usize|
        #[trigger] sl.contains_key(v) ==> v < g.len() && g[v as int].nodes.len() == sl[v].len() && forall|i: int|
            0 <= i < sl[v].len() ==> #[trigger] child_fits(f, g, mp, nn, am, sl[v][i], g[v as int].nodes[i])
}

/// The slots `sl` list for the root its main area, for each block node the
/// slots of its block, for each area node those of its area and for each
/// result node the output it computes.
pub open spec fn slot_keys(
    f: FunSpec,
    mp: Seq<Seq<Option<usize>>>,
    am: Map<usize, (usize, Seq<(i64, i64, Option<usize>)>, Seq<usize>)>,
    sl: Map<usize, Seq<Slot>>,
) -> bool {
    &&& sl.contains_key(0) && sl[0] == seq![Slot::Sub { c: 0 }]
    &&& forall|a: int, k: int|
        #![trigger mp[a][k]]
        0 <= a < mp.len() && 0 <= k < mp[a].len() && mp[a][k] is Some ==> sl.contains_key(mp[a][k]->0) && sl[mp[a][k]->0]
            == block_slots(f, a as usize, k)
    &&& forall|w: usize|
        #[trigger] am.contains_key(w) ==> sl.contains_key(w) && sl[w] == area_slots(f, am[w].0, am[w].1, am[w].2, am[w].1.len() as int)
    &&& forall|w: usize, t: int|
        #![trigger am[w].1[t]]
        am.contains_key(w) && 0 <= t < am[w].1.len() && am[w].1[t].2 is Some ==> sl.contains_key(am[w].2[t]) && sl[am[w].2[t]]
            == seq![Slot::Input { a: am[w].0, x: am[w].1[t].0 as int, y: am[w].1[t].1 as int, port: Seq::empty() }]
}

/// The first child of the root is the area node of the main area.
pub open spec fn root_area(g: Seq<NodeSpec>, am: Map<usize, (usize, Seq<(i64, i64, Option<usize>)>, Seq<usize>)>) -> bool {
    g.len() >= 1 && g[0].nodes.len() >= 1 ==> am.contains_key(g[0].nodes[0].2) && am[g[0].nodes[0].2].0 == 0
}

/// The nodes of a generated tree stand for what they compute: there are an
/// assignment `mp` of nodes to blocks and a map `am` of area nodes to areas
/// under which every block node has the children it needs, every input is
/// fed, every area node holds the sinks of its area, and the root holds the
/// main area, and every block node holds the area nodes of its sub areas;
/// and slots `sl` under which every node has exactly the children its slots
/// list, in their order.
pub open spec fn tree_nodes_ok(f: FunSpec, g: Seq<NodeSpec>, nn: Seq<char>) -> bool {
    exists|
        mp: Seq<Seq<Option<usize>>>,
        am: Map<usize, (usize, Seq<(i64, i64, Option<usize>)>, Seq<usize>)>,
        sl: Map<usize, Seq<Slot>>,
    |
        #[trigger] shape_with(f, g, mp, nn, am, sl) && areas_ok(f, g, mp, nn, am) && block_nodes_ok(f, g, mp, nn) && inputs_fed(
            f,
            g,
            mp,
            nn,
        ) && root_area(g, am) && subs_ok(f, g, mp, am)
}

/// Sinks with no job left waiting hang below their area nodes.
proof fn lemma_areas_done(
    f: FunSpec,
    g: Seq<NodeSpec>,
    m: Seq<Seq<Option<usize>>>,
    nn: Seq<char>,
    am: Map<usize, (usize, Seq<(i64, i64, Option<usize>)>, Seq<usize>)>,
)
    requires
        areas_pending(f, g, m, Seq::empty(), nn, am),
    ensures
        areas_ok(f, g, m, nn, am),
{
    assert forall|v: usize| #[trigger] am.contains_key(v) implies {
        let (a, sk, rs) = am[v];
        forall|t: int| 0 <= t < sk.len() ==> #[trigger] sink_done(f, g, m, nn, a as int, v as int, sk[t], rs[t])
    } by {
        let (a, sk, rs) = am[v];
        assert(entry_upto(f, g, m, Seq::empty(), nn, v, am[v], am[v].1.len() as int));
        assert forall|t: int| 0 <= t < sk.len() implies #[trigger] sink_done(f, g, m, nn, a as int, v as int, sk[t], rs[t]) by {
            assert(sink_pending(f, g, m, Seq::empty(), nn, a, v, sk[t], rs[t]));
        }
    }
}

/// A generated tree: the root `<r>` with the tree of the main area as its
/// only child, every node a marker, a filler of the null type or a block of
/// the program.
pub open spec fn tree_ok(f: FunSpec, g: Seq<NodeSpec>, idx: usize, null_name: Seq<char>) -> bool {
    &&& graph_wf(g)
    &&& idx == 0
    &&& g.len() >= 1
    &&& g[0].typ == "<r>"@
    &&& g[0].id == 0
    &&& g[0].nodes.len() == 1
    &&& g[0].nodes[0].2 < g.len()
    &&& g[g[0].nodes[0].2 as int].typ == "<a>"@
    &&& forall|i: int| 0 <= i < g.len() ==> #[trigger] node_kind_ok(f, g[i], null_name)
}

proof fn lemma_max_sinks(areas: Seq<AreaSpec>, n: int, a: int)
    requires
        0 <= a < n,
    ensures
        sink_count(areas[a]) <= max_sinks(areas, n),
    decreases n,
{
    if a < n - 1 {
        lemma_max_sinks(areas, n - 1, a);
    }
}

proof fn lemma_count_none_set(v: Seq<Option<usize>>, k: int, x: usize)
    requires
        0 <= k < v.len(),
        v[k] is None,
    ensures
        count_none(v.update(k, Some(x))) + 1 == count_none(v),
    decreases v.len(),
{
    let w = v.update(k, Some(x));
    if k < v.len() - 1 {
        assert(w.drop_last() =~= v.drop_last().update(k, Some(x)));
        lemma_count_none_set(v.drop_last(), k, x);
    } else {
        assert(w.drop_last() =~= v.drop_last());
    }
}

proof fn lemma_uninit_set(m: Seq<Seq<Option<usize>>>, a: int, k: int, x: usize)
    requires
        0 <= a < m.len(),
        0 <= k < m[a].len(),
        m[a][k] is None,
    ensures
        uninit(m.update(a, m[a].update(k, Some(x)))) + 1 == uninit(m),
    decreases m.len(),
{
    let w = m.update(a, m[a].update(k, Some(x)));
    if a < m.len() - 1 {
        assert(w.drop_last() =~= m.drop_last().update(a, m[a].update(k, Some(x))));
        lemma_uninit_set(m.drop_last(), a, k, x);
    } else {
        assert(w.drop_last() =~= m.drop_last());
        lemma_count_none_set(m[a], k, x);
    }
}

proof fn lemma_stack_push(js: Seq<GenJob>, j: GenJob, c: nat)
    ensures
        stack_weight(js.push(j), c) == stack_weight(js, c) + job_weight(j, c),
{
    assert(js.push(j).drop_last() =~= js);
}

/// Adds a node to the tree and returns its index.
fn push_node(nodes: &mut Vec<JASTNode>, id: usize, typ: String, lbl: String) -> (r: usize)
    requires
        graph_wf(graph_view(old(nodes)@)),
    ensures
        r == old(nodes)@.len(),
        graph_view(final(nodes)@) == graph_view(old(nodes)@).push(
            NodeSpec { id, typ: typ@, lbl: lbl@, nodes: Seq::empty() },
        ),
        graph_wf(graph_view(final(nodes)@)),
{
    let r = nodes.len();
    let ghost g0 = graph_view(nodes@);
    let n = JASTNode { id, typ, lbl, nodes: Vec::new() };
    nodes.push(n);
    proof {
        assert(children_view(Seq::<(String, String, usize)>::empty()) =~= Seq::empty());
        assert(graph_view(nodes@) =~= g0.push(NodeSpec { id, typ: typ@, lbl: lbl@, nodes: Seq::empty() }));
        let g = graph_view(nodes@);
        assert forall|i: int, k: int| #![trigger g[i].nodes[k]] 0 <= i < g.len() && 0 <= k < g[i].nodes.len() implies g[i].nodes[k].2
            < g.len() by {
            if i < g0.len() {
                assert(g[i] == g0[i]);
            }
        }
    }
    r
}

/// Adds `child` below node `out`, feeding input `inp` from output `outp`.
fn add_child(nodes: &mut Vec<JASTNode>, out: usize, inp: String, outp: String, child: usize)
    requires
        graph_wf(graph_view(old(nodes)@)),
        out < old(nodes)@.len(),
        child < old(nodes)@.len(),
    ensures
        graph_view(final(nodes)@) == graph_view(old(nodes)@).update(
            out as int,
            NodeSpec {
                nodes: graph_view(old(nodes)@)[out as int].nodes.push((inp@, outp@, child)),
                ..graph_view(old(nodes)@)[out as int]
            },
        ),
        graph_wf(graph_view(final(nodes)@)),
{
    let ghost g0 = graph_view(nodes@);
    let mut nd = nodes.remove(out);
    let ghost c0 = nd.nodes@;
    nd.nodes.push((inp, outp, child));
    nodes.insert(out, nd);
    proof {
        assert(children_view(nd.nodes@) =~= children_view(c0).push((inp@, outp@, child)));
        let want = g0.update(out as int, NodeSpec { nodes: g0[out as int].nodes.push((inp@, outp@, child)), ..g0[out as int] });
        assert(graph_view(nodes@) =~= want);
        let g = graph_view(nodes@);
        assert forall|i: int, k: int| #![trigger g[i].nodes[k]] 0 <= i < g.len() && 0 <= k < g[i].nodes.len() implies g[i].nodes[k].2
            < g.len() by {
            if i != out {
                assert(g[i] == g0[i]);
            } else if k < g0[i].nodes.len() {
                assert(g[i].nodes[k] == g0[i].nodes[k]);
            }
        }
    }
}


/// The node a job attaches below.
spec fn job_out(j: GenJob) -> usize {
    match j {
        GenJob::Node { out, .. } => out,
        GenJob::Output { out, .. } => out,
        GenJob::Sink { out, .. } => out,
        GenJob::Area { out, .. } => out,
    }
}

/// The model of the memo of block nodes.
spec fn memo_view(m: Seq<Vec<Option<usize>>>) -> Seq<Seq<Option<usize>>> {
    m.map_values(|v: Vec<Option<usize>>| v@)
}

/// The root has the main area's `<a>` node as its child and no job attaches
/// below it any more.
spec fn root_done(g: Seq<NodeSpec>, js: Seq<GenJob>) -> bool {
    &&& g.len() >= 1
    &&& g[0].nodes.len() == 1
    &&& g[0].nodes[0].2 < g.len()
    &&& g[g[0].nodes[0].2 as int].typ == "<a>"@
    &&& forall|q: int| 0 <= q < js.len() ==> #[trigger] job_out(js[q]) != 0
}

/// What holds between the steps of the tree generation.
spec fn gen_inv(f: FunSpec, g: Seq<NodeSpec>, m: Seq<Seq<Option<usize>>>, js: Seq<GenJob>, nn: Seq<char>) -> bool {
    &&& gen_body(f, g, m, js, nn)
    &&& ((g[0].nodes.len() == 0 && js.len() == 1 && js[0] == (GenJob::Area { area_id: 0, out: 0 })) || root_done(g, js))
}

/// The bounds and node kinds that hold between the steps of the tree generation.
spec fn gen_body(f: FunSpec, g: Seq<NodeSpec>, m: Seq<Seq<Option<usize>>>, js: Seq<GenJob>, nn: Seq<char>) -> bool {
    &&& graph_wf(g)
    &&& g.len() >= 1
    &&& g[0].typ == "<r>"@
    &&& g[0].id == 0
    &&& m.len() == f.areas.len()
    &&& forall|a: int| #![trigger m[a]] 0 <= a < m.len() ==> m[a].len() == f.areas[a].blocks.len()
    &&& forall|a: int, k: int| #![trigger m[a][k]] 0 <= a < m.len() && 0 <= k < m[a].len() ==> (m[a][k] matches Some(
        v,
    ) ==> 0 < v < g.len())
    &&& forall|q: int| 0 <= q < js.len() ==> #[trigger] job_ok(js[q], g.len(), f.areas.len())
    &&& forall|i: int| 0 <= i < g.len() ==> #[trigger] node_kind_ok(f, g[i], nn)
}

/// Adding a node keeps node and job bounds and the node kinds.
proof fn lemma_gen_push_node(
    f: FunSpec,
    g: Seq<NodeSpec>,
    m: Seq<Seq<Option<usize>>>,
    js: Seq<GenJob>,
    nn: Seq<char>,
    n: NodeSpec,
)
    requires
        gen_body(f, g, m, js, nn),
        node_kind_ok(f, n, nn),
        n.nodes.len() == 0,
    ensures
        gen_body(f, g.push(n), m, js, nn),
        g.push(n)[0] == g[0],
        root_done(g, js) ==> root_done(g.push(n), js),
{
    let g2 = g.push(n);
    assert(g2[0] == g[0]);
    if root_done(g, js) {
        assert(g2[g[0].nodes[0].2 as int] == g[g[0].nodes[0].2 as int]);
    }
    assert forall|i: int, k: int| #![trigger g2[i].nodes[k]] 0 <= i < g2.len() && 0 <= k < g2[i].nodes.len() implies g2[i].nodes[k].2
        < g2.len() by {
        assert(g2[i] == g[i]);
    }
    assert forall|q: int| 0 <= q < js.len() implies #[trigger] job_ok(js[q], g2.len(), f.areas.len()) by {
        assert(job_ok(js[q], g.len(), f.areas.len()));
    }
    assert forall|i: int| 0 <= i < g2.len() implies #[trigger] node_kind_ok(f, g2[i], nn) by {
        if i < g.len() {
            assert(g2[i] == g[i]);
        }
    }
    assert forall|a: int, k: int| #![trigger m[a][k]] 0 <= a < m.len() && 0 <= k < m[a].len() implies (m[a][k] matches Some(
        v,
    ) ==> 0 < v < g2.len()) by {}
}

/// Queueing a job that attaches below a non-root node keeps the invariant.
proof fn lemma_gen_push_job(f: FunSpec, g: Seq<NodeSpec>, m: Seq<Seq<Option<usize>>>, js: Seq<GenJob>, nn: Seq<char>, j: GenJob)
    requires
        gen_body(f, g, m, js, nn),
        root_done(g, js),
        job_ok(j, g.len(), f.areas.len()),
        job_out(j) != 0,
    ensures
        gen_body(f, g, m, js.push(j), nn),
        root_done(g, js.push(j)),
{
    let js2 = js.push(j);
    assert forall|q: int| 0 <= q < js2.len() implies #[trigger] job_ok(js2[q], g.len(), f.areas.len()) by {
        if q < js.len() {
            assert(js2[q] == js[q]);
        }
    }
    assert forall|q: int| 0 <= q < js2.len() implies #[trigger] job_out(js2[q]) != 0 by {
        if q < js.len() {
            assert(js2[q] == js[q]);
        }
    }
}

/// No block has `v` as its tree node.
spec fn not_memo(m: Seq<Seq<Option<usize>>>, v: usize) -> bool {
    forall|a: int, k: int| 0 <= a < m.len() && 0 <= k < m[a].len() ==> #[trigger] m[a][k] != Some(v)
}

/// `(x, y)` is the cell left of an input of block `k` of area `a` whose label
/// is `inp`.
spec fn input_at(f: FunSpec, a: int, k: int, x: i64, y: i64, inp: Seq<char>) -> bool {
    let b = f.areas[a].blocks[k];
    exists|row: int|
        #![trigger has_port(b.2.inputs, row)]
        0 <= row < b.2.rows && has_port(b.2.inputs, row) && b.2.inputs[row]->0 == inp && x == b.0 - 1 && y == b.1 + row
}

/// A pending job attaches only children that the node below which it
/// attaches may have.
spec fn job_edge_ok(f: FunSpec, m: Seq<Seq<Option<usize>>>, j: GenJob) -> bool {
    match j {
        GenJob::Node { out, .. } => not_memo(m, out),
        GenJob::Sink { out, .. } => not_memo(m, out),
        GenJob::Output { area_id, x, y, in_port, out } => not_memo(m, out) || exists|k: int|
            0 <= k < m[area_id as int].len() && #[trigger] m[area_id as int][k] == Some(out) && input_at(
                f,
                area_id as int,
                k,
                x,
                y,
                in_port@,
            ),
        GenJob::Area { .. } => true,
    }
}

/// The block nodes made so far have the right children, and so will the
/// pending jobs give them.
spec fn gen_edges(f: FunSpec, g: Seq<NodeSpec>, m: Seq<Seq<Option<usize>>>, js: Seq<GenJob>, nn: Seq<char>) -> bool {
    &&& block_nodes_ok(f, g, m, nn)
    &&& forall|q: int| 0 <= q < js.len() ==> #[trigger] job_edge_ok(f, m, js[q])
}

/// A child's kind and its source stay where node kinds stay.
proof fn lemma_child_ok_kinds(
    f: FunSpec,
    g: Seq<NodeSpec>,
    g2: Seq<NodeSpec>,
    m: Seq<Seq<Option<usize>>>,
    nn: Seq<char>,
    a: int,
    k: int,
    e: (Seq<char>, Seq<char>, usize),
)
    requires
        block_child_ok(f, g, m, nn, a, k, e),
        e.2 < g.len(),
        g.len() <= g2.len(),
        g2[e.2 as int].id == g[e.2 as int].id,
        g2[e.2 as int].typ == g[e.2 as int].typ,
        g2[e.2 as int].lbl == g[e.2 as int].lbl,
    ensures
        block_child_ok(f, g2, m, nn, a, k, e),
{
    let b = f.areas[a].blocks[k];
    if e.0.len() == 0 && e.1.len() == 0 && marker_node(g[e.2 as int]) && g[e.2 as int].typ == "<a>"@ {
    } else {
        let row = choose|row: int|
            #![trigger has_port(b.2.inputs, row)]
            0 <= row < b.2.rows && has_port(b.2.inputs, row) && b.2.inputs[row]->0 == e.0 && source_ok(
                f,
                g,
                m,
                nn,
                a,
                b.0 - 1,
                b.1 + row,
                e.1,
                e.2,
            );
        assert(source_ok(f, g2, m, nn, a, b.0 - 1, b.1 + row, e.1, e.2));
    }
}

/// Adding a marker or null node keeps the edges.
proof fn lemma_edges_push_node(
    f: FunSpec,
    g: Seq<NodeSpec>,
    m: Seq<Seq<Option<usize>>>,
    js: Seq<GenJob>,
    nn: Seq<char>,
    n: NodeSpec,
)
    requires
        gen_edges(f, g, m, js, nn),
        graph_wf(g),
        marker_node(n) || null_node(n, nn),
    ensures
        gen_edges(f, g.push(n), m, js, nn),
{
    let g2 = g.push(n);
    assert forall|a: int, k: int|
        #![trigger m[a][k]]
        0 <= a < m.len() && 0 <= k < m[a].len() && m[a][k] is Some implies {
            let v = m[a][k]->0;
            &&& v < g2.len()
            &&& node_of_block(f, g2[v as int], a, k)
            &&& forall|c: int| 0 <= c < g2[v as int].nodes.len() ==> block_child_ok(f, g2, m, nn, a, k, #[trigger] g2[v as int].nodes[c])
        } by {
        let v = m[a][k]->0;
        assert(g2[v as int] == g[v as int]);
        assert forall|c: int| 0 <= c < g2[v as int].nodes.len() implies block_child_ok(f, g2, m, nn, a, k, #[trigger] g2[v as int].nodes[c]) by {
            let e = g[v as int].nodes[c];
            assert(block_child_ok(f, g, m, nn, a, k, e));
            assert(e.2 < g.len());
            assert(g2[e.2 as int] == g[e.2 as int]);
            lemma_child_ok_kinds(f, g, g2, m, nn, a, k, e);
        }
    }
    assert forall|i: int|
        0 <= i < g2.len() implies marker_node(#[trigger] g2[i]) || null_node(g2[i], nn) || exists|a: int, k: int|
            0 <= a < m.len() && 0 <= k < m[a].len() && #[trigger] m[a][k] == Some(i as usize) by {
        if i < g.len() {
            assert(g2[i] == g[i]);
        }
    }
}

/// Queueing a job that attaches the right children keeps the edges.
proof fn lemma_edges_push_job(f: FunSpec, g: Seq<NodeSpec>, m: Seq<Seq<Option<usize>>>, js: Seq<GenJob>, nn: Seq<char>, j: GenJob)
    requires
        gen_edges(f, g, m, js, nn),
        job_edge_ok(f, m, j),
    ensures
        gen_edges(f, g, m, js.push(j), nn),
{
    let js2 = js.push(j);
    assert forall|q: int| 0 <= q < js2.len() implies #[trigger] job_edge_ok(f, m, js2[q]) by {
        if q < js.len() {
            assert(js2[q] == js[q]);
        }
    }
}

/// Attaching a child that the node may have keeps the edges.
proof fn lemma_edges_child(
    f: FunSpec,
    g: Seq<NodeSpec>,
    m: Seq<Seq<Option<usize>>>,
    js: Seq<GenJob>,
    nn: Seq<char>,
    out: usize,
    e: (Seq<char>, Seq<char>, usize),
)
    requires
        gen_edges(f, g, m, js, nn),
        graph_wf(g),
        out < g.len(),
        e.2 < g.len(),
        not_memo(m, out) || exists|a: int, k: int|
            0 <= a < m.len() && 0 <= k < m[a].len() && #[trigger] m[a][k] == Some(out) && block_child_ok(
                f,
                g,
                m,
                nn,
                a,
                k,
                e,
            ),
    ensures
        gen_edges(f, g.update(out as int, NodeSpec { nodes: g[out as int].nodes.push(e), ..g[out as int] }), m, js, nn),
{
    let g2 = g.update(out as int, NodeSpec { nodes: g[out as int].nodes.push(e), ..g[out as int] });
    assert forall|a: int, k: int|
        #![trigger m[a][k]]
        0 <= a < m.len() && 0 <= k < m[a].len() && m[a][k] is Some implies {
            let v = m[a][k]->0;
            &&& v < g2.len()
            &&& node_of_block(f, g2[v as int], a, k)
            &&& forall|c: int| 0 <= c < g2[v as int].nodes.len() ==> block_child_ok(f, g2, m, nn, a, k, #[trigger] g2[v as int].nodes[c])
        } by {
        let v = m[a][k]->0;
        assert(g2[v as int].id == g[v as int].id && g2[v as int].typ == g[v as int].typ && g2[v as int].lbl
            == g[v as int].lbl);
        assert forall|c: int| 0 <= c < g2[v as int].nodes.len() implies block_child_ok(f, g2, m, nn, a, k, #[trigger] g2[v as int].nodes[c]) by {
            let ec = g2[v as int].nodes[c];
            if v == out && c == g[v as int].nodes.len() {
                assert(ec == e);
                if !not_memo(m, out) {
                    let (a2, k2) = choose|a2: int, k2: int|
                        0 <= a2 < m.len() && 0 <= k2 < m[a2].len() && #[trigger] m[a2][k2] == Some(out) && block_child_ok(
                            f,
                            g,
                            m,
                            nn,
                            a2,
                            k2,
                            e,
                        );
                    assert(a2 == a && k2 == k);
                } else {
                    assert(m[a][k] != Some(out));
                }
                assert(block_child_ok(f, g, m, nn, a, k, e));
            } else {
                assert(ec == g[v as int].nodes[c]);
                assert(block_child_ok(f, g, m, nn, a, k, ec));
            }
            assert(block_child_ok(f, g, m, nn, a, k, ec));
            assert(ec.2 < g.len());
            assert(g2[ec.2 as int].id == g[ec.2 as int].id && g2[ec.2 as int].typ == g[ec.2 as int].typ
                && g2[ec.2 as int].lbl == g[ec.2 as int].lbl);
            lemma_child_ok_kinds(f, g, g2, m, nn, a, k, ec);
        }
    }
    assert forall|i: int|
        0 <= i < g2.len() implies marker_node(#[trigger] g2[i]) || null_node(g2[i], nn) || exists|a: int, k: int|
            0 <= a < m.len() && 0 <= k < m[a].len() && #[trigger] m[a][k] == Some(i as usize) by {
        assert(g2[i].id == g[i].id && g2[i].typ == g[i].typ && g2[i].lbl == g[i].lbl);
        assert(marker_node(g[i]) || null_node(g[i], nn) || exists|a: int, k: int|
            0 <= a < m.len() && 0 <= k < m[a].len() && #[trigger] m[a][k] == Some(i as usize));
    }
}

/// Making the node of a block without one keeps the edges, and jobs keep
/// theirs.
proof fn lemma_edges_new_block(
    f: FunSpec,
    g: Seq<NodeSpec>,
    m: Seq<Seq<Option<usize>>>,
    js: Seq<GenJob>,
    nn: Seq<char>,
    a: int,
    k: int,
    n: NodeSpec,
    v0: usize,
)
    requires
        gen_edges(f, g, m, js, nn),
        graph_wf(g),
        v0 == g.len(),
        0 <= a < m.len(),
        0 <= k < m[a].len(),
        m[a][k] is None,
        node_of_block(f, n, a, k),
        n.nodes.len() == 0,
        forall|q: int| 0 <= q < js.len() ==> job_out(#[trigger] js[q]) < g.len(),
        forall|q: int| 0 <= q < js.len() ==> #[trigger] job_ok(js[q], g.len(), f.areas.len()),
    ensures
        gen_edges(f, g.push(n), m.update(a, m[a].update(k, Some(v0))), js, nn),
{
    let g2 = g.push(n);
    let m2 = m.update(a, m[a].update(k, Some(v0)));
    assert forall|a1: int, k1: int| 0 <= a1 < m.len() && 0 <= k1 < m[a1].len() && m[a1][k1] is Some implies #[trigger] m2[a1][k1]
        == m[a1][k1] by {
        if a1 == a {
            assert(k1 != k);
        }
    }
    assert forall|a1: int, k1: int|
        #![trigger m2[a1][k1]]
        0 <= a1 < m2.len() && 0 <= k1 < m2[a1].len() && m2[a1][k1] is Some implies {
            let v = m2[a1][k1]->0;
            &&& v < g2.len()
            &&& node_of_block(f, g2[v as int], a1, k1)
            &&& forall|c: int| 0 <= c < g2[v as int].nodes.len() ==> block_child_ok(f, g2, m2, nn, a1, k1, #[trigger] g2[v as int].nodes[c])
        } by {
        if a1 == a && k1 == k {
            assert(m2[a1][k1] == Some(v0));
            assert(g2[v0 as int] == n);
        } else {
            assert(m2[a1][k1] == m[a1][k1]);
            let v = m[a1][k1]->0;
            assert(v < g.len());
            assert(g2[v as int] == g[v as int]);
            assert forall|c: int| 0 <= c < g2[v as int].nodes.len() implies block_child_ok(f, g2, m2, nn, a1, k1, #[trigger] g2[v as int].nodes[c]) by {
                let e = g[v as int].nodes[c];
                assert(block_child_ok(f, g, m, nn, a1, k1, e));
                assert(e.2 < g.len());
                assert(g2[e.2 as int] == g[e.2 as int]);
                let b = f.areas[a1].blocks[k1];
                if e.0.len() == 0 && e.1.len() == 0 && marker_node(g[e.2 as int]) && g[e.2 as int].typ == "<a>"@ {
                } else {
                    let row = choose|row: int|
                        #![trigger has_port(b.2.inputs, row)]
                        0 <= row < b.2.rows && has_port(b.2.inputs, row) && b.2.inputs[row]->0 == e.0 && source_ok(
                            f,
                            g,
                            m,
                            nn,
                            a1,
                            b.0 - 1,
                            b.1 + row,
                            e.1,
                            e.2,
                        );
                    let s = f.areas[a1].blocks;
                    match cell_index(s, b.0 - 1, b.1 + row) {
                        Some(k2) => {
                            if has_port(s[k2].2.outputs, b.1 + row - s[k2].1) {
                                assert(m[a1][k2] == Some(e.2));
                                assert(m2[a1][k2] == m[a1][k2]);
                            }
                        },
                        None => {},
                    }
                    assert(source_ok(f, g2, m2, nn, a1, b.0 - 1, b.1 + row, e.1, e.2));
                }
            }
        }
    }
    assert forall|a1: int, k1: int, a2: int, k2: int|
        #![trigger m2[a1][k1], m2[a2][k2]]
        0 <= a1 < m2.len() && 0 <= k1 < m2[a1].len() && 0 <= a2 < m2.len() && 0 <= k2 < m2[a2].len() && m2[a1][k1]
            is Some && m2[a1][k1] == m2[a2][k2] implies a1 == a2 && k1 == k2 by {
        if a1 == a && k1 == k {
            if !(a2 == a && k2 == k) {
                assert(m2[a2][k2] == m[a2][k2]);
                assert(m[a2][k2]->0 < g.len());
            }
        } else if a2 == a && k2 == k {
            assert(m2[a1][k1] == m[a1][k1]);
            assert(m[a1][k1]->0 < g.len());
        } else {
            assert(m2[a1][k1] == m[a1][k1]);
            assert(m2[a2][k2] == m[a2][k2]);
        }
    }
    assert forall|a1: int| #![trigger m2[a1]] 0 <= a1 < m2.len() implies m2[a1].len() == f.areas[a1].blocks.len() by {
        assert(m[a1].len() == f.areas[a1].blocks.len());
    }
    assert forall|i: int|
        0 <= i < g2.len() implies marker_node(#[trigger] g2[i]) || null_node(g2[i], nn) || exists|a1: int, k1: int|
            0 <= a1 < m2.len() && 0 <= k1 < m2[a1].len() && #[trigger] m2[a1][k1] == Some(i as usize) by {
        if i == v0 {
            assert(m2[a][k] == Some(i as usize));
        } else {
            assert(g2[i] == g[i]);
            if !(marker_node(g[i]) || null_node(g[i], nn)) {
                let (a1, k1) = choose|a1: int, k1: int|
                    0 <= a1 < m.len() && 0 <= k1 < m[a1].len() && #[trigger] m[a1][k1] == Some(i as usize);
                assert(m2[a1][k1] == m[a1][k1]);
            }
        }
    }
    assert forall|q: int| 0 <= q < js.len() implies #[trigger] job_edge_ok(f, m2, js[q]) by {
        let j = js[q];
        assert(job_edge_ok(f, m, j));
        assert(job_out(j) < g.len());
        assert(job_ok(j, g.len(), f.areas.len()));
        match j {
            GenJob::Output { area_id, x, y, in_port, out } => {
                if not_memo(m, out) {
                    assert forall|a1: int, k1: int| 0 <= a1 < m2.len() && 0 <= k1 < m2[a1].len() implies #[trigger] m2[a1][k1]
                        != Some(out) by {
                        if !(a1 == a && k1 == k) {
                            assert(m2[a1][k1] == m[a1][k1]);
                        }
                    }
                } else {
                    let k1 = choose|k1: int|
                        0 <= k1 < m[area_id as int].len() && #[trigger] m[area_id as int][k1] == Some(out) && input_at(
                            f,
                            area_id as int,
                            k1,
                            x,
                            y,
                            in_port@,
                        );
                    assert(m2[area_id as int][k1] == m[area_id as int][k1]);
                }
            },
            GenJob::Node { out, .. } => {
                assert forall|a1: int, k1: int| 0 <= a1 < m2.len() && 0 <= k1 < m2[a1].len() implies #[trigger] m2[a1][k1]
                    != Some(out) by {
                    if !(a1 == a && k1 == k) {
                        assert(m2[a1][k1] == m[a1][k1]);
                    }
                }
            },
            GenJob::Sink { out, .. } => {
                assert forall|a1: int, k1: int| 0 <= a1 < m2.len() && 0 <= k1 < m2[a1].len() implies #[trigger] m2[a1][k1]
                    != Some(out) by {
                    if !(a1 == a && k1 == k) {
                        assert(m2[a1][k1] == m[a1][k1]);
                    }
                }
            },
            GenJob::Area { .. } => {},
        }
    }
}

/// `j` attaches node `r` below node `v`.
spec fn is_node_job(j: GenJob, r: usize, v: usize) -> bool {
    j matches GenJob::Node { node, out } && node == r && out == v
}

/// `j` attaches what the output at cell `(x, y)` of area `a` computes below
/// node `r`, into no named input.
spec fn is_out_job(j: GenJob, a: usize, x: i64, y: i64, r: usize) -> bool {
    j matches GenJob::Output { area_id, x: jx, y: jy, in_port, out } && area_id == a && jx == x && jy == y
        && in_port@.len() == 0 && out == r
}

/// `j` attaches the sink block at cell `(x, y)` of area `a` below node `v`.
spec fn is_sink_job(j: GenJob, a: usize, x: i64, y: i64, v: usize) -> bool {
    j matches GenJob::Sink { area_id, x: jx, y: jy, out } && area_id == a && jx == x && jy == y && out == v
}

/// Sink `sk` of area `a` hangs below area node `v`, or the jobs `js` will
/// hang it there.
spec fn sink_pending(
    f: FunSpec,
    g: Seq<NodeSpec>,
    m: Seq<Seq<Option<usize>>>,
    js: Seq<GenJob>,
    nn: Seq<char>,
    a: usize,
    v: usize,
    sk: (i64, i64, Option<usize>),
    r: usize,
) -> bool {
    match sk.2 {
        None => (exists|q: int| 0 <= q < js.len() && #[trigger] is_sink_job(js[q], a, sk.0, sk.1, v)) || sink_done(
            f,
            g,
            m,
            nn,
            a as int,
            v as int,
            sk,
            r,
        ),
        Some(_) => {
            &&& r < g.len()
            &&& marker_node(g[r as int])
            &&& g[r as int].typ == "<res>"@
            &&& (exists|q: int| 0 <= q < js.len() && #[trigger] is_node_job(js[q], r, v)) || has_child(
                g,
                v as int,
                (Seq::empty(), Seq::empty(), r),
            )
            &&& (exists|q: int| 0 <= q < js.len() && #[trigger] is_out_job(js[q], a, sk.0, sk.1, r)) || res_fed(
                f,
                g,
                m,
                nn,
                a as int,
                sk.0 as int,
                sk.1 as int,
                r,
            )
        },
    }
}

/// Area node `v` stands for an area with sinks `e.1` in order and result
/// nodes `e.2`, and the sinks among the first `n` hang below it or will.
spec fn entry_upto(
    f: FunSpec,
    g: Seq<NodeSpec>,
    m: Seq<Seq<Option<usize>>>,
    js: Seq<GenJob>,
    nn: Seq<char>,
    v: usize,
    e: (usize, Seq<(i64, i64, Option<usize>)>, Seq<usize>),
    n: int,
) -> bool {
    let (a, sk, rs) = e;
    &&& v < g.len()
    &&& marker_node(g[v as int])
    &&& g[v as int].typ == "<a>"@
    &&& a < f.areas.len()
    &&& sk.to_multiset() == sink_candidates(f.areas[a as int].blocks, f.areas[a as int].blocks.len() as int).to_multiset()
    &&& sinks_sorted(sk)
    &&& rs.len() == sk.len()
    &&& forall|t: int| 0 <= t < n && t < sk.len() ==> #[trigger] sink_pending(f, g, m, js, nn, a, v, sk[t], rs[t])
}

/// Every area node made so far has its sinks hung below it, or the jobs
/// `js` will hang them there.
spec fn areas_pending(
    f: FunSpec,
    g: Seq<NodeSpec>,
    m: Seq<Seq<Option<usize>>>,
    js: Seq<GenJob>,
    nn: Seq<char>,
    am: Map<usize, (usize, Seq<(i64, i64, Option<usize>)>, Seq<usize>)>,
) -> bool {
    forall|v: usize| #[trigger] am.contains_key(v) ==> entry_upto(f, g, m, js, nn, v, am[v], am[v].1.len() as int)
}

/// A source stays where node kinds stay and the memo grows.
proof fn lemma_source_ok_grow(
    f: FunSpec,
    g: Seq<NodeSpec>,
    g2: Seq<NodeSpec>,
    m: Seq<Seq<Option<usize>>>,
    m2: Seq<Seq<Option<usize>>>,
    nn: Seq<char>,
    a: int,
    x: int,
    y: int,
    o: Seq<char>,
    j: usize,
)
    requires
        source_ok(f, g, m, nn, a, x, y, o, j),
        0 <= a < m.len(),
        m[a].len() == f.areas[a].blocks.len(),
        j < g.len(),
        g.len() <= g2.len(),
        g2[j as int].id == g[j as int].id,
        g2[j as int].typ == g[j as int].typ,
        g2[j as int].lbl == g[j as int].lbl,
        m2.len() == m.len(),
        forall|a1: int, k1: int|
            0 <= a1 < m.len() && 0 <= k1 < m[a1].len() && m[a1][k1] is Some ==> #[trigger] m2[a1][k1] == m[a1][k1],
    ensures
        source_ok(f, g2, m2, nn, a, x, y, o, j),
{
    let sb = f.areas[a].blocks;
    match cell_index(sb, x, y) {
        Some(k2) => {
            if has_port(sb[k2].2.outputs, y - sb[k2].1) {
                assert(m[a][k2] == Some(j));
                assert(m2[a][k2] == m[a][k2]);
            }
        },
        None => {},
    }
}

/// Growing the tree, the memo and the jobs keeps the sinks of every area
/// node hung or pending.
/// The tree grows: nodes keep their kind and their children, and gain more.
spec fn graph_grows(g: Seq<NodeSpec>, g2: Seq<NodeSpec>) -> bool {
    &&& g.len() <= g2.len()
    &&& forall|i: int|
        0 <= i < g.len() ==> (#[trigger] g2[i]).id == g[i].id && g2[i].typ == g[i].typ && g2[i].lbl == g[i].lbl
            && g[i].nodes.len() <= g2[i].nodes.len() && forall|c: int| 0 <= c < g[i].nodes.len() ==> #[trigger] g2[i].nodes[c] == g[i].nodes[c]
}

/// The memo grows: its shape stays and every node found stays.
spec fn memo_grows(m: Seq<Seq<Option<usize>>>, m2: Seq<Seq<Option<usize>>>) -> bool {
    &&& m2.len() == m.len()
    &&& forall|a1: int| #![trigger m2[a1]] 0 <= a1 < m.len() ==> m2[a1].len() == m[a1].len()
    &&& forall|a1: int, k1: int|
        0 <= a1 < m.len() && 0 <= k1 < m[a1].len() && m[a1][k1] is Some ==> #[trigger] m2[a1][k1] == m[a1][k1]
}

proof fn lemma_graph_grows_trans(g: Seq<NodeSpec>, g2: Seq<NodeSpec>, g3: Seq<NodeSpec>)
    requires
        graph_grows(g, g2),
        graph_grows(g2, g3),
    ensures
        graph_grows(g, g3),
{
    assert forall|i: int| 0 <= i < g.len() implies (#[trigger] g3[i]).id == g[i].id && g3[i].typ == g[i].typ && g3[i].lbl
        == g[i].lbl && g[i].nodes.len() <= g3[i].nodes.len() && forall|c: int| 0 <= c < g[i].nodes.len() ==> #[trigger] g3[i].nodes[c]
        == g[i].nodes[c] by {
        assert(g2[i].id == g[i].id);
        assert forall|c: int| 0 <= c < g[i].nodes.len() implies #[trigger] g3[i].nodes[c] == g[i].nodes[c] by {
            assert(g2[i].nodes[c] == g[i].nodes[c]);
        }
    }
}

proof fn lemma_graph_grows_prefix(g: Seq<NodeSpec>, g2: Seq<NodeSpec>)
    requires
        g.len() <= g2.len(),
        forall|i: int| 0 <= i < g.len() ==> #[trigger] g2[i] == g[i],
    ensures
        graph_grows(g, g2),
{
    assert forall|i: int| 0 <= i < g.len() implies (#[trigger] g2[i]).id == g[i].id && g2[i].typ == g[i].typ && g2[i].lbl
        == g[i].lbl && g[i].nodes.len() <= g2[i].nodes.len() && forall|c: int| 0 <= c < g[i].nodes.len() ==> #[trigger] g2[i].nodes[c]
        == g[i].nodes[c] by {
        assert(g2[i] == g[i]);
    }
}

proof fn lemma_memo_grows_refl(m: Seq<Seq<Option<usize>>>)
    ensures
        memo_grows(m, m),
{
}

/// A memo filled by a block's tree node has grown.
proof fn lemma_memo_grows_fill(m: Seq<Seq<Option<usize>>>, m2: Seq<Seq<Option<usize>>>, n: nat)
    requires
        m2.len() == m.len(),
        forall|a1: int| #![trigger m2[a1]] 0 <= a1 < m.len() ==> m2[a1].len() == m[a1].len(),
        forall|a1: int, k1: int|
            0 <= a1 < m.len() && 0 <= k1 < m[a1].len() ==> (#[trigger] m2[a1][k1] == m[a1][k1] || (m[a1][k1] is None
                && m2[a1][k1] is Some && m2[a1][k1]->0 >= n)),
    ensures
        memo_grows(m, m2),
{
    assert forall|a1: int, k1: int| 0 <= a1 < m.len() && 0 <= k1 < m[a1].len() && m[a1][k1] is Some implies #[trigger] m2[a1][k1]
        == m[a1][k1] by {
        assert(m2[a1][k1] == m[a1][k1] || (m[a1][k1] is None && m2[a1][k1] is Some && m2[a1][k1]->0 >= n));
    }
}

/// The root keeps its first child as the tree grows.
proof fn lemma_root_area_grow(
    g: Seq<NodeSpec>,
    g2: Seq<NodeSpec>,
    am: Map<usize, (usize, Seq<(i64, i64, Option<usize>)>, Seq<usize>)>,
)
    requires
        graph_grows(g, g2),
        g.len() >= 1,
        g[0].nodes.len() >= 1,
        root_area(g, am),
    ensures
        root_area(g2, am),
{
    assert(g2[0].nodes[0] == g[0].nodes[0]);
}

proof fn lemma_graph_grows_push(g: Seq<NodeSpec>, n: NodeSpec)
    ensures
        graph_grows(g, g.push(n)),
{
    assert forall|i: int| 0 <= i < g.len() implies (#[trigger] g.push(n)[i]) == g[i] by {}
}

proof fn lemma_graph_grows_child(g: Seq<NodeSpec>, out: usize, e: (Seq<char>, Seq<char>, usize))
    requires
        out < g.len(),
    ensures
        graph_grows(g, g.update(out as int, NodeSpec { nodes: g[out as int].nodes.push(e), ..g[out as int] })),
{
    let g2 = g.update(out as int, NodeSpec { nodes: g[out as int].nodes.push(e), ..g[out as int] });
    assert forall|i: int| 0 <= i < g.len() implies (#[trigger] g2[i]).id == g[i].id && g2[i].typ == g[i].typ && g2[i].lbl
        == g[i].lbl && g[i].nodes.len() <= g2[i].nodes.len() && forall|c: int| 0 <= c < g[i].nodes.len() ==> #[trigger] g2[i].nodes[c]
        == g[i].nodes[c] by {
        if i == out {
            assert forall|c: int| 0 <= c < g[i].nodes.len() implies #[trigger] g2[i].nodes[c] == g[i].nodes[c] by {}
        }
    }
}

/// A sink stays hung or pending as the tree, the memo and the jobs grow.
proof fn lemma_sink_pending_grow(
    f: FunSpec,
    g: Seq<NodeSpec>,
    g2: Seq<NodeSpec>,
    m: Seq<Seq<Option<usize>>>,
    m2: Seq<Seq<Option<usize>>>,
    s: Seq<GenJob>,
    s2: Seq<GenJob>,
    nn: Seq<char>,
    a: usize,
    v: usize,
    sk: (i64, i64, Option<usize>),
    r: usize,
)
    requires
        sink_pending(f, g, m, s, nn, a, v, sk, r),
        graph_wf(g),
        graph_grows(g, g2),
        memo_grows(m, m2),
        v < g.len(),
        a < f.areas.len(),
        m.len() == f.areas.len(),
        forall|a1: int| #![trigger m[a1]] 0 <= a1 < m.len() ==> m[a1].len() == f.areas[a1].blocks.len(),
        forall|q: int| 0 <= q < s.len() ==> job_in(s2, #[trigger] s[q]),
    ensures
        sink_pending(f, g2, m2, s2, nn, a, v, sk, r),
{
    assert(g2[v as int].id == g[v as int].id);
    let x = sk.0;
    let y = sk.1;
    match sk.2 {
        None => {
            if exists|q: int| 0 <= q < s.len() && #[trigger] is_sink_job(s[q], a, x, y, v) {
                let q = choose|q: int| 0 <= q < s.len() && #[trigger] is_sink_job(s[q], a, x, y, v);
                assert(job_in(s2, s[q]));
                let q2 = choose|q2: int| 0 <= q2 < s2.len() && s2[q2] == s[q];
                assert(is_sink_job(s2[q2], a, x, y, v));
            } else {
                match cell_index(f.areas[a as int].blocks, x as int, y as int) {
                    Some(k) => {
                        assert(m2[a as int][k] == m[a as int][k]);
                        let c = choose|c: int| 0 <= c < g[v as int].nodes.len() && #[trigger] g[v as int].nodes[c] == (
                            Seq::<char>::empty(),
                            Seq::<char>::empty(),
                            m[a as int][k]->0,
                        );
                        assert(g2[v as int].nodes[c] == g[v as int].nodes[c]);
                    },
                    None => {},
                }
            }
        },
        Some(_) => {
            assert(g2[r as int].id == g[r as int].id && g2[r as int].typ == g[r as int].typ && g2[r as int].lbl
                == g[r as int].lbl);
            if exists|q: int| 0 <= q < s.len() && #[trigger] is_node_job(s[q], r, v) {
                let q = choose|q: int| 0 <= q < s.len() && #[trigger] is_node_job(s[q], r, v);
                assert(job_in(s2, s[q]));
                let q2 = choose|q2: int| 0 <= q2 < s2.len() && s2[q2] == s[q];
                assert(is_node_job(s2[q2], r, v));
            } else {
                let c = choose|c: int| 0 <= c < g[v as int].nodes.len() && #[trigger] g[v as int].nodes[c] == (
                    Seq::<char>::empty(),
                    Seq::<char>::empty(),
                    r,
                );
                assert(g2[v as int].nodes[c] == g[v as int].nodes[c]);
            }
            if exists|q: int| 0 <= q < s.len() && #[trigger] is_out_job(s[q], a, x, y, r) {
                let q = choose|q: int| 0 <= q < s.len() && #[trigger] is_out_job(s[q], a, x, y, r);
                assert(job_in(s2, s[q]));
                let q2 = choose|q2: int| 0 <= q2 < s2.len() && s2[q2] == s[q];
                assert(is_out_job(s2[q2], a, x, y, r));
            } else {
                let d = choose|d: int|
                    0 <= d < g[r as int].nodes.len() && (#[trigger] g[r as int].nodes[d]).0.len() == 0 && source_ok(
                        f,
                        g,
                        m,
                        nn,
                        a as int,
                        x as int,
                        y as int,
                        g[r as int].nodes[d].1,
                        g[r as int].nodes[d].2,
                    );
                let dd = g[r as int].nodes[d];
                assert(g2[r as int].nodes[d] == dd);
                assert(dd.2 < g.len());
                assert(g2[dd.2 as int].id == g[dd.2 as int].id);
                lemma_source_ok_grow(f, g, g2, m, m2, nn, a as int, x as int, y as int, dd.1, dd.2);
            }
        },
    }
}

/// Growing the tree, the memo and the jobs keeps the sinks of every area
/// node hung or pending.
proof fn lemma_areas_grow(
    f: FunSpec,
    g: Seq<NodeSpec>,
    g2: Seq<NodeSpec>,
    m: Seq<Seq<Option<usize>>>,
    m2: Seq<Seq<Option<usize>>>,
    s: Seq<GenJob>,
    s2: Seq<GenJob>,
    nn: Seq<char>,
    am: Map<usize, (usize, Seq<(i64, i64, Option<usize>)>, Seq<usize>)>,
)
    requires
        areas_pending(f, g, m, s, nn, am),
        graph_wf(g),
        graph_grows(g, g2),
        memo_grows(m, m2),
        m.len() == f.areas.len(),
        forall|a1: int| #![trigger m[a1]] 0 <= a1 < m.len() ==> m[a1].len() == f.areas[a1].blocks.len(),
        forall|q: int| 0 <= q < s.len() ==> job_in(s2, #[trigger] s[q]),
    ensures
        areas_pending(f, g2, m2, s2, nn, am),
{
    assert forall|v: usize| #[trigger] am.contains_key(v) implies entry_upto(f, g2, m2, s2, nn, v, am[v], am[v].1.len() as int) by {
        let (a, sk, rs) = am[v];
        assert(entry_upto(f, g, m, s, nn, v, am[v], am[v].1.len() as int));
        assert(g2[v as int].id == g[v as int].id);
        assert forall|t: int| 0 <= t < sk.len() && t < sk.len() implies #[trigger] sink_pending(f, g2, m2, s2, nn, a, v, sk[t], rs[t]) by {
            assert(sink_pending(f, g, m, s, nn, a, v, sk[t], rs[t]));
            lemma_sink_pending_grow(f, g, g2, m, m2, s, s2, nn, a, v, sk[t], rs[t]);
        }
    }
}


/// The job `j` has done what a sink may wait for: a node job attached its
/// node, a result job attached what the output computes, a sink job attached
/// the sink's block.
spec fn job_done(f: FunSpec, g: Seq<NodeSpec>, m: Seq<Seq<Option<usize>>>, nn: Seq<char>, j: GenJob) -> bool {
    match j {
        GenJob::Node { node, out } => has_child(g, out as int, (Seq::empty(), Seq::empty(), node)),
        GenJob::Output { area_id, x, y, in_port, out } => in_port@.len() == 0 ==> res_fed(
            f,
            g,
            m,
            nn,
            area_id as int,
            x as int,
            y as int,
            out,
        ),
        GenJob::Sink { area_id, x, y, out } => match cell_index(f.areas[area_id as int].blocks, x as int, y as int) {
            Some(k) => m[area_id as int][k] is Some && has_child(g, out as int, (Seq::empty(), Seq::empty(), m[area_id as int][k]->0)),
            None => true,
        },
        GenJob::Area { .. } => true,
    }
}

/// A job that has done its part can leave the jobs.
proof fn lemma_areas_drop(
    f: FunSpec,
    g: Seq<NodeSpec>,
    m: Seq<Seq<Option<usize>>>,
    s: Seq<GenJob>,
    j: GenJob,
    nn: Seq<char>,
    am: Map<usize, (usize, Seq<(i64, i64, Option<usize>)>, Seq<usize>)>,
)
    requires
        areas_pending(f, g, m, s.push(j), nn, am),
        job_done(f, g, m, nn, j),
    ensures
        areas_pending(f, g, m, s, nn, am),
{
    let s1 = s.push(j);
    assert forall|v: usize| #[trigger] am.contains_key(v) implies entry_upto(f, g, m, s, nn, v, am[v], am[v].1.len() as int) by {
        let (a, sk, rs) = am[v];
        assert(entry_upto(f, g, m, s1, nn, v, am[v], am[v].1.len() as int));
        assert forall|t: int| 0 <= t < sk.len() && t < sk.len() implies #[trigger] sink_pending(f, g, m, s, nn, a, v, sk[t], rs[t]) by {
            assert(sink_pending(f, g, m, s1, nn, a, v, sk[t], rs[t]));
            let x = sk[t].0;
            let y = sk[t].1;
            let r = rs[t];
            match sk[t].2 {
                None => {
                    if exists|q: int| 0 <= q < s1.len() && #[trigger] is_sink_job(s1[q], a, x, y, v) {
                        let q = choose|q: int| 0 <= q < s1.len() && #[trigger] is_sink_job(s1[q], a, x, y, v);
                        if q < s.len() {
                            assert(is_sink_job(s[q], a, x, y, v));
                        } else {
                            assert(s1[q] == j);
                        }
                    }
                },
                Some(_) => {
                    if exists|q: int| 0 <= q < s1.len() && #[trigger] is_node_job(s1[q], r, v) {
                        let q = choose|q: int| 0 <= q < s1.len() && #[trigger] is_node_job(s1[q], r, v);
                        if q < s.len() {
                            assert(is_node_job(s[q], r, v));
                        } else {
                            assert(s1[q] == j);
                        }
                    }
                    if exists|q: int| 0 <= q < s1.len() && #[trigger] is_out_job(s1[q], a, x, y, r) {
                        let q = choose|q: int| 0 <= q < s1.len() && #[trigger] is_out_job(s1[q], a, x, y, r);
                        if q < s.len() {
                            assert(is_out_job(s[q], a, x, y, r));
                        } else {
                            assert(s1[q] == j);
                        }
                    }
                },
            }
        }
    }
}

/// One step of the tree generation keeps the sinks of every area node hung
/// or pending: the tree, the memo and the jobs grew, and the job taken off
/// has done its part.
proof fn lemma_areas_step(
    f: FunSpec,
    g: Seq<NodeSpec>,
    g2: Seq<NodeSpec>,
    m: Seq<Seq<Option<usize>>>,
    m2: Seq<Seq<Option<usize>>>,
    s: Seq<GenJob>,
    s2: Seq<GenJob>,
    j: GenJob,
    nn: Seq<char>,
    am: Map<usize, (usize, Seq<(i64, i64, Option<usize>)>, Seq<usize>)>,
)
    requires
        areas_pending(f, g, m, s.push(j), nn, am),
        graph_wf(g),
        graph_grows(g, g2),
        memo_grows(m, m2),
        m.len() == f.areas.len(),
        forall|a1: int| #![trigger m[a1]] 0 <= a1 < m.len() ==> m[a1].len() == f.areas[a1].blocks.len(),
        s.len() <= s2.len(),
        forall|q: int| 0 <= q < s.len() ==> #[trigger] s2[q] == s[q],
        job_done(f, g2, m2, nn, j),
    ensures
        areas_pending(f, g2, m2, s2, nn, am),
{
    let s1 = s.push(j);
    assert forall|q: int| 0 <= q < s1.len() implies job_in(s2.push(j), #[trigger] s1[q]) by {
        if q < s.len() {
            assert(s2.push(j)[q] == s1[q]);
        } else {
            assert(s2.push(j)[s2.len() as int] == s1[q]);
        }
    }
    lemma_areas_grow(f, g, g2, m, m2, s1, s2.push(j), nn, am);
    lemma_areas_drop(f, g2, m2, s2, j, nn, am);
}

/// The jobs `js` hang each sub area in `cs` below node `v`.
spec fn sub_jobs(cs: (Option<usize>, Option<usize>), v: usize, js: Seq<GenJob>) -> bool {
    &&& (cs.0 matches Some(c) ==> job_in(js, GenJob::Area { area_id: c, out: v }))
    &&& (cs.1 matches Some(c) ==> job_in(js, GenJob::Area { area_id: c, out: v }))
}

/// Sub area `c` of the block at node `v` hangs below it, or a job will hang
/// it there.
spec fn sub_pending(
    g: Seq<NodeSpec>,
    js: Seq<GenJob>,
    am: Map<usize, (usize, Seq<(i64, i64, Option<usize>)>, Seq<usize>)>,
    v: usize,
    c: usize,
) -> bool {
    job_in(js, GenJob::Area { area_id: c, out: v }) || sub_done(g, am, v, c)
}

/// Every block with a tree node has its sub areas below that node, or jobs
/// will hang them there.
spec fn subs_pending(
    f: FunSpec,
    g: Seq<NodeSpec>,
    m: Seq<Seq<Option<usize>>>,
    js: Seq<GenJob>,
    am: Map<usize, (usize, Seq<(i64, i64, Option<usize>)>, Seq<usize>)>,
) -> bool {
    forall|a: int, k: int|
        #![trigger m[a][k]]
        0 <= a < m.len() && 0 <= k < m[a].len() && m[a][k] is Some ==> {
            let cs = f.areas[a].blocks[k].2.contains;
            &&& (cs.0 matches Some(c) ==> sub_pending(g, js, am, m[a][k]->0, c))
            &&& (cs.1 matches Some(c) ==> sub_pending(g, js, am, m[a][k]->0, c))
        }
}

/// A sub area stays hung or pending as the tree, the area nodes and the jobs
/// grow and a job that has hung it leaves.
proof fn lemma_sub_pending_step(
    g: Seq<NodeSpec>,
    g2: Seq<NodeSpec>,
    s: Seq<GenJob>,
    s2: Seq<GenJob>,
    j: GenJob,
    am: Map<usize, (usize, Seq<(i64, i64, Option<usize>)>, Seq<usize>)>,
    am2: Map<usize, (usize, Seq<(i64, i64, Option<usize>)>, Seq<usize>)>,
    v: usize,
    c: usize,
)
    requires
        sub_pending(g, s.push(j), am, v, c),
        v < g.len(),
        graph_grows(g, g2),
        s.len() <= s2.len(),
        forall|q: int| 0 <= q < s.len() ==> #[trigger] s2[q] == s[q],
        forall|w: usize| #[trigger] am.contains_key(w) ==> am2.contains_key(w) && am2[w] == am[w],
        j matches GenJob::Area { area_id, out } ==> sub_done(g2, am2, out, area_id),
    ensures
        sub_pending(g2, s2, am2, v, c),
{
    let s1 = s.push(j);
    let aj = GenJob::Area { area_id: c, out: v };
    if job_in(s1, aj) {
        let q = choose|q: int| 0 <= q < s1.len() && s1[q] == aj;
        if q < s.len() {
            assert(s2[q] == s[q]);
        } else {
            assert(j == aj);
        }
    } else {
        let w = choose|w: usize| am.contains_key(w) && am[w].0 == c && #[trigger] has_child(g, v as int, (Seq::empty(), Seq::empty(), w));
        let e = (Seq::<char>::empty(), Seq::<char>::empty(), w);
        let d = choose|d: int| 0 <= d < g[v as int].nodes.len() && #[trigger] g[v as int].nodes[d] == e;
        assert(g2[v as int].nodes[d] == g[v as int].nodes[d]);
        assert(has_child(g2, v as int, e));
        assert(am2.contains_key(w) && am2[w].0 == c);
    }
}

/// One step of the tree generation keeps the sub areas of every block node
/// hung or pending.
proof fn lemma_subs_step(
    f: FunSpec,
    g: Seq<NodeSpec>,
    g2: Seq<NodeSpec>,
    m: Seq<Seq<Option<usize>>>,
    m2: Seq<Seq<Option<usize>>>,
    s: Seq<GenJob>,
    s2: Seq<GenJob>,
    j: GenJob,
    am: Map<usize, (usize, Seq<(i64, i64, Option<usize>)>, Seq<usize>)>,
    am2: Map<usize, (usize, Seq<(i64, i64, Option<usize>)>, Seq<usize>)>,
)
    requires
        subs_pending(f, g, m, s.push(j), am),
        graph_grows(g, g2),
        memo_grows(m, m2),
        forall|a1: int, k1: int| 0 <= a1 < m.len() && 0 <= k1 < m[a1].len() && m[a1][k1] is Some ==> m[a1][k1]->0 < g.len(),
        s.len() <= s2.len(),
        forall|q: int| 0 <= q < s.len() ==> #[trigger] s2[q] == s[q],
        forall|w: usize| #[trigger] am.contains_key(w) ==> am2.contains_key(w) && am2[w] == am[w],
        j matches GenJob::Area { area_id, out } ==> sub_done(g2, am2, out, area_id),
        forall|a1: int, k1: int|
            #![trigger m2[a1][k1]]
            0 <= a1 < m.len() && 0 <= k1 < m[a1].len() && m[a1][k1] is None && m2[a1][k1] is Some ==> sub_jobs(
                f.areas[a1].blocks[k1].2.contains,
                m2[a1][k1]->0,
                s2,
            ),
    ensures
        subs_pending(f, g2, m2, s2, am2),
{
    assert forall|a: int, k: int| 0 <= a < m2.len() && 0 <= k < m2[a].len() && #[trigger] m2[a][k] is Some implies {
        let cs = f.areas[a].blocks[k].2.contains;
        &&& (cs.0 matches Some(c) ==> sub_pending(g2, s2, am2, m2[a][k]->0, c))
        &&& (cs.1 matches Some(c) ==> sub_pending(g2, s2, am2, m2[a][k]->0, c))
    } by {
        let cs = f.areas[a].blocks[k].2.contains;
        assert(m2[a].len() == m[a].len());
        if m[a][k] is Some {
            assert(m2[a][k] == m[a][k]);
            let v = m[a][k]->0;
            if let Some(c) = cs.0 {
                lemma_sub_pending_step(g, g2, s, s2, j, am, am2, v, c);
            }
            if let Some(c) = cs.1 {
                lemma_sub_pending_step(g, g2, s, s2, j, am, am2, v, c);
            }
        } else {
            assert(sub_jobs(cs, m2[a][k]->0, s2));
        }
    }
}

/// A step that filled the memo at one block, whose node got jobs for its sub
/// areas, keeps the sub areas of every block node hung or pending.
proof fn lemma_subs_block(
    f: FunSpec,
    g: Seq<NodeSpec>,
    g2: Seq<NodeSpec>,
    m: Seq<Seq<Option<usize>>>,
    m2: Seq<Seq<Option<usize>>>,
    s: Seq<GenJob>,
    s2: Seq<GenJob>,
    j: GenJob,
    am: Map<usize, (usize, Seq<(i64, i64, Option<usize>)>, Seq<usize>)>,
    a: int,
    k: int,
    v: usize,
)
    requires
        subs_pending(f, g, m, s.push(j), am),
        graph_grows(g, g2),
        memo_grows(m, m2),
        forall|a1: int, k1: int| 0 <= a1 < m.len() && 0 <= k1 < m[a1].len() && m[a1][k1] is Some ==> m[a1][k1]->0 < g.len(),
        s.len() <= s2.len(),
        forall|q: int| 0 <= q < s.len() ==> #[trigger] s2[q] == s[q],
        !(j is Area),
        forall|a1: int, k1: int|
            0 <= a1 < m.len() && 0 <= k1 < m[a1].len() && !(a1 == a && k1 == k) ==> #[trigger] m2[a1][k1] == m[a1][k1],
        m2[a][k] == Some(v),
        m[a][k] is None ==> sub_jobs(f.areas[a].blocks[k].2.contains, v, s2),
    ensures
        subs_pending(f, g2, m2, s2, am),
{
    assert forall|a1: int, k1: int|
        #![trigger m2[a1][k1]]
        0 <= a1 < m.len() && 0 <= k1 < m[a1].len() && m[a1][k1] is None && m2[a1][k1] is Some implies sub_jobs(
            f.areas[a1].blocks[k1].2.contains,
            m2[a1][k1]->0,
            s2,
        ) by {
        if !(a1 == a && k1 == k) {
            assert(m2[a1][k1] == m[a1][k1]);
        }
    }
    lemma_subs_step(f, g, g2, m, m2, s, s2, j, am, am);
}

/// Sub areas with no job left waiting hang below their block nodes.
proof fn lemma_subs_done(
    f: FunSpec,
    g: Seq<NodeSpec>,
    m: Seq<Seq<Option<usize>>>,
    am: Map<usize, (usize, Seq<(i64, i64, Option<usize>)>, Seq<usize>)>,
)
    requires
        subs_pending(f, g, m, Seq::empty(), am),
    ensures
        subs_ok(f, g, m, am),
{
}

/// The job `j` adds a child when it runs.
spec fn productive(f: FunSpec, j: GenJob) -> bool {
    match j {
        GenJob::Sink { area_id, x, y, .. } => cell_index(f.areas[area_id as int].blocks, x as int, y as int) is Some,
        _ => true,
    }
}

/// The jobs of `js` that add a child below `v`, bottom of the stack first.
spec fn pend(f: FunSpec, js: Seq<GenJob>, v: usize) -> Seq<GenJob>
    decreases js.len(),
{
    if js.len() == 0 {
        Seq::empty()
    } else {
        let p = pend(f, js.drop_last(), v);
        if job_out(js.last()) == v && productive(f, js.last()) {
            p.push(js.last())
        } else {
            p
        }
    }
}

/// The slot that the child added by job `j` fills.
spec fn slot_of(j: GenJob) -> Slot {
    match j {
        GenJob::Output { area_id, x, y, in_port, .. } => Slot::Input { a: area_id, x: x as int, y: y as int, port: in_port@ },
        GenJob::Area { area_id, .. } => Slot::Sub { c: area_id },
        GenJob::Sink { area_id, x, y, .. } => Slot::SinkBlock { a: area_id, x: x as int, y: y as int },
        GenJob::Node { node, .. } => Slot::Res { r: node },
    }
}

/// The jobs `p` fill the last slots of `ss`, the top job the first of them.
spec fn jobs_fill(p: Seq<GenJob>, ss: Seq<Slot>) -> bool {
    &&& p.len() <= ss.len()
    &&& forall|q: int| 0 <= q < p.len() ==> #[trigger] slot_of(p[q]) == ss[ss.len() - 1 - q]
}

/// Node `v` has children that fit the first slots of `ss`, and the jobs
/// will fill the rest.
spec fn node_slots_ok(
    f: FunSpec,
    g: Seq<NodeSpec>,
    m: Seq<Seq<Option<usize>>>,
    nn: Seq<char>,
    am: Map<usize, (usize, Seq<(i64, i64, Option<usize>)>, Seq<usize>)>,
    js: Seq<GenJob>,
    v: usize,
    ss: Seq<Slot>,
) -> bool {
    &&& v < g.len()
    &&& g[v as int].nodes.len() + pend(f, js, v).len() == ss.len()
    &&& forall|i: int| 0 <= i < g[v as int].nodes.len() ==> #[trigger] child_fits(f, g, m, nn, am, ss[i], g[v as int].nodes[i])
    &&& jobs_fill(pend(f, js, v), ss)
}

/// Every node with slots has or will get its children in order, and every
/// job that adds a child adds it below a node with slots.
spec fn slots_ok(
    f: FunSpec,
    g: Seq<NodeSpec>,
    m: Seq<Seq<Option<usize>>>,
    nn: Seq<char>,
    am: Map<usize, (usize, Seq<(i64, i64, Option<usize>)>, Seq<usize>)>,
    js: Seq<GenJob>,
    sl: Map<usize, Seq<Slot>>,
) -> bool {
    &&& forall|v: usize| #[trigger] sl.contains_key(v) ==> node_slots_ok(f, g, m, nn, am, js, v, sl[v])
    &&& forall|q: int| 0 <= q < js.len() && productive(f, js[q]) ==> sl.contains_key(job_out(#[trigger] js[q]))
}

proof fn lemma_pend_push(f: FunSpec, s: Seq<GenJob>, j: GenJob, v: usize)
    ensures
        pend(f, s.push(j), v) == if job_out(j) == v && productive(f, j) {
            pend(f, s, v).push(j)
        } else {
            pend(f, s, v)
        },
{
    assert(s.push(j).drop_last() =~= s);
}

proof fn lemma_pend_append(f: FunSpec, s: Seq<GenJob>, e: Seq<GenJob>, v: usize)
    ensures
        pend(f, s + e, v) == pend(f, s, v) + pend(f, e, v),
    decreases e.len(),
{
    if e.len() == 0 {
        assert(s + e =~= s);
        assert(pend(f, s, v) + pend(f, e, v) =~= pend(f, s, v));
    } else {
        lemma_pend_append(f, s, e.drop_last(), v);
        assert((s + e).drop_last() =~= s + e.drop_last());
        assert((s + e).last() == e.last());
        if job_out(e.last()) == v && productive(f, e.last()) {
            assert(pend(f, s, v) + pend(f, e.drop_last(), v).push(e.last()) =~= (pend(f, s, v) + pend(f, e.drop_last(), v)).push(
                e.last(),
            ));
        }
    }
}

/// No job of `s` adds a child below `v`.
proof fn lemma_pend_none(f: FunSpec, s: Seq<GenJob>, v: usize)
    requires
        forall|q: int| 0 <= q < s.len() ==> job_out(#[trigger] s[q]) != v || !productive(f, s[q]),
    ensures
        pend(f, s, v) == Seq::<GenJob>::empty(),
    decreases s.len(),
{
    if s.len() > 0 {
        assert forall|q: int| 0 <= q < s.drop_last().len() implies job_out(#[trigger] s.drop_last()[q]) != v || !productive(
            f,
            s.drop_last()[q],
        ) by {
            assert(s.drop_last()[q] == s[q]);
        }
        lemma_pend_none(f, s.drop_last(), v);
        assert(s.last() == s[s.len() - 1]);
    }
}

/// Every job of `s` adds a child below `v`.
proof fn lemma_pend_all(f: FunSpec, s: Seq<GenJob>, v: usize)
    requires
        forall|q: int| 0 <= q < s.len() ==> job_out(#[trigger] s[q]) == v && productive(f, s[q]),
    ensures
        pend(f, s, v) == s,
    decreases s.len(),
{
    if s.len() > 0 {
        assert forall|q: int| 0 <= q < s.drop_last().len() implies job_out(#[trigger] s.drop_last()[q]) == v && productive(
            f,
            s.drop_last()[q],
        ) by {
            assert(s.drop_last()[q] == s[q]);
        }
        lemma_pend_all(f, s.drop_last(), v);
        assert(s.last() == s[s.len() - 1]);
        assert(s.drop_last().push(s.last()) =~= s);
    }
}

/// A child keeps fitting its slot as the tree, the memo and the area nodes
/// grow.
proof fn lemma_fits_grow(
    f: FunSpec,
    g: Seq<NodeSpec>,
    g2: Seq<NodeSpec>,
    m: Seq<Seq<Option<usize>>>,
    m2: Seq<Seq<Option<usize>>>,
    nn: Seq<char>,
    am: Map<usize, (usize, Seq<(i64, i64, Option<usize>)>, Seq<usize>)>,
    am2: Map<usize, (usize, Seq<(i64, i64, Option<usize>)>, Seq<usize>)>,
    s: Slot,
    e: (Seq<char>, Seq<char>, usize),
)
    requires
        child_fits(f, g, m, nn, am, s, e),
        e.2 < g.len(),
        graph_grows(g, g2),
        memo_grows(m, m2),
        m.len() == f.areas.len(),
        forall|a1: int| #![trigger m[a1]] 0 <= a1 < m.len() ==> m[a1].len() == f.areas[a1].blocks.len(),
        forall|w: usize| #[trigger] am.contains_key(w) ==> am2.contains_key(w) && am2[w] == am[w],
    ensures
        child_fits(f, g2, m2, nn, am2, s, e),
{
    match s {
        Slot::Input { a, x, y, port } => {
            assert(g2[e.2 as int].id == g[e.2 as int].id);
            lemma_source_ok_grow(f, g, g2, m, m2, nn, a as int, x, y, e.1, e.2);
        },
        Slot::Sub { c } => {
            assert(am.contains_key(e.2));
        },
        Slot::SinkBlock { a, x, y } => {
            match cell_index(f.areas[a as int].blocks, x, y) {
                Some(k) => {
                    assert(m2[a as int][k] == m[a as int][k]);
                },
                None => {},
            }
        },
        Slot::Res { r } => {},
    }
}

/// One step of the tree generation keeps the slots of the nodes that have
/// them: the job taken off added the child its slot asks for, or none when
/// it adds none; the new jobs add below new nodes only.
proof fn lemma_slots_step(
    f: FunSpec,
    g: Seq<NodeSpec>,
    g2: Seq<NodeSpec>,
    m: Seq<Seq<Option<usize>>>,
    m2: Seq<Seq<Option<usize>>>,
    nn: Seq<char>,
    am: Map<usize, (usize, Seq<(i64, i64, Option<usize>)>, Seq<usize>)>,
    am2: Map<usize, (usize, Seq<(i64, i64, Option<usize>)>, Seq<usize>)>,
    s: Seq<GenJob>,
    ext: Seq<GenJob>,
    j: GenJob,
    sl: Map<usize, Seq<Slot>>,
)
    requires
        slots_ok(f, g, m, nn, am, s.push(j), sl),
        graph_wf(g),
        graph_grows(g, g2),
        memo_grows(m, m2),
        m.len() == f.areas.len(),
        forall|a1: int| #![trigger m[a1]] 0 <= a1 < m.len() ==> m[a1].len() == f.areas[a1].blocks.len(),
        forall|w: usize| #[trigger] am.contains_key(w) ==> am2.contains_key(w) && am2[w] == am[w],
        forall|q: int| 0 <= q < ext.len() ==> !sl.contains_key(job_out(#[trigger] ext[q])),
        job_out(j) < g.len(),
        forall|v: int| 0 <= v < g.len() && v != job_out(j) ==> (#[trigger] g2[v]).nodes == g[v].nodes,
        productive(f, j) ==> g2[job_out(j) as int].nodes.len() == g[job_out(j) as int].nodes.len() + 1 && g2[job_out(
            j,
        ) as int].nodes.drop_last() == g[job_out(j) as int].nodes && g2[job_out(j) as int].nodes.last().2 < g2.len()
            && child_fits(f, g2, m2, nn, am2, slot_of(j), g2[job_out(j) as int].nodes.last()),
        !productive(f, j) ==> g2[job_out(j) as int].nodes == g[job_out(j) as int].nodes,
    ensures
        forall|v: usize| #[trigger] sl.contains_key(v) ==> node_slots_ok(f, g2, m2, nn, am2, s + ext, v, sl[v]),
{
    assert forall|v: usize| #[trigger] sl.contains_key(v) implies node_slots_ok(f, g2, m2, nn, am2, s + ext, v, sl[v]) by {
        let ss = sl[v];
        assert(node_slots_ok(f, g, m, nn, am, s.push(j), v, ss));
        lemma_pend_push(f, s, j, v);
        lemma_pend_append(f, s, ext, v);
        lemma_pend_none(f, ext, v);
        assert(pend(f, s + ext, v) =~= pend(f, s, v));
        let p = pend(f, s, v);
        let old_kids = g[v as int].nodes;
        assert forall|i: int| 0 <= i < old_kids.len() implies #[trigger] child_fits(f, g2, m2, nn, am2, ss[i], old_kids[i]) by {
            assert(child_fits(f, g, m, nn, am, ss[i], old_kids[i]));
            assert(old_kids[i].2 < g.len());
            lemma_fits_grow(f, g, g2, m, m2, nn, am, am2, ss[i], old_kids[i]);
        }
        if v == job_out(j) && productive(f, j) {
            let kids = g2[v as int].nodes;
            assert(p.push(j)[p.len() as int] == j);
            assert(slot_of(j) == ss[ss.len() - 1 - p.len()]);
            assert forall|i: int| 0 <= i < kids.len() implies #[trigger] child_fits(f, g2, m2, nn, am2, ss[i], kids[i]) by {
                if i < old_kids.len() {
                    assert(kids[i] == kids.drop_last()[i]);
                } else {
                    assert(kids[i] == kids.last());
                }
            }
            assert forall|q: int| 0 <= q < p.len() implies #[trigger] slot_of(p[q]) == ss[ss.len() - 1 - q] by {
                assert(p.push(j)[q] == p[q]);
            }
        } else {
            assert(g2[v as int].nodes == old_kids);
        }
    }
}

/// The jobs that `s2` holds beyond `s` add below node `v` the children for
/// the slots `bs`, the top job the first.
spec fn jobs_fill_block(f: FunSpec, s: Seq<GenJob>, s2: Seq<GenJob>, v: usize, bs: Seq<Slot>) -> bool {
    forall|q: int|
        s.len() <= q < s2.len() ==> job_out(#[trigger] s2[q]) == v && productive(f, s2[q]) && slot_of(s2[q]) == bs[bs.len() - 1 - (q
            - s.len())]
}

/// A step that adds no job and leaves the memo keeps the slots.
proof fn lemma_slots_plain(
    f: FunSpec,
    g: Seq<NodeSpec>,
    g2: Seq<NodeSpec>,
    m: Seq<Seq<Option<usize>>>,
    nn: Seq<char>,
    am: Map<usize, (usize, Seq<(i64, i64, Option<usize>)>, Seq<usize>)>,
    s: Seq<GenJob>,
    j: GenJob,
    sl: Map<usize, Seq<Slot>>,
)
    requires
        slots_ok(f, g, m, nn, am, s.push(j), sl),
        graph_wf(g),
        graph_grows(g, g2),
        m.len() == f.areas.len(),
        forall|a1: int| #![trigger m[a1]] 0 <= a1 < m.len() ==> m[a1].len() == f.areas[a1].blocks.len(),
        job_out(j) < g.len(),
        forall|v: int| 0 <= v < g.len() && v != job_out(j) ==> (#[trigger] g2[v]).nodes == g[v].nodes,
        productive(f, j) ==> g2[job_out(j) as int].nodes.len() == g[job_out(j) as int].nodes.len() + 1 && g2[job_out(
            j,
        ) as int].nodes.drop_last() == g[job_out(j) as int].nodes && g2[job_out(j) as int].nodes.last().2 < g2.len()
            && child_fits(f, g2, m, nn, am, slot_of(j), g2[job_out(j) as int].nodes.last()),
        !productive(f, j) ==> g2[job_out(j) as int].nodes == g[job_out(j) as int].nodes,
    ensures
        slots_ok(f, g2, m, nn, am, s, sl),
{
    lemma_memo_grows_refl(m);
    lemma_slots_step(f, g, g2, m, m, nn, am, am, s, Seq::empty(), j, sl);
    assert(s + Seq::<GenJob>::empty() =~= s);
    assert forall|q: int| 0 <= q < s.len() && productive(f, s[q]) implies sl.contains_key(job_out(#[trigger] s[q])) by {
        assert(s.push(j)[q] == s[q]);
    }
}

/// A step that gave block `k` of area `a` its node `v`, and that added a
/// child below the node of the job taken off, keeps the slots; a new block
/// node gets the slots of its block.
proof fn lemma_slots_block(
    f: FunSpec,
    g: Seq<NodeSpec>,
    g2: Seq<NodeSpec>,
    m: Seq<Seq<Option<usize>>>,
    m2: Seq<Seq<Option<usize>>>,
    nn: Seq<char>,
    am: Map<usize, (usize, Seq<(i64, i64, Option<usize>)>, Seq<usize>)>,
    s: Seq<GenJob>,
    s2: Seq<GenJob>,
    j: GenJob,
    sl: Map<usize, Seq<Slot>>,
    a: int,
    k: int,
    v: usize,
) -> (sl2: Map<usize, Seq<Slot>>)
    requires
        slots_ok(f, g, m, nn, am, s.push(j), sl),
        slot_keys(f, m, am, sl),
        graph_wf(g),
        graph_grows(g, g2),
        memo_grows(m, m2),
        m.len() == f.areas.len(),
        forall|a1: int| #![trigger m[a1]] 0 <= a1 < m.len() ==> m[a1].len() == f.areas[a1].blocks.len(),
        forall|q: int| 0 <= q < s.len() ==> job_out(#[trigger] s[q]) < g.len(),
        0 <= a < m.len(),
        0 <= k < m[a].len(),
        forall|a1: int, k1: int|
            0 <= a1 < m.len() && 0 <= k1 < m[a1].len() && !(a1 == a && k1 == k) ==> #[trigger] m2[a1][k1] == m[a1][k1],
        m2[a][k] == Some(v),
        m[a][k] is Some ==> s2 == s,
        m[a][k] is None ==> v >= g.len() && v < g2.len() && g2[v as int].nodes.len() == 0 && s2.len() == s.len() + block_slots(
            f,
            a as usize,
            k,
        ).len() && jobs_fill_block(f, s, s2, v, block_slots(f, a as usize, k)) && forall|q: int|
            0 <= q < s.len() ==> #[trigger] s2[q] == s[q],
        job_out(j) < g.len(),
        productive(f, j),
        forall|u: int| 0 <= u < g.len() && u != job_out(j) ==> (#[trigger] g2[u]).nodes == g[u].nodes,
        g2[job_out(j) as int].nodes.len() == g[job_out(j) as int].nodes.len() + 1,
        g2[job_out(j) as int].nodes.drop_last() == g[job_out(j) as int].nodes,
        g2[job_out(j) as int].nodes.last().2 < g2.len(),
        child_fits(f, g2, m2, nn, am, slot_of(j), g2[job_out(j) as int].nodes.last()),
    ensures
        slots_ok(f, g2, m2, nn, am, s2, sl2),
        slot_keys(f, m2, am, sl2),
{
    let bs = block_slots(f, a as usize, k);
    assert forall|u: usize| #[trigger] sl.contains_key(u) implies u < g.len() by {
        assert(node_slots_ok(f, g, m, nn, am, s.push(j), u, sl[u]));
    }
    if m[a][k] is Some {
        assert(m2[a][k] == m[a][k]);
        let ext = Seq::<GenJob>::empty();
        assert(s + ext =~= s);
        lemma_slots_step(f, g, g2, m, m2, nn, am, am, s, ext, j, sl);
        assert forall|q: int| 0 <= q < s2.len() && productive(f, s2[q]) implies sl.contains_key(job_out(#[trigger] s2[q])) by {
            assert(s.push(j)[q] == s[q]);
        }
        assert forall|a1: int, k1: int|
            #![trigger m2[a1][k1]]
            0 <= a1 < m2.len() && 0 <= k1 < m2[a1].len() && m2[a1][k1] is Some implies sl.contains_key(m2[a1][k1]->0) && sl[m2[a1][k1]->0]
            == block_slots(f, a1 as usize, k1) by {
            assert(m2[a1].len() == m[a1].len());
            if !(a1 == a && k1 == k) {
                assert(m2[a1][k1] == m[a1][k1]);
            }
        }
        sl
    } else {
        let ext = s2.subrange(s.len() as int, s2.len() as int);
        assert(s2 =~= s + ext);
        assert forall|q: int| 0 <= q < ext.len() implies job_out(#[trigger] ext[q]) == v && productive(f, ext[q]) by {
            assert(ext[q] == s2[s.len() + q]);
        }
        assert forall|q: int| 0 <= q < ext.len() implies !sl.contains_key(job_out(#[trigger] ext[q])) by {
            assert(ext[q] == s2[s.len() + q]);
        }
        lemma_slots_step(f, g, g2, m, m2, nn, am, am, s, ext, j, sl);
        let sl2 = sl.insert(v, bs);
        assert(!sl.contains_key(v));
        lemma_pend_append(f, s, ext, v);
        assert forall|q: int| 0 <= q < s.len() implies job_out(#[trigger] s[q]) != v || !productive(f, s[q]) by {}
        lemma_pend_none(f, s, v);
        lemma_pend_all(f, ext, v);
        assert(pend(f, s2, v) =~= ext);
        assert forall|q: int| 0 <= q < ext.len() implies #[trigger] slot_of(ext[q]) == bs[bs.len() - 1 - q] by {
            assert(ext[q] == s2[s.len() + q]);
        }
        assert(node_slots_ok(f, g2, m2, nn, am, s2, v, bs));
        assert forall|u: usize| #[trigger] sl2.contains_key(u) implies node_slots_ok(f, g2, m2, nn, am, s2, u, sl2[u]) by {
            if u != v {
                assert(sl2[u] == sl[u]);
            }
        }
        assert forall|q: int| 0 <= q < s2.len() && productive(f, s2[q]) implies sl2.contains_key(job_out(#[trigger] s2[q])) by {
            if q < s.len() {
                assert(s.push(j)[q] == s[q]);
                assert(s2[q] == s[q]);
            } else {
                assert(s2[q] == ext[q - s.len()]);
            }
        }
        assert forall|a1: int, k1: int|
            #![trigger m2[a1][k1]]
            0 <= a1 < m2.len() && 0 <= k1 < m2[a1].len() && m2[a1][k1] is Some implies sl2.contains_key(m2[a1][k1]->0)
            && sl2[m2[a1][k1]->0] == block_slots(f, a1 as usize, k1) by {
            assert(m2[a1].len() == m[a1].len());
            if !(a1 == a && k1 == k) {
                assert(m2[a1][k1] == m[a1][k1]);
                assert(sl.contains_key(m[a1][k1]->0));
            }
        }
        assert forall|w: usize| #[trigger] am.contains_key(w) implies sl2.contains_key(w) && sl2[w] == area_slots(
            f,
            am[w].0,
            am[w].1,
            am[w].2,
            am[w].1.len() as int,
        ) by {
            assert(sl.contains_key(w));
        }
        assert forall|w: usize, t: int|
            #![trigger am[w].1[t]]
            am.contains_key(w) && 0 <= t < am[w].1.len() && am[w].1[t].2 is Some implies sl2.contains_key(am[w].2[t]) && sl2[am[w].2[t]]
            == seq![Slot::Input { a: am[w].0, x: am[w].1[t].0 as int, y: am[w].1[t].1 as int, port: Seq::empty() }] by {
            assert(sl.contains_key(am[w].2[t]));
        }
        sl2
    }
}

/// The jobs fill the slots `asl` below the new area node `w` and the slots
/// `rsl` below the new result nodes, all of them at or after `lo`.
spec fn area_fill_ok(f: FunSpec, js: Seq<GenJob>, w: usize, asl: Seq<Slot>, rsl: Map<usize, Seq<Slot>>, lo: nat) -> bool {
    &&& pend(f, js, w).len() == asl.len()
    &&& jobs_fill(pend(f, js, w), asl)
    &&& forall|r: usize|
        #[trigger] rsl.contains_key(r) ==> r != w && lo <= r && pend(f, js, r).len() == rsl[r].len() && jobs_fill(
            pend(f, js, r),
            rsl[r],
        )
}

/// A job added on top fills the slot put in front of the slots of its node.
proof fn lemma_fill_front(p: Seq<GenJob>, ss: Seq<Slot>, j: GenJob)
    requires
        p.len() == ss.len(),
        jobs_fill(p, ss),
    ensures
        jobs_fill(p.push(j), seq![slot_of(j)] + ss),
{
    let ss2 = seq![slot_of(j)] + ss;
    assert forall|q: int| 0 <= q < p.push(j).len() implies #[trigger] slot_of(p.push(j)[q]) == ss2[ss2.len() - 1 - q] by {
        if q < p.len() {
            assert(p.push(j)[q] == p[q]);
            assert(ss2[ss2.len() - 1 - q] == ss[ss.len() - 1 - q]);
        }
    }
}

/// A job whose node has no slots here leaves the filling as it is.
proof fn lemma_fill_other(f: FunSpec, js: Seq<GenJob>, j: GenJob, w: usize, asl: Seq<Slot>, rsl: Map<usize, Seq<Slot>>, lo: nat)
    requires
        area_fill_ok(f, js, w, asl, rsl, lo),
        job_out(j) != w,
        !rsl.contains_key(job_out(j)),
    ensures
        area_fill_ok(f, js.push(j), w, asl, rsl, lo),
{
    lemma_pend_push(f, js, j, w);
    assert forall|r: usize| #[trigger] rsl.contains_key(r) implies r != w && lo <= r && pend(f, js.push(j), r).len() == rsl[r].len()
        && jobs_fill(pend(f, js.push(j), r), rsl[r]) by {
        lemma_pend_push(f, js, j, r);
    }
}

/// An unconnected output: a new result node `res` with the job that feeds
/// it, then the job that hangs it below the area node.
proof fn lemma_fill_res(
    f: FunSpec,
    js: Seq<GenJob>,
    j1: GenJob,
    j2: GenJob,
    w: usize,
    asl: Seq<Slot>,
    rsl: Map<usize, Seq<Slot>>,
    lo: nat,
    res: usize,
)
    requires
        area_fill_ok(f, js, w, asl, rsl, lo),
        forall|q: int| 0 <= q < js.len() ==> job_out(#[trigger] js[q]) < res,
        forall|r: usize| #[trigger] rsl.contains_key(r) ==> r < res,
        w < res,
        lo <= res,
        j1 matches GenJob::Output { out, .. } && out == res,
        j2 == (GenJob::Node { node: res, out: w }),
    ensures
        area_fill_ok(f, js.push(j1).push(j2), w, seq![slot_of(j2)] + asl, rsl.insert(res, seq![slot_of(j1)]), lo),
{
    lemma_fill_other(f, js, j1, w, asl, rsl, lo);
    lemma_pend_none(f, js, res);
    lemma_pend_push(f, js, j1, res);
    lemma_pend_push(f, js.push(j1), j2, res);
    lemma_pend_push(f, js.push(j1), j2, w);
    let js2 = js.push(j1).push(j2);
    assert(pend(f, js2, res) =~= seq![j1]);
    assert(jobs_fill(pend(f, js2, res), seq![slot_of(j1)]));
    lemma_fill_front(pend(f, js.push(j1), w), asl, j2);
    let rsl2 = rsl.insert(res, seq![slot_of(j1)]);
    assert forall|r: usize| #[trigger] rsl2.contains_key(r) implies r != w && lo <= r && pend(f, js2, r).len() == rsl2[r].len()
        && jobs_fill(pend(f, js2, r), rsl2[r]) by {
        if r != res {
            assert(rsl.contains_key(r));
            lemma_pend_push(f, js.push(j1), j2, r);
        }
    }
}

/// A sink block: its job hangs the block's node below the area node, when
/// its cell holds a block.
proof fn lemma_fill_sink(f: FunSpec, js: Seq<GenJob>, j: GenJob, w: usize, asl: Seq<Slot>, rsl: Map<usize, Seq<Slot>>, lo: nat)
    requires
        area_fill_ok(f, js, w, asl, rsl, lo),
        job_out(j) == w,
    ensures
        area_fill_ok(f, js.push(j), w, if productive(f, j) { seq![slot_of(j)] + asl } else { asl }, rsl, lo),
{
    lemma_pend_push(f, js, j, w);
    if productive(f, j) {
        lemma_fill_front(pend(f, js, w), asl, j);
    }
    assert forall|r: usize| #[trigger] rsl.contains_key(r) implies r != w && lo <= r && pend(f, js.push(j), r).len() == rsl[r].len()
        && jobs_fill(pend(f, js.push(j), r), rsl[r]) by {
        lemma_pend_push(f, js, j, r);
    }
}

/// Slots of an area depend only on the result nodes of its first `n` sinks.
proof fn lemma_area_slots_ext(f: FunSpec, a: usize, sk: Seq<(i64, i64, Option<usize>)>, rs: Seq<usize>, rs2: Seq<usize>, n: int)
    requires
        forall|t: int| 0 <= t < n ==> rs2[t] == rs[t],
    ensures
        area_slots(f, a, sk, rs2, n) == area_slots(f, a, sk, rs, n),
    decreases n,
{
    if n > 0 {
        lemma_area_slots_ext(f, a, sk, rs, rs2, n - 1);
    }
}

/// The end of an area job: the new area node and its result nodes get
/// their slots, and the slots of the other nodes stay.
proof fn lemma_area_finish(
    f: FunSpec,
    g: Seq<NodeSpec>,
    g2: Seq<NodeSpec>,
    m: Seq<Seq<Option<usize>>>,
    nn: Seq<char>,
    am: Map<usize, (usize, Seq<(i64, i64, Option<usize>)>, Seq<usize>)>,
    s: Seq<GenJob>,
    s2: Seq<GenJob>,
    j: GenJob,
    sl: Map<usize, Seq<Slot>>,
    asl: Seq<Slot>,
    rsl: Map<usize, Seq<Slot>>,
    w: usize,
    e: (usize, Seq<(i64, i64, Option<usize>)>, Seq<usize>),
) -> (sl2: Map<usize, Seq<Slot>>)
    requires
        slots_ok(f, g, m, nn, am, s.push(j), sl),
        slot_keys(f, m, am, sl),
        graph_wf(g),
        graph_grows(g, g2),
        m.len() == f.areas.len(),
        forall|a1: int| #![trigger m[a1]] 0 <= a1 < m.len() ==> m[a1].len() == f.areas[a1].blocks.len(),
        j matches GenJob::Area { area_id, out } && area_id == e.0 && out < g.len(),
        e.0 < f.areas.len(),
        w == g.len(),
        w < g2.len(),
        g2[w as int].nodes.len() == 0,
        area_fill_ok(f, s2, w, asl, rsl, g.len()),
        forall|r: usize| #[trigger] rsl.contains_key(r) ==> r < g2.len() && g2[r as int].nodes.len() == 0,
        s.len() <= s2.len(),
        forall|q: int| 0 <= q < s.len() ==> #[trigger] s2[q] == s[q],
        forall|q: int| s.len() <= q < s2.len() ==> job_out(#[trigger] s2[q]) == w || rsl.contains_key(job_out(s2[q])),
        asl == area_slots(f, e.0, e.1, e.2, e.1.len() as int),
        forall|t: int|
            #![trigger e.1[t]]
            0 <= t < e.1.len() && e.1[t].2 is Some ==> rsl.contains_key(e.2[t]) && rsl[e.2[t]] == seq![
                Slot::Input { a: e.0, x: e.1[t].0 as int, y: e.1[t].1 as int, port: Seq::empty() },
            ],
        forall|u: int| 0 <= u < g.len() && u != job_out(j) ==> (#[trigger] g2[u]).nodes == g[u].nodes,
        g2[job_out(j) as int].nodes.len() == g[job_out(j) as int].nodes.len() + 1,
        g2[job_out(j) as int].nodes.drop_last() == g[job_out(j) as int].nodes,
        g2[job_out(j) as int].nodes.last() == (Seq::<char>::empty(), Seq::<char>::empty(), w),
    ensures
        slots_ok(f, g2, m, nn, am.insert(w, e), s2, sl2),
        slot_keys(f, m, am.insert(w, e), sl2),
{
    let am2 = am.insert(w, e);
    assert forall|u: usize| #[trigger] sl.contains_key(u) implies u < g.len() by {
        assert(node_slots_ok(f, g, m, nn, am, s.push(j), u, sl[u]));
    }
    let ext = s2.subrange(s.len() as int, s2.len() as int);
    assert(s2 =~= s + ext);
    assert forall|q: int| 0 <= q < ext.len() implies !sl.contains_key(job_out(#[trigger] ext[q])) by {
        assert(ext[q] == s2[s.len() + q]);
    }
    assert(!am.contains_key(w)) by {
        if am.contains_key(w) {
            assert(sl.contains_key(w));
        }
    }
    assert forall|u: usize| #[trigger] am.contains_key(u) implies am2.contains_key(u) && am2[u] == am[u] by {}
    lemma_memo_grows_refl(m);
    lemma_slots_step(f, g, g2, m, m, nn, am, am2, s, ext, j, sl);
    let sl2 = sl.union_prefer_right(rsl).insert(w, asl);
    assert forall|u: usize| #[trigger] sl2.contains_key(u) implies node_slots_ok(f, g2, m, nn, am2, s2, u, sl2[u]) by {
        if u == w {
        } else if rsl.contains_key(u) {
            assert(sl2[u] == rsl[u]);
        } else {
            assert(sl2[u] == sl[u]);
        }
    }
    assert forall|q: int| 0 <= q < s2.len() && productive(f, s2[q]) implies sl2.contains_key(job_out(#[trigger] s2[q])) by {
        if q < s.len() {
            assert(s.push(j)[q] == s[q]);
        }
    }
    assert forall|a1: int, k1: int|
        #![trigger m[a1][k1]]
        0 <= a1 < m.len() && 0 <= k1 < m[a1].len() && m[a1][k1] is Some implies sl2.contains_key(m[a1][k1]->0) && sl2[m[a1][k1]->0]
        == block_slots(f, a1 as usize, k1) by {
        assert(sl.contains_key(m[a1][k1]->0));
    }
    assert forall|u: usize| #[trigger] am2.contains_key(u) implies sl2.contains_key(u) && sl2[u] == area_slots(
        f,
        am2[u].0,
        am2[u].1,
        am2[u].2,
        am2[u].1.len() as int,
    ) by {
        if u != w {
            assert(sl.contains_key(u));
        }
    }
    assert forall|u: usize, t: int|
        #![trigger am2[u].1[t]]
        am2.contains_key(u) && 0 <= t < am2[u].1.len() && am2[u].1[t].2 is Some implies sl2.contains_key(am2[u].2[t]) && sl2[am2[u].2[t]]
        == seq![Slot::Input { a: am2[u].0, x: am2[u].1[t].0 as int, y: am2[u].1[t].1 as int, port: Seq::empty() }] by {
        if u != w {
            assert(am[u].1[t] == am2[u].1[t]);
            assert(sl.contains_key(am[u].2[t]));
            assert(!rsl.contains_key(am[u].2[t]));
        } else {
            assert(e.1[t] == am2[u].1[t]);
        }
    }
    assert(sl2[0] == sl[0]);
    sl2
}

/// The job `j` feeds the input at row `r` of block `k` of area `a`.
spec fn pending_at(f: FunSpec, m: Seq<Seq<Option<usize>>>, j: GenJob, a: int, k: int, r: int) -> bool {
    let b = f.areas[a].blocks[k];
    j matches GenJob::Output { area_id, x, y, in_port, out } && area_id == a && x == b.0 - 1 && y == b.1 + r
        && in_port@ == b.2.inputs[r]->0 && m[a][k] == Some(out)
}

/// The input at row `r` of block `k` of area `a` is fed by a child of the
/// block's node or by one of the jobs `s`.
spec fn fed_at(
    f: FunSpec,
    g: Seq<NodeSpec>,
    m: Seq<Seq<Option<usize>>>,
    s: Seq<GenJob>,
    nn: Seq<char>,
    a: int,
    k: int,
    r: int,
) -> bool {
    ||| exists|c: int|
        0 <= c < g[m[a][k]->0 as int].nodes.len() && #[trigger] input_child(
            f,
            g,
            m,
            nn,
            a,
            k,
            r,
            g[m[a][k]->0 as int].nodes[c],
        )
    ||| exists|q: int| 0 <= q < s.len() && #[trigger] pending_at(f, m, s[q], a, k, r)
}

/// Every input of every block with a tree node, but those of block `xk` of
/// area `xa`, is fed or will be.
spec fn fed_but(
    f: FunSpec,
    g: Seq<NodeSpec>,
    m: Seq<Seq<Option<usize>>>,
    s: Seq<GenJob>,
    nn: Seq<char>,
    xa: int,
    xk: int,
) -> bool {
    forall|a: int, k: int, r: int|
        0 <= a < m.len() && 0 <= k < m[a].len() && m[a][k] is Some && is_input_row(f, a, k, r) && !(a == xa && k
            == xk) ==> #[trigger] fed_at(f, g, m, s, nn, a, k, r)
}

/// The source of an input stays where node kinds stay and the memo grows.
proof fn lemma_input_child_kinds(
    f: FunSpec,
    g: Seq<NodeSpec>,
    g2: Seq<NodeSpec>,
    m: Seq<Seq<Option<usize>>>,
    m2: Seq<Seq<Option<usize>>>,
    nn: Seq<char>,
    a: int,
    k: int,
    r: int,
    e: (Seq<char>, Seq<char>, usize),
)
    requires
        input_child(f, g, m, nn, a, k, r, e),
        e.2 < g.len(),
        g.len() <= g2.len(),
        g2[e.2 as int].id == g[e.2 as int].id,
        g2[e.2 as int].typ == g[e.2 as int].typ,
        g2[e.2 as int].lbl == g[e.2 as int].lbl,
        m2.len() == m.len(),
        forall|a1: int, k1: int|
            0 <= a1 < m.len() && 0 <= k1 < m[a1].len() && m[a1][k1] is Some ==> #[trigger] m2[a1][k1] == m[a1][k1],
        0 <= a < m.len(),
        m[a].len() == f.areas[a].blocks.len(),
    ensures
        input_child(f, g2, m2, nn, a, k, r, e),
{
    let b = f.areas[a].blocks[k];
    let sb = f.areas[a].blocks;
    match cell_index(sb, b.0 - 1, b.1 + r) {
        Some(k2) => {
            if has_port(sb[k2].2.outputs, b.1 + r - sb[k2].1) {
                assert(m[a][k2] == Some(e.2));
                assert(m2[a][k2] == m[a][k2]);
            }
        },
        None => {},
    }
}

/// Growing the tree, the memo and the jobs keeps every input fed: nodes keep
/// their kinds and their children, memo entries stay and every job stays.
proof fn lemma_fed_grow(
    f: FunSpec,
    g: Seq<NodeSpec>,
    g2: Seq<NodeSpec>,
    m: Seq<Seq<Option<usize>>>,
    m2: Seq<Seq<Option<usize>>>,
    s: Seq<GenJob>,
    s2: Seq<GenJob>,
    nn: Seq<char>,
    xa: int,
    xk: int,
)
    requires
        fed_but(f, g, m, s, nn, xa, xk),
        graph_wf(g),
        g.len() <= g2.len(),
        forall|i: int|
            0 <= i < g.len() ==> (#[trigger] g2[i]).id == g[i].id && g2[i].typ == g[i].typ && g2[i].lbl == g[i].lbl
                && g[i].nodes.len() <= g2[i].nodes.len() && forall|c: int| 0 <= c < g[i].nodes.len() ==> #[trigger] g2[i].nodes[c] == g[i].nodes[c],
        m2.len() == m.len(),
        forall|a1: int| #![trigger m2[a1]] 0 <= a1 < m.len() ==> m2[a1].len() == m[a1].len(),
        forall|a1: int| #![trigger m[a1]] 0 <= a1 < m.len() ==> m[a1].len() == f.areas[a1].blocks.len(),
        forall|a1: int, k1: int|
            0 <= a1 < m.len() && 0 <= k1 < m[a1].len() && m[a1][k1] is Some ==> #[trigger] m2[a1][k1] == m[a1][k1],
        forall|a1: int, k1: int| 0 <= a1 < m.len() && 0 <= k1 < m[a1].len() && m[a1][k1] is Some ==> m[a1][k1]->0 < g.len(),
        forall|q: int| 0 <= q < s.len() ==> job_in(s2, #[trigger] s[q]),
    ensures
        forall|a: int, k: int, r: int|
            0 <= a < m.len() && 0 <= k < m[a].len() && m[a][k] is Some && is_input_row(f, a, k, r) && !(a == xa && k
                == xk) ==> #[trigger] fed_at(f, g2, m2, s2, nn, a, k, r),
{
    assert forall|a: int, k: int, r: int|
        0 <= a < m.len() && 0 <= k < m[a].len() && m[a][k] is Some && is_input_row(f, a, k, r) && !(a == xa && k
            == xk) implies #[trigger] fed_at(f, g2, m2, s2, nn, a, k, r) by {
        assert(fed_at(f, g, m, s, nn, a, k, r));
        let v = m[a][k]->0;
        assert(m2[a][k] == m[a][k]);
        if exists|c: int| 0 <= c < g[v as int].nodes.len() && #[trigger] input_child(f, g, m, nn, a, k, r, g[v as int].nodes[c]) {
            let c = choose|c: int| 0 <= c < g[v as int].nodes.len() && #[trigger] input_child(f, g, m, nn, a, k, r, g[v as int].nodes[c]);
            let e = g[v as int].nodes[c];
            assert(g2[v as int].nodes[c] == e);
            assert(e.2 < g.len());
            assert(g2[e.2 as int].id == g[e.2 as int].id);
            lemma_input_child_kinds(f, g, g2, m, m2, nn, a, k, r, e);
            assert(input_child(f, g2, m2, nn, a, k, r, g2[v as int].nodes[c]));
        } else {
            let q = choose|q: int| 0 <= q < s.len() && #[trigger] pending_at(f, m, s[q], a, k, r);
            assert(job_in(s2, s[q]));
            let q2 = choose|q2: int| 0 <= q2 < s2.len() && s2[q2] == s[q];
            assert(pending_at(f, m2, s2[q2], a, k, r));
        }
    }
}

/// `j` is one of the jobs `s`.
spec fn job_in(s: Seq<GenJob>, j: GenJob) -> bool {
    exists|q: int| 0 <= q < s.len() && s[q] == j
}

/// A fed input stays fed when jobs are added.
proof fn lemma_fed_at_more_jobs(
    f: FunSpec,
    g: Seq<NodeSpec>,
    m: Seq<Seq<Option<usize>>>,
    s: Seq<GenJob>,
    s2: Seq<GenJob>,
    nn: Seq<char>,
    a: int,
    k: int,
    r: int,
)
    requires
        fed_at(f, g, m, s, nn, a, k, r),
        forall|q: int| 0 <= q < s.len() ==> job_in(s2, #[trigger] s[q]),
    ensures
        fed_at(f, g, m, s2, nn, a, k, r),
{
    if !(exists|c: int|
        0 <= c < g[m[a][k]->0 as int].nodes.len() && #[trigger] input_child(
            f,
            g,
            m,
            nn,
            a,
            k,
            r,
            g[m[a][k]->0 as int].nodes[c],
        )) {
        let q = choose|q: int| 0 <= q < s.len() && #[trigger] pending_at(f, m, s[q], a, k, r);
        assert(job_in(s2, s[q]));
        let q2 = choose|q2: int| 0 <= q2 < s2.len() && s2[q2] == s[q];
        assert(pending_at(f, m, s2[q2], a, k, r));
    }
}

/// Every job of `s + e` is in `s.push(j) + e`.
proof fn lemma_jobs_push_before(s: Seq<GenJob>, e: Seq<GenJob>, j: GenJob)
    ensures
        forall|q: int| 0 <= q < (s + e).len() ==> job_in(s.push(j) + e, #[trigger] (s + e)[q]),
{
    let a = s + e;
    let b = s.push(j) + e;
    assert forall|q: int| 0 <= q < a.len() implies job_in(b, #[trigger] a[q]) by {
        if q < s.len() {
            assert(b[q] == a[q]);
        } else {
            assert(b[q + 1] == a[q]);
        }
    }
}

/// Adding jobs keeps every input fed.
proof fn lemma_fed_more_jobs(
    f: FunSpec,
    g: Seq<NodeSpec>,
    m: Seq<Seq<Option<usize>>>,
    s: Seq<GenJob>,
    s2: Seq<GenJob>,
    nn: Seq<char>,
    xa: int,
    xk: int,
)
    requires
        fed_but(f, g, m, s, nn, xa, xk),
        graph_wf(g),
        forall|a1: int| #![trigger m[a1]] 0 <= a1 < m.len() ==> m[a1].len() == f.areas[a1].blocks.len(),
        forall|a1: int, k1: int| 0 <= a1 < m.len() && 0 <= k1 < m[a1].len() && m[a1][k1] is Some ==> m[a1][k1]->0 < g.len(),
        forall|q: int| 0 <= q < s.len() ==> job_in(s2, #[trigger] s[q]),
    ensures
        fed_but(f, g, m, s2, nn, xa, xk),
{
    assert forall|i: int| 0 <= i < g.len() implies (#[trigger] g[i]).id == g[i].id && g[i].typ == g[i].typ && g[i].lbl
        == g[i].lbl && g[i].nodes.len() <= g[i].nodes.len() && forall|c: int| 0 <= c < g[i].nodes.len() ==> #[trigger] g[i].nodes[c]
        == g[i].nodes[c] by {}
    lemma_fed_grow(f, g, g, m, m, s, s2, nn, xa, xk);
}

/// Adding a node keeps every input fed.
proof fn lemma_fed_push_node(
    f: FunSpec,
    g: Seq<NodeSpec>,
    m: Seq<Seq<Option<usize>>>,
    s: Seq<GenJob>,
    nn: Seq<char>,
    n: NodeSpec,
)
    requires
        fed_but(f, g, m, s, nn, -1, -1),
        graph_wf(g),
        forall|a1: int| #![trigger m[a1]] 0 <= a1 < m.len() ==> m[a1].len() == f.areas[a1].blocks.len(),
        forall|a1: int, k1: int| 0 <= a1 < m.len() && 0 <= k1 < m[a1].len() && m[a1][k1] is Some ==> m[a1][k1]->0 < g.len(),
    ensures
        fed_but(f, g.push(n), m, s, nn, -1, -1),
{
    let g2 = g.push(n);
    assert forall|i: int| 0 <= i < g.len() implies (#[trigger] g2[i]).id == g[i].id && g2[i].typ == g[i].typ && g2[i].lbl
        == g[i].lbl && g[i].nodes.len() <= g2[i].nodes.len() && forall|c: int| 0 <= c < g[i].nodes.len() ==> #[trigger] g2[i].nodes[c]
        == g[i].nodes[c] by {
        assert(g2[i] == g[i]);
    }
    assert forall|q: int| 0 <= q < s.len() implies job_in(s, #[trigger] s[q]) by {}
    lemma_fed_grow(f, g, g2, m, m, s, s, nn, -1, -1);
}

/// Adding a child keeps every input fed.
proof fn lemma_fed_child(
    f: FunSpec,
    g: Seq<NodeSpec>,
    m: Seq<Seq<Option<usize>>>,
    s: Seq<GenJob>,
    nn: Seq<char>,
    out: usize,
    e: (Seq<char>, Seq<char>, usize),
)
    requires
        fed_but(f, g, m, s, nn, -1, -1),
        graph_wf(g),
        out < g.len(),
        forall|a1: int| #![trigger m[a1]] 0 <= a1 < m.len() ==> m[a1].len() == f.areas[a1].blocks.len(),
        forall|a1: int, k1: int| 0 <= a1 < m.len() && 0 <= k1 < m[a1].len() && m[a1][k1] is Some ==> m[a1][k1]->0 < g.len(),
    ensures
        fed_but(f, g.update(out as int, NodeSpec { nodes: g[out as int].nodes.push(e), ..g[out as int] }), m, s, nn, -1, -1),
{
    let g2 = g.update(out as int, NodeSpec { nodes: g[out as int].nodes.push(e), ..g[out as int] });
    assert forall|i: int| 0 <= i < g.len() implies (#[trigger] g2[i]).id == g[i].id && g2[i].typ == g[i].typ && g2[i].lbl
        == g[i].lbl && g[i].nodes.len() <= g2[i].nodes.len() && forall|c: int| 0 <= c < g[i].nodes.len() ==> #[trigger] g2[i].nodes[c]
        == g[i].nodes[c] by {
        if i == out {
            assert forall|c: int| 0 <= c < g[i].nodes.len() implies #[trigger] g2[i].nodes[c] == g[i].nodes[c] by {
                assert(g[out as int].nodes.push(e)[c] == g[out as int].nodes[c]);
            }
        } else {
            assert(g2[i] == g[i]);
        }
    }
    assert forall|q: int| 0 <= q < s.len() implies job_in(s, #[trigger] s[q]) by {}
    lemma_fed_grow(f, g, g2, m, m, s, s, nn, -1, -1);
}

/// The child that an output job attached feeds each input the job feeds.
proof fn lemma_output_fed(
    f: FunSpec,
    g: Seq<NodeSpec>,
    m: Seq<Seq<Option<usize>>>,
    nn: Seq<char>,
    pj: GenJob,
    e: (Seq<char>, Seq<char>, usize),
)
    requires
        pj matches GenJob::Output { area_id, x, y, in_port, out } && out < g.len() && g[out as int].nodes.len() > 0
            && g[out as int].nodes.last() == e && e.0 == in_port@ && source_ok(
            f,
            g,
            m,
            nn,
            area_id as int,
            x as int,
            y as int,
            e.1,
            e.2,
        ),
    ensures
        forall|a: int, k: int, r: int|
            0 <= a < m.len() && 0 <= k < m[a].len() && m[a][k] is Some && is_input_row(f, a, k, r) && #[trigger] pending_at(f, m, pj, a, k, r)
                ==> exists|c: int|
                0 <= c < g[m[a][k]->0 as int].nodes.len() && #[trigger] input_child(
                    f,
                    g,
                    m,
                    nn,
                    a,
                    k,
                    r,
                    g[m[a][k]->0 as int].nodes[c],
                ),
{
    assert forall|a: int, k: int, r: int|
        0 <= a < m.len() && 0 <= k < m[a].len() && m[a][k] is Some && is_input_row(f, a, k, r) && #[trigger] pending_at(f, m, pj, a, k, r)
            implies exists|c: int|
            0 <= c < g[m[a][k]->0 as int].nodes.len() && #[trigger] input_child(
                f,
                g,
                m,
                nn,
                a,
                k,
                r,
                g[m[a][k]->0 as int].nodes[c],
            ) by {
        let v = m[a][k]->0;
        let c = g[v as int].nodes.len() - 1;
        assert(g[v as int].nodes[c] == e);
        assert(input_child(f, g, m, nn, a, k, r, e));
    }
}

/// Dropping a job keeps every input fed if what the job would feed is fed.
proof fn lemma_fed_drop(f: FunSpec, g: Seq<NodeSpec>, m: Seq<Seq<Option<usize>>>, s: Seq<GenJob>, j: GenJob, nn: Seq<char>)
    requires
        fed_but(f, g, m, s.push(j), nn, -1, -1),
        forall|a: int, k: int, r: int|
            0 <= a < m.len() && 0 <= k < m[a].len() && m[a][k] is Some && is_input_row(f, a, k, r) && #[trigger] pending_at(f, m, j, a, k, r)
                ==> exists|c: int|
                0 <= c < g[m[a][k]->0 as int].nodes.len() && #[trigger] input_child(
                    f,
                    g,
                    m,
                    nn,
                    a,
                    k,
                    r,
                    g[m[a][k]->0 as int].nodes[c],
                ),
    ensures
        fed_but(f, g, m, s, nn, -1, -1),
{
    assert forall|a: int, k: int, r: int|
        0 <= a < m.len() && 0 <= k < m[a].len() && m[a][k] is Some && is_input_row(f, a, k, r) && !(a == -1 && k
            == -1) implies #[trigger] fed_at(f, g, m, s, nn, a, k, r) by {
        assert(fed_at(f, g, m, s.push(j), nn, a, k, r));
        if !(exists|c: int|
            0 <= c < g[m[a][k]->0 as int].nodes.len() && #[trigger] input_child(
                f,
                g,
                m,
                nn,
                a,
                k,
                r,
                g[m[a][k]->0 as int].nodes[c],
            )) {
            let q = choose|q: int| 0 <= q < s.push(j).len() && #[trigger] pending_at(f, m, s.push(j)[q], a, k, r);
            if q < s.len() {
                assert(s.push(j)[q] == s[q]);
            } else {
                assert(s.push(j)[q] == j);
                assert(pending_at(f, m, j, a, k, r));
            }
        }
    }
}

/// A present port row below `rows` appears in the port list.
proof fn lemma_ports_upto_covers(ports: Seq<Option<Seq<char>>>, n: int, r: int)
    requires
        0 <= r < n,
        n <= ports.len(),
        n <= usize::MAX,
        has_port(ports, r),
    ensures
        exists|q: int| 0 <= q < ports_upto(ports, n).len() && (#[trigger] ports_upto(ports, n)[q]).0 == r,
    decreases n,
{
    let cur = ports_upto(ports, n);
    let prev = ports_upto(ports, n - 1);
    if r == n - 1 {
        assert(cur[cur.len() - 1].0 == r);
    } else {
        lemma_ports_upto_covers(ports, n - 1, r);
        let q = choose|q: int| 0 <= q < prev.len() && (#[trigger] prev[q]).0 == r;
        assert(cur[q] == prev[q]);
    }
}

impl BlockFun {
    /// The tree node of block `k` of area `a`: on the first visit it is made,
    /// and the outputs feeding its inputs and its sub areas are queued.
    fn block_node(
        &self,
        a: usize,
        k: usize,
        nodes: &mut Vec<JASTNode>,
        memo: &mut Vec<Vec<Option<usize>>>,
        jobs: &mut Vec<GenJob>,
        Ghost(nn): Ghost<Seq<char>>,
        Ghost(extra): Ghost<Seq<GenJob>>,
    ) -> (r: usize)
        requires
            self.wf(),
            gen_body(self@, graph_view(old(nodes)@), memo_view(old(memo)@), old(jobs)@, nn),
            gen_edges(self@, graph_view(old(nodes)@), memo_view(old(memo)@), old(jobs)@, nn),
            fed_but(self@, graph_view(old(nodes)@), memo_view(old(memo)@), old(jobs)@ + extra, nn, -1, -1),
            root_done(graph_view(old(nodes)@), old(jobs)@),
            a < self@.areas.len(),
            k < self@.areas[a as int].blocks.len(),
        ensures
            gen_body(self@, graph_view(final(nodes)@), memo_view(final(memo)@), final(jobs)@, nn),
            gen_edges(self@, graph_view(final(nodes)@), memo_view(final(memo)@), final(jobs)@, nn),
            fed_but(self@, graph_view(final(nodes)@), memo_view(final(memo)@), final(jobs)@ + extra, nn, -1, -1),
            memo_view(final(memo)@)[a as int][k as int] == Some(r),
            forall|a1: int, k1: int|
                0 <= a1 < memo_view(old(memo)@).len() && 0 <= k1 < memo_view(old(memo)@)[a1].len() ==> (
                #[trigger] memo_view(final(memo)@)[a1][k1] == memo_view(old(memo)@)[a1][k1] || (memo_view(
                    old(memo)@,
                )[a1][k1] is None && memo_view(final(memo)@)[a1][k1] is Some && memo_view(final(memo)@)[a1][k1]->0
                    >= graph_view(old(nodes)@).len())),
            memo_view(final(memo)@).len() == memo_view(old(memo)@).len(),
            forall|a1: int| #![trigger memo_view(final(memo)@)[a1]] 0 <= a1 < memo_view(old(memo)@).len() ==> memo_view(final(memo)@)[a1].len() == memo_view(old(memo)@)[a1].len(),
            root_done(graph_view(final(nodes)@), final(jobs)@),
            0 < r < final(nodes)@.len(),
            graph_view(old(nodes)@).len() <= graph_view(final(nodes)@).len(),
            forall|i: int| 0 <= i < graph_view(old(nodes)@).len() ==> #[trigger] graph_view(final(nodes)@)[i] == graph_view(
                old(nodes)@,
            )[i],
            (memo_view(old(memo)@)[a as int][k as int] is Some && final(memo)@ == old(memo)@ && final(jobs)@ == old(jobs)@)
                || uninit(memo_view(final(memo)@)) + 1 == uninit(memo_view(old(memo)@)),
            old(jobs)@.len() <= final(jobs)@.len(),
            forall|q: int| 0 <= q < old(jobs)@.len() ==> #[trigger] final(jobs)@[q] == old(jobs)@[q],
            forall|a1: int, k1: int|
                0 <= a1 < memo_view(old(memo)@).len() && 0 <= k1 < memo_view(old(memo)@)[a1].len() && !(a1 == a && k1 == k)
                    ==> #[trigger] memo_view(final(memo)@)[a1][k1] == memo_view(old(memo)@)[a1][k1],
            memo_view(old(memo)@)[a as int][k as int] is None ==> sub_jobs(self@.areas[a as int].blocks[k as int].2.contains, r, final(jobs)@),
            memo_view(old(memo)@)[a as int][k as int] is None ==> final(jobs)@.len() == old(jobs)@.len() + block_slots(
                self@,
                a,
                k as int,
            ).len() && jobs_fill_block(self@, old(jobs)@, final(jobs)@, r, block_slots(self@, a, k as int)),
            memo_view(old(memo)@)[a as int][k as int] is Some ==> final(jobs)@ == old(jobs)@ && graph_view(final(nodes)@)
                == graph_view(old(nodes)@),
            memo_view(old(memo)@)[a as int][k as int] is None ==> r == graph_view(old(nodes)@).len() && graph_view(
                final(nodes)@,
            ).len() == r + 1 && graph_view(final(nodes)@)[r as int].nodes.len() == 0,
    {
        let ghost f = self@;
        let ghost j_in = jobs@;
        let ghost s = f.areas[a as int].blocks;
        proof {
            assert(self@.areas[a as int] == self.areas@[a as int]@);
            assert(blocks_wf(s) && subs_below(s, f.areas.len() as nat));
            assert(memo_view(memo@)[a as int] == memo@[a as int]@);
        }
        match memo[a][k] {
            Some(v) => {
                return v;
            },
            None => {},
        }
        let e = &self.areas[a].blocks[k];
        let b = &e.2;
        let cur_len = nodes.len();
        proof {
            assert(s[k as int] == (e.0, e.1, b@));
            assert(node_of_block(f, NodeSpec { id: b.id, typ: b.typ@, lbl: b.lbl@, nodes: Seq::empty() }, a as int, k as int));
            lemma_gen_push_node(f, graph_view(nodes@), memo_view(memo@), jobs@, nn, NodeSpec {
                id: b.id,
                typ: b.typ@,
                lbl: b.lbl@,
                nodes: Seq::empty(),
            });
            assert forall|q: int| 0 <= q < jobs@.len() implies job_out(#[trigger] jobs@[q]) < graph_view(nodes@).len() by {
                assert(job_ok(jobs@[q], graph_view(nodes@).len(), f.areas.len()));
            }
            assert(graph_view(nodes@).len() == cur_len);
            lemma_edges_new_block(f, graph_view(nodes@), memo_view(memo@), jobs@, nn, a as int, k as int, NodeSpec {
                id: b.id,
                typ: b.typ@,
                lbl: b.lbl@,
                nodes: Seq::empty(),
            }, cur_len);
        }
        let ghost g0 = graph_view(nodes@);
        let node = push_node(nodes, b.id, b.typ.clone(), b.lbl.clone());
        let ghost m0 = memo_view(memo@);
        memo[a].set(k, Some(node));
        proof {
            assert(memo_view(memo@) =~= m0.update(a as int, m0[a as int].update(k as int, Some(node))));
            lemma_uninit_set(m0, a as int, k as int, node);
            let m1 = memo_view(memo@);
            assert forall|aa: int, kk: int| #![trigger m1[aa][kk]] 0 <= aa < m1.len() && 0 <= kk < m1[aa].len() implies (m1[aa][kk] matches Some(
                v,
            ) ==> 0 < v < graph_view(nodes@).len()) by {
                if aa == a && kk == k {
                } else if aa == a {
                    assert(m1[aa][kk] == m0[aa][kk]);
                } else {
                    assert(m1[aa] == m0[aa]);
                }
            }
            assert forall|aa: int| #![trigger m1[aa]] 0 <= aa < m1.len() implies m1[aa].len() == f.areas[aa].blocks.len() by {
                if aa != a {
                    assert(m1[aa] == m0[aa]);
                }
            }
        }
        let xo = e.0;
        let yo = e.1;
        proof {
            assert(in_domain(s[k as int].0 as int, s[k as int].1 as int, s[k as int].2.rows as int));
            assert(s[k as int].2.contains.0 matches Some(c) ==> c < f.areas.len());
            assert(s[k as int].2.contains.1 matches Some(c) ==> c < f.areas.len());
        }
        proof {
            let m1 = memo_view(memo@);
            assert forall|a1: int, k1: int|
                0 <= a1 < m0.len() && 0 <= k1 < m0[a1].len() implies (#[trigger] m1[a1][k1] == m0[a1][k1] || (
                m0[a1][k1] is None && m1[a1][k1] is Some && m1[a1][k1]->0 >= g0.len())) by {
                if !(a1 == a && k1 == k) {
                    if a1 == a {
                        assert(m1[a1][k1] == m0[a1][k1]);
                    } else {
                        assert(m1[a1] == m0[a1]);
                    }
                }
            }
            assert forall|a1: int| #![trigger m1[a1]] 0 <= a1 < m0.len() implies m1[a1].len() == m0[a1].len() by {
                if a1 != a {
                    assert(m1[a1] == m0[a1]);
                }
            }
            let g1 = graph_view(nodes@);
            let sj = jobs@ + extra;
            assert forall|i: int| 0 <= i < g0.len() implies (#[trigger] g1[i]).id == g0[i].id && g1[i].typ == g0[i].typ
                && g1[i].lbl == g0[i].lbl && g0[i].nodes.len() <= g1[i].nodes.len() && forall|c: int|
                0 <= c < g0[i].nodes.len() ==> #[trigger] g1[i].nodes[c] == g0[i].nodes[c] by {
                assert(g1[i] == g0[i]);
            }
            assert forall|a1: int, k1: int|
                0 <= a1 < m0.len() && 0 <= k1 < m0[a1].len() && m0[a1][k1] is Some implies #[trigger] m1[a1][k1]
                == m0[a1][k1] by {
                if a1 == a {
                    assert(k1 != k);
                }
            }
            assert forall|q: int| 0 <= q < sj.len() implies job_in(sj, #[trigger] sj[q]) by {}
            assert forall|a1: int, k1: int|
                0 <= a1 < m0.len() && 0 <= k1 < m0[a1].len() && m0[a1][k1] is Some implies m0[a1][k1]->0 < g0.len() by {
                assert(m0[a1][k1] matches Some(v) ==> 0 < v < g0.len());
            }
            lemma_fed_grow(f, g0, g1, m0, m1, sj, sj, nn, -1, -1);
            assert(fed_but(f, g1, m1, sj, nn, a as int, k as int)) by {
                assert forall|a1: int, k1: int, r: int|
                    0 <= a1 < m1.len() && 0 <= k1 < m1[a1].len() && m1[a1][k1] is Some && is_input_row(f, a1, k1, r)
                        && !(a1 == a && k1 == k) implies #[trigger] fed_at(f, g1, m1, sj, nn, a1, k1, r) by {
                    assert(m0[a1][k1] is Some);
                }
            }
        }
        if let Some(c1) = b.contains.1 {
            proof {
                lemma_gen_push_job(f, graph_view(nodes@), memo_view(memo@), jobs@, nn, GenJob::Area { area_id: c1, out: node });
                lemma_edges_push_job(f, graph_view(nodes@), memo_view(memo@), jobs@, nn, GenJob::Area { area_id: c1, out: node });
                lemma_jobs_push_before(jobs@, extra, GenJob::Area { area_id: c1, out: node });
                lemma_fed_more_jobs(f, graph_view(nodes@), memo_view(memo@), jobs@ + extra, jobs@.push(GenJob::Area { area_id: c1, out: node }) + extra, nn, a as int, k as int);
            }
            jobs.push(GenJob::Area { area_id: c1, out: node });
        }
        if let Some(c0) = b.contains.0 {
            proof {
                lemma_gen_push_job(f, graph_view(nodes@), memo_view(memo@), jobs@, nn, GenJob::Area { area_id: c0, out: node });
                lemma_edges_push_job(f, graph_view(nodes@), memo_view(memo@), jobs@, nn, GenJob::Area { area_id: c0, out: node });
                lemma_jobs_push_before(jobs@, extra, GenJob::Area { area_id: c0, out: node });
                lemma_fed_more_jobs(f, graph_view(nodes@), memo_view(memo@), jobs@ + extra, jobs@.push(GenJob::Area { area_id: c0, out: node }) + extra, nn, a as int, k as int);
            }
            jobs.push(GenJob::Area { area_id: c0, out: node });
        }
        let ghost j_mid = jobs@;
        proof {
            assert(s[k as int].2.contains == b@.contains);
            if let Some(c0) = b@.contains.0 {
                assert(jobs@[jobs@.len() - 1] == (GenJob::Area { area_id: c0, out: node }));
            }
            if let Some(c1) = b@.contains.1 {
                if b@.contains.0 is Some {
                    assert(jobs@[jobs@.len() - 2] == (GenJob::Area { area_id: c1, out: node }));
                } else {
                    assert(jobs@[jobs@.len() - 1] == (GenJob::Area { area_id: c1, out: node }));
                }
            }
            assert(sub_jobs(b@.contains, node, jobs@));
            let bs = block_slots(f, a, k as int);
            let cq = contains_queue(b@.contains);
            let pl0 = port_list(b@.inputs, b@.rows);
            assert(bs.len() == pl0.len() + cq.len());
            assert(jobs@.len() == j_in.len() + cq.len()) by {
                if b@.contains.0 is Some && b@.contains.1 is Some {
                } else if b@.contains.0 is Some || b@.contains.1 is Some {
                } else {
                    assert(jobs@ =~= j_in);
                }
            }
            assert forall|q: int| j_in.len() <= q < jobs@.len() implies job_out(#[trigger] jobs@[q]) == node && productive(f, jobs@[q])
                && slot_of(jobs@[q]) == bs[bs.len() - 1 - (q - j_in.len())] by {
                let i = bs.len() - 1 - (q - j_in.len());
                assert(bs[i] == cq.map_values(|c: usize| Slot::Sub { c })[i - pl0.len()]);
                if b@.contains.1 is Some {
                    if q == j_in.len() {
                        assert(jobs@[q] == (GenJob::Area { area_id: b@.contains.1->0, out: node }));
                        assert(cq[cq.len() - 1] == b@.contains.1->0);
                    } else {
                        assert(jobs@[q] == (GenJob::Area { area_id: b@.contains.0->0, out: node }));
                        assert(cq[0] == b@.contains.0->0);
                    }
                } else {
                    assert(jobs@[q] == (GenJob::Area { area_id: b@.contains.0->0, out: node }));
                    assert(cq[0] == b@.contains.0->0);
                }
            }
        }
        let ins = b.for_input_ports_reverse();
        proof {
            lemma_port_list_rows(b@.inputs, b@.rows);
        }
        let ghost pl = labels_view(ins@);
        let mut t: usize = 0;
        while t < ins.len()
            invariant
                t <= ins@.len(),
                pl == labels_view(ins@),
                pl == port_list(b@.inputs, b@.rows).reverse(),
                forall|q: int| 0 <= q < port_list(b@.inputs, b@.rows).len() ==> #[trigger] port_list(b@.inputs, b@.rows)[q].0 < b@.rows,
                in_domain(xo as int, yo as int, b@.rows as int),
                node < graph_view(nodes@).len(),
                node != 0,
                a < f.areas.len(),
                gen_body(f, graph_view(nodes@), memo_view(memo@), jobs@, nn),
                gen_edges(f, graph_view(nodes@), memo_view(memo@), jobs@, nn),
                fed_but(f, graph_view(nodes@), memo_view(memo@), jobs@ + extra, nn, a as int, k as int),
                forall|q: int|
                    port_list(b@.inputs, b@.rows).len() - t <= q < port_list(b@.inputs, b@.rows).len() ==> #[trigger] fed_at(
                        f,
                        graph_view(nodes@),
                        memo_view(memo@),
                        jobs@ + extra,
                        nn,
                        a as int,
                        k as int,
                        port_list(b@.inputs, b@.rows)[q].0 as int,
                    ),
                0 <= k < memo_view(memo@)[a as int].len(),
                memo_view(memo@)[a as int][k as int] == Some(node),
                s == f.areas[a as int].blocks,
                s[k as int] == (xo, yo, b@),
                forall|q: int|
                    0 <= q < port_list(b@.inputs, b@.rows).len() ==> #[trigger] port_list(b@.inputs, b@.rows)[q].0 < b@.rows
                        && has_port(b@.inputs, port_list(b@.inputs, b@.rows)[q].0 as int) && port_list(b@.inputs, b@.rows)[q].1
                        == b@.inputs[port_list(b@.inputs, b@.rows)[q].0 as int]->0,
                root_done(graph_view(nodes@), jobs@),
                j_in.len() <= j_mid.len(),
                forall|q: int| 0 <= q < j_in.len() ==> #[trigger] j_mid[q] == j_in[q],
                j_mid.len() <= jobs@.len(),
                forall|q: int| 0 <= q < j_mid.len() ==> #[trigger] jobs@[q] == j_mid[q],
                sub_jobs(b@.contains, node, j_mid),
                j_mid.len() == j_in.len() + contains_queue(b@.contains).len(),
                jobs@.len() == j_mid.len() + t,
                block_slots(f, a, k as int).len() == port_list(b@.inputs, b@.rows).len() + contains_queue(b@.contains).len(),
                forall|q: int| j_in.len() <= q < jobs@.len() ==> job_out(#[trigger] jobs@[q]) == node && productive(f, jobs@[q])
                    && slot_of(jobs@[q]) == block_slots(f, a, k as int)[block_slots(f, a, k as int).len() - 1 - (q - j_in.len())],
                memo_view(memo@) == memo_view(old(memo)@).update(a as int, memo_view(old(memo)@)[a as int].update(k as int, Some(node))),
            decreases ins.len() - t,
        {
            let row = ins[t].0;
            let ghost plist = port_list(b@.inputs, b@.rows);
            proof {
                assert(pl[t as int].0 == row);
                assert(pl.len() == plist.len());
                assert(plist.reverse()[t as int] == plist[plist.len() - 1 - t]);
                assert(row < b@.rows);
            }
            let job = GenJob::Output { area_id: a, x: xo - 1, y: yo + row as i64, in_port: ins[t].1.clone(), out: node };
            proof {
                lemma_gen_push_job(f, graph_view(nodes@), memo_view(memo@), jobs@, nn, job);
                let q = plist.len() - 1 - t;
                assert(plist[q].0 == row);
                assert(pl[t as int].1 == ins@[t as int].1@);
                assert(plist[q].1 == ins@[t as int].1@);
                assert(has_port(b@.inputs, row as int));
                assert(input_at(f, a as int, k as int, (xo - 1) as i64, (yo + row as i64) as i64, ins@[t as int].1@));
                assert(memo_view(memo@)[a as int][k as int] == Some(node));
                assert(0 <= k < memo_view(memo@)[a as int].len());
                assert(job matches GenJob::Output { area_id: ja, x: jx, y: jy, in_port: jp, out: jo } && ja == a && jo
                    == node && jx == (xo - 1) as i64 && jy == (yo + row as i64) as i64 && jp@ == ins@[t as int].1@);
                assert(job_edge_ok(f, memo_view(memo@), job));
                lemma_edges_push_job(f, graph_view(nodes@), memo_view(memo@), jobs@, nn, job);
                let g1 = graph_view(nodes@);
                let m1 = memo_view(memo@);
                let s1 = jobs@ + extra;
                let s2 = jobs@.push(job) + extra;
                lemma_jobs_push_before(jobs@, extra, job);
                assert forall|a1: int| #![trigger m1[a1]] 0 <= a1 < m1.len() implies m1[a1].len() == f.areas[a1].blocks.len() by {}
                assert forall|a1: int, k1: int| 0 <= a1 < m1.len() && 0 <= k1 < m1[a1].len() && m1[a1][k1] is Some implies m1[a1][k1]->0
                    < g1.len() by {
                    assert(m1[a1][k1] matches Some(v) ==> 0 < v < g1.len());
                }
                lemma_fed_more_jobs(f, g1, m1, s1, s2, nn, a as int, k as int);
                assert forall|q1: int|
                    plist.len() - (t + 1) <= q1 < plist.len() implies #[trigger] fed_at(f, g1, m1, s2, nn, a as int, k as int, plist[q1].0 as int) by {
                    if q1 == q {
                        assert(s2[jobs@.len() as int] == job);
                        assert(pending_at(f, m1, s2[jobs@.len() as int], a as int, k as int, plist[q1].0 as int));
                    } else {
                        lemma_fed_at_more_jobs(f, g1, m1, s1, s2, nn, a as int, k as int, plist[q1].0 as int);
                    }
                }
            }
            proof {
                let bs = block_slots(f, a, k as int);
                let pl0 = port_list(b@.inputs, b@.rows);
                let i = bs.len() - 1 - (jobs@.len() - j_in.len());
                assert(i == pl0.len() - 1 - t);
                assert(bs[i] == Slot::Input { a, x: s[k as int].0 - 1, y: s[k as int].1 + pl0[i].0, port: pl0[i].1 });
                assert(slot_of(job) == bs[i]);
            }
            let ghost jb = jobs@;
            jobs.push(job);
            t += 1;
            proof {
                assert forall|q: int| j_in.len() <= q < jobs@.len() implies job_out(#[trigger] jobs@[q]) == node && productive(f, jobs@[q])
                    && slot_of(jobs@[q]) == block_slots(f, a, k as int)[block_slots(f, a, k as int).len() - 1 - (q - j_in.len())] by {
                    if q < jb.len() {
                        assert(jobs@[q] == jb[q]);
                    }
                }
            }
        }
        proof {
            let g1 = graph_view(nodes@);
            let m1 = memo_view(memo@);
            let s1 = jobs@ + extra;
            let plist = port_list(b@.inputs, b@.rows);
            assert(t == ins@.len());
            assert(pl.len() == ins@.len());
            assert(plist.reverse().len() == plist.len());
            assert forall|a1: int, k1: int, r: int|
                0 <= a1 < m1.len() && 0 <= k1 < m1[a1].len() && m1[a1][k1] is Some && is_input_row(f, a1, k1, r) && !(a1 == -1
                    && k1 == -1) implies #[trigger] fed_at(f, g1, m1, s1, nn, a1, k1, r) by {
                if a1 == a && k1 == k {
                    let n = if b@.rows < b@.inputs.len() { b@.rows as int } else { b@.inputs.len() as int };
                    lemma_ports_upto_covers(b@.inputs, n, r);
                    let q = choose|q: int| 0 <= q < ports_upto(b@.inputs, n).len() && (#[trigger] ports_upto(b@.inputs, n)[q]).0 == r;
                    assert(plist[q].0 == r);
                    assert(t == plist.len());
                    assert(plist.len() - t <= q < plist.len());
                    assert(fed_at(f, g1, m1, s1, nn, a as int, k as int, plist[q].0 as int));
                }
            }
            if let Some(c0) = b@.contains.0 {
                let q = choose|q: int| 0 <= q < j_mid.len() && j_mid[q] == (GenJob::Area { area_id: c0, out: node });
                assert(jobs@[q] == j_mid[q]);
            }
            if let Some(c1) = b@.contains.1 {
                let q = choose|q: int| 0 <= q < j_mid.len() && j_mid[q] == (GenJob::Area { area_id: c1, out: node });
                assert(jobs@[q] == j_mid[q]);
            }
            assert(sub_jobs(s[k as int].2.contains, node, jobs@));
        }
        node
    }
}


impl BlockFun {
    /// Empty node memos for every block of every area.
    fn empty_memo(&self) -> (r: Vec<Vec<Option<usize>>>)
        ensures
            memo_view(r@).len() == self@.areas.len(),
            forall|a: int| #![trigger memo_view(r@)[a]] 0 <= a < self@.areas.len() ==> memo_view(r@)[a].len() == self@.areas[a].blocks.len()
                && forall|k: int| 0 <= k < memo_view(r@)[a].len() ==> #[trigger] memo_view(r@)[a][k] is None,
    {
        let mut memo: Vec<Vec<Option<usize>>> = Vec::new();
        let mut a: usize = 0;
        while a < self.areas.len()
            invariant
                a <= self.areas@.len(),
                memo@.len() == a,
                forall|q: int| #![trigger memo_view(memo@)[q]] 0 <= q < a ==> memo_view(memo@)[q].len() == self@.areas[q].blocks.len()
                    && forall|k: int| 0 <= k < memo_view(memo@)[q].len() ==> #[trigger] memo_view(memo@)[q][k] is None,
            decreases self.areas.len() - a,
        {
            proof {
                assert(self@.areas[a as int] == self.areas@[a as int]@);
            }
            let n = self.areas[a].blocks.len();
            let mut v: Vec<Option<usize>> = Vec::new();
            let mut k: usize = 0;
            while k < n
                invariant
                    k <= n,
                    v@.len() == k,
                    forall|j: int| 0 <= j < k ==> #[trigger] v@[j] is None,
                decreases n - k,
            {
                v.push(None);
                k += 1;
            }
            let ghost m0 = memo@;
            memo.push(v);
            proof {
                assert forall|q: int| #![trigger memo_view(memo@)[q]] 0 <= q < a + 1 implies memo_view(memo@)[q].len() == self@.areas[q].blocks.len()
                    && forall|k: int| 0 <= k < memo_view(memo@)[q].len() ==> #[trigger] memo_view(memo@)[q][k] is None by {
                    if q < a {
                        assert(memo@[q] == m0[q]);
                        assert(memo_view(memo@)[q] == memo_view(m0)[q]);
                    }
                }
            }
            a += 1;
        }
        memo
    }

    /// The syntax tree of the program: the root `<r>` holds the tree of the
    /// main area; an area is an `<a>` node over its sinks (a `<res>` node for
    /// an unconnected output); a block node holds the blocks feeding its inputs
    /// and the trees of its sub areas. A block feeding several inputs is one
    /// shared node; an input fed by nothing gets a node of type `null_typ`.
    #[verifier::rlimit(100)]
    pub fn generate_tree(&self, null_typ: &str) -> (r: Result<ASTNodeRef, BlockDSPError>)
        requires
            self.wf(),
        ensures
            match lang_type(self@.lang, null_typ@) {
                None => r matches Err(BlockDSPError::UnknownLanguageType(s)) && s@ == null_typ@,
                Some(t) => r matches Ok(tree) && tree_ok(self@, tree@.nodes, tree@.idx, t.name) && tree_nodes_ok(
                    self@,
                    tree@.nodes,
                    t.name,
                ),
            },
    {
        let ti = match self.language.find_type(null_typ) {
            Some(ti) => ti,
            None => {
                return Err(BlockDSPError::UnknownLanguageType(null_typ.to_string()));
            },
        };
        let ghost f = self@;
        proof {
            assert(f.lang.types[ti as int] == type_spec(self.language.types@[ti as int]));
        }
        let null_name = self.language.types[ti].name.clone();
        let ghost nn = null_name@;
        let mut nodes: Vec<JASTNode> = Vec::new();
        proof {
            assert(graph_view(nodes@) =~= Seq::<NodeSpec>::empty());
        }
        let root = push_node(&mut nodes, 0, "<r>".to_owned(), String::new());
        let mut memo = self.empty_memo();
        let mut jobs: Vec<GenJob> = Vec::new();
        jobs.push(GenJob::Area { area_id: 0, out: root });
        let ghost c: nat = 2 * max_sinks(f.areas, f.areas.len() as int) + 1;
        proof {
            let g = graph_view(nodes@);
            assert(marker_node(g[0]));
            assert forall|i: int| 0 <= i < g.len() implies #[trigger] node_kind_ok(f, g[i], nn) by {
                assert(i == 0);
            }
            assert forall|i: int, k: int| #![trigger g[i].nodes[k]] 0 <= i < g.len() && 0 <= k < g[i].nodes.len() implies g[i].nodes[k].2
                < g.len() by {}
            assert(job_ok(jobs@[0], g.len(), f.areas.len()));
            assert(gen_inv(f, g, memo_view(memo@), jobs@, nn));
            let m = memo_view(memo@);
            assert forall|i: int|
                0 <= i < g.len() implies marker_node(#[trigger] g[i]) || null_node(g[i], nn) || exists|a: int, k: int|
                    0 <= a < m.len() && 0 <= k < m[a].len() && #[trigger] m[a][k] == Some(i as usize) by {
                assert(i == 0);
            }
            assert(job_edge_ok(f, m, jobs@[0]));
            assert(gen_edges(f, g, m, jobs@, nn));
            assert(fed_but(f, g, m, jobs@, nn, -1, -1));
        }
        let ghost mut am: Map<usize, (usize, Seq<(i64, i64, Option<usize>)>, Seq<usize>)> = Map::empty();
        let ghost mut sl: Map<usize, Seq<Slot>> = Map::empty().insert(0usize, seq![Slot::Sub { c: 0 }]);
        proof {
            let m = memo_view(memo@);
            assert forall|a: int, k: int| 0 <= a < m.len() && 0 <= k < m[a].len() implies #[trigger] m[a][k] is None by {
                assert(m[a].len() == f.areas[a].blocks.len());
            }
            assert(jobs@.drop_last() =~= Seq::<GenJob>::empty());
            reveal_with_fuel(pend, 2);
            assert(pend(f, jobs@, 0) =~= seq![jobs@[0]]);
            assert(node_slots_ok(f, graph_view(nodes@), m, nn, am, jobs@, 0, sl[0]));
            assert(slots_ok(f, graph_view(nodes@), m, nn, am, jobs@, sl));
            assert(slot_keys(f, m, am, sl));
        }
        while jobs.len() > 0
            invariant
                self.wf(),
                f == self@,
                nn == null_name@,
                lang_type(f.lang, null_typ@) == Some(f.lang.types[ti as int]),
                nn == f.lang.types[ti as int].name,
                c == 2 * max_sinks(f.areas, f.areas.len() as int) + 1,
                gen_inv(f, graph_view(nodes@), memo_view(memo@), jobs@, nn),
                gen_edges(f, graph_view(nodes@), memo_view(memo@), jobs@, nn),
                fed_but(f, graph_view(nodes@), memo_view(memo@), jobs@, nn, -1, -1),
                areas_pending(f, graph_view(nodes@), memo_view(memo@), jobs@, nn, am),
                root_area(graph_view(nodes@), am),
                subs_pending(f, graph_view(nodes@), memo_view(memo@), jobs@, am),
                slot_keys(f, memo_view(memo@), am, sl),
                slots_ok(f, graph_view(nodes@), memo_view(memo@), nn, am, jobs@, sl),
            decreases uninit(memo_view(memo@)), stack_weight(jobs@, c),
        {
            let ghost js0 = jobs@;
            let ghost m0 = memo_view(memo@);
            let ghost g0 = graph_view(nodes@);
            let job = match jobs.pop() {
                Some(j) => j,
                None => {
                    return Err(BlockDSPError::UnknownArea(0));
                },
            };
            proof {
                assert(jobs@ =~= js0.drop_last());
                assert(job == js0.last());
                assert(job_ok(js0[js0.len() - 1], g0.len(), f.areas.len()));
                assert(stack_weight(js0, c) == stack_weight(jobs@, c) + job_weight(job, c));
                assert forall|q: int| 0 <= q < jobs@.len() implies #[trigger] job_ok(jobs@[q], g0.len(), f.areas.len()) by {
                    assert(jobs@[q] == js0[q]);
                }
                assert(gen_body(f, g0, m0, jobs@, nn));
                assert(job_edge_ok(f, m0, js0[js0.len() - 1]));
                assert forall|q: int| 0 <= q < jobs@.len() implies #[trigger] job_edge_ok(f, m0, jobs@[q]) by {
                    assert(jobs@[q] == js0[q]);
                }
                assert(gen_edges(f, g0, m0, jobs@, nn));
                assert(jobs@ + seq![job] =~= js0);
                assert(jobs@.push(job) =~= js0);
                if g0[0].nodes.len() == 0 && js0.len() == 1 && js0[0] == (GenJob::Area { area_id: 0, out: 0 }) {
                    assert(job == js0[0]);
                    assert(jobs@.len() == 0);
                } else {
                    assert(root_done(g0, js0));
                    assert(job_out(js0[js0.len() - 1]) != 0);
                    assert forall|q: int| 0 <= q < jobs@.len() implies #[trigger] job_out(jobs@[q]) != 0 by {
                        assert(jobs@[q] == js0[q]);
                        assert(job_out(js0[q]) != 0);
                    }
                    assert(root_done(g0, jobs@));
                }
            }
            let ghost pj = job;
            let ghost jp = jobs@;
            proof {
                assert((pj is Area && job_out(pj) == 0 ==> pj == (GenJob::Area { area_id: 0, out: 0 })) && (!(pj is Area)
                    ==> g0[0].nodes.len() >= 1)) by {
                    if g0[0].nodes.len() == 0 && js0.len() == 1 && js0[0] == (GenJob::Area { area_id: 0, out: 0 }) {
                        assert(pj == js0[0]);
                    } else {
                        assert(root_done(g0, js0));
                        assert(job_out(js0[js0.len() - 1]) != 0);
                    }
                }
                assert(areas_pending(f, g0, m0, jp.push(pj), nn, am));
                assert(subs_pending(f, g0, m0, jp.push(pj), am));
                assert(slots_ok(f, g0, m0, nn, am, jp.push(pj), sl));
                assert forall|q: int| 0 <= q < jp.len() implies job_out(#[trigger] jp[q]) < g0.len() by {
                    assert(job_ok(jp[q], g0.len(), f.areas.len()));
                }
            }
            match job {
                GenJob::Node { node, out } => {
                    add_child(&mut nodes, out, String::new(), String::new(), node);
                    proof {
                        lemma_gen_child(f, g0, m0, jobs@, nn, out, Seq::empty(), Seq::empty(), node);
                        lemma_edges_child(f, g0, m0, jobs@, nn, out, (Seq::empty(), Seq::empty(), node));
                        lemma_fed_child(f, g0, m0, jobs@.push(pj), nn, out, (Seq::empty(), Seq::empty(), node));
                        lemma_fed_drop(f, graph_view(nodes@), m0, jobs@, pj, nn);
                        let gE = graph_view(nodes@);
                        lemma_graph_grows_child(g0, out, (Seq::empty(), Seq::empty(), node));
                        assert(gE[out as int].nodes[g0[out as int].nodes.len() as int] == (Seq::<char>::empty(), Seq::<char>::empty(), node));
                        assert(job_done(f, gE, m0, nn, pj));
                        lemma_memo_grows_refl(m0);
                        lemma_areas_step(f, g0, gE, m0, m0, jp, jobs@, pj, nn, am);
                        lemma_root_area_grow(g0, gE, am);
                        lemma_subs_step(f, g0, gE, m0, m0, jp, jobs@, pj, am, am);
                        assert(gE[out as int].nodes.drop_last() =~= g0[out as int].nodes);
                        lemma_slots_plain(f, g0, gE, m0, nn, am, jp, pj, sl);
                    }
                },
                GenJob::Area { area_id, out } => {
                    if area_id >= self.areas.len() {
                        return Err(BlockDSPError::UnknownArea(area_id));
                    }
                    proof {
                        assert(self@.areas[area_id as int] == self.areas@[area_id as int]@);
                        lemma_max_sinks(f.areas, f.areas.len() as int, area_id as int);
                    }
                    let sinks = self.areas[area_id].collect_sinks();
                    proof {
                        broadcast use vstd::seq_lib::group_to_multiset_ensures;
                        assert(sinks@.len() == sinks@.to_multiset().len());
                        assert(sinks@.len() == sink_count(f.areas[area_id as int]));
                        lemma_gen_push_node(f, g0, m0, jobs@, nn, NodeSpec {
                            id: 0,
                            typ: "<a>"@,
                            lbl: Seq::empty(),
                            nodes: Seq::empty(),
                        });
                    }
                    proof {
                        lemma_edges_push_node(f, g0, m0, jobs@, nn, NodeSpec {
                            id: 0,
                            typ: "<a>"@,
                            lbl: Seq::empty(),
                            nodes: Seq::empty(),
                        });
                        lemma_fed_push_node(f, g0, m0, jobs@.push(pj), nn, NodeSpec {
                            id: 0,
                            typ: "<a>"@,
                            lbl: Seq::empty(),
                            nodes: Seq::empty(),
                        });
                    }
                    let area_node = push_node(&mut nodes, 0, "<a>".to_owned(), String::new());
                    let ghost g1 = graph_view(nodes@);
                    proof {
                        assert(marker_node(g1[area_node as int]) && g1[area_node as int].typ == "<a>"@);
                        if !not_memo(m0, out) {
                            let (a1, k1) = choose|a1: int, k1: int|
                                0 <= a1 < m0.len() && 0 <= k1 < m0[a1].len() && #[trigger] m0[a1][k1] == Some(out);
                            assert(block_child_ok(f, g1, m0, nn, a1, k1, (Seq::empty(), Seq::empty(), area_node)));
                        }
                        lemma_edges_child(f, g1, m0, jobs@, nn, out, (Seq::empty(), Seq::empty(), area_node));
                        lemma_fed_child(f, g1, m0, jobs@.push(pj), nn, out, (Seq::empty(), Seq::empty(), area_node));
                        assert forall|a1: int, k1: int| 0 <= a1 < m0.len() && 0 <= k1 < m0[a1].len() implies #[trigger] m0[a1][k1]
                            != Some(area_node) by {
                            if m0[a1][k1] is Some {
                                assert(m0[a1][k1]->0 < g0.len());
                            }
                        }
                    }
                    add_child(&mut nodes, out, String::new(), String::new(), area_node);
                    proof {
                        lemma_gen_child(f, g1, m0, jobs@, nn, out, Seq::empty(), Seq::empty(), area_node);
                        let g2 = graph_view(nodes@);
                        if out == 0 {
                            assert(g2[0].nodes.len() == 1);
                            assert(g2[0].nodes[0].2 == area_node);
                            assert(jobs@.len() == 0);
                        }
                        assert(g2[0].nodes.len() == 1 && g2[0].nodes[0].2 < g2.len() && g2[g2[0].nodes[0].2 as int].typ == "<a>"@);
                        assert(stack_weight(jobs@, c) + c == stack_weight(js0, c));
                    }
                    let ghost base = stack_weight(jobs@, c);
                    let ghost ga = graph_view(nodes@);
                    let ghost mut rs: Seq<usize> = Seq::empty();
                    let ghost mut asl: Seq<Slot> = Seq::empty();
                    let ghost mut rsl: Map<usize, Seq<Slot>> = Map::empty();
                    proof {
                        assert(ga[area_node as int].nodes.len() == 0);
                        assert(ga[out as int].nodes.drop_last() =~= g0[out as int].nodes);
                        lemma_pend_none(f, jobs@, area_node);
                        assert(area_fill_ok(f, jobs@, area_node, asl, rsl, ga.len()));
                    }
                    proof {
                        lemma_graph_grows_push(g0, NodeSpec { id: 0, typ: "<a>"@, lbl: Seq::empty(), nodes: Seq::empty() });
                        lemma_graph_grows_child(g1, out, (Seq::empty(), Seq::empty(), area_node));
                        lemma_graph_grows_trans(g0, g1, ga);
                        lemma_graph_grows_prefix(ga, ga);
                        assert(out == 0 ==> area_id == 0 && ga[0].nodes.len() >= 1 && ga[0].nodes[0].2 == area_node);
                        assert(jobs@ == jp);
                    }
                    let mut t: usize = 0;
                    while t < sinks.len()
                        invariant
                            t <= sinks@.len(),
                            sinks@.len() <= max_sinks(f.areas, f.areas.len() as int),
                            c == 2 * max_sinks(f.areas, f.areas.len() as int) + 1,
                            area_id < f.areas.len(),
                            0 < area_node < graph_view(nodes@).len(),
                            gen_body(f, graph_view(nodes@), memo_view(memo@), jobs@, nn),
                            gen_edges(f, graph_view(nodes@), memo_view(memo@), jobs@, nn),
                            fed_but(f, graph_view(nodes@), memo_view(memo@), jobs@.push(pj), nn, -1, -1),
                            not_memo(m0, area_node),
                            root_done(graph_view(nodes@), jobs@),
                            memo_view(memo@) == m0,
                            stack_weight(jobs@, c) <= base + 2 * t,
                            graph_wf(g0),
                            graph_grows(g0, graph_view(nodes@)),
                            graph_grows(ga, graph_view(nodes@)),
                            areas_pending(f, g0, m0, jp.push(pj), nn, am),
                            subs_pending(f, g0, m0, jp.push(pj), am),
                            out < ga.len(),
                            ga[out as int].nodes.len() >= 1,
                            ga[out as int].nodes.last() == (Seq::<char>::empty(), Seq::<char>::empty(), area_node),
                            jp.len() <= jobs@.len(),
                            forall|q: int| 0 <= q < jp.len() ==> #[trigger] jobs@[q] == jp[q],
                            rs.len() == t,
                            forall|t2: int| 0 <= t2 < t ==> #[trigger] sink_pending(f, graph_view(nodes@), m0, jobs@, nn, area_id, area_node, sinks@[t2], rs[t2]),
                            area_node == g0.len(),
                            area_node < ga.len(),
                            marker_node(ga[area_node as int]),
                            ga[area_node as int].typ == "<a>"@,
                            sinks@.to_multiset() == sink_candidates(f.areas[area_id as int].blocks, f.areas[area_id as int].blocks.len() as int).to_multiset(),
                            sinks_sorted(sinks@),
                            out == 0 ==> area_id == 0 && ga[0].nodes.len() >= 1 && ga[0].nodes[0].2 == area_node,
                            out != 0 ==> g0[0].nodes.len() >= 1 && root_area(g0, am),
                            slots_ok(f, g0, m0, nn, am, jp.push(pj), sl),
                            slot_keys(f, m0, am, sl),
                            pj == (GenJob::Area { area_id, out }),
                            area_fill_ok(f, jobs@, area_node, asl, rsl, ga.len()),
                            asl == area_slots(f, area_id, sinks@, rs, t as int),
                            forall|t2: int|
                                0 <= t2 < t && (#[trigger] sinks@[t2]).2 is Some ==> rsl.contains_key(rs[t2]) && rsl[rs[t2]] == seq![
                                    Slot::Input { a: area_id, x: sinks@[t2].0 as int, y: sinks@[t2].1 as int, port: Seq::empty() },
                                ],
                            forall|r: usize| #[trigger] rsl.contains_key(r) ==> r < graph_view(nodes@).len() && graph_view(nodes@)[r as int].nodes.len() == 0,
                            forall|i: int| 0 <= i < ga.len() ==> #[trigger] graph_view(nodes@)[i] == ga[i],
                            forall|q: int| jp.len() <= q < jobs@.len() ==> job_out(#[trigger] jobs@[q]) == area_node || rsl.contains_key(job_out(jobs@[q])),
                            ga.len() == g0.len() + 1,
                            ga[area_node as int].nodes.len() == 0,
                            forall|u: int| 0 <= u < g0.len() && u != out ==> (#[trigger] ga[u]).nodes == g0[u].nodes,
                            ga[out as int].nodes.len() == g0[out as int].nodes.len() + 1,
                            ga[out as int].nodes.drop_last() == g0[out as int].nodes,
                        decreases sinks.len() - t,
                    {
                        let ghost gs = graph_view(nodes@);
                        let ghost js = jobs@;
                        let ghost rs0 = rs;
                        let ghost asl0 = asl;
                        let ghost rsl0 = rsl;
                        let (sx, sy, row) = sinks[t];
                        match row {
                            Some(_) => {
                                proof {
                                    lemma_gen_push_node(f, graph_view(nodes@), memo_view(memo@), jobs@, nn, NodeSpec {
                                        id: 0,
                                        typ: "<res>"@,
                                        lbl: Seq::empty(),
                                        nodes: Seq::empty(),
                                    });
                                }
                                let ghost gb = graph_view(nodes@);
                                proof {
                                    lemma_edges_push_node(f, gb, m0, jobs@, nn, NodeSpec {
                                        id: 0,
                                        typ: "<res>"@,
                                        lbl: Seq::empty(),
                                        nodes: Seq::empty(),
                                    });
                                    lemma_fed_push_node(f, gb, m0, jobs@.push(pj), nn, NodeSpec {
                                        id: 0,
                                        typ: "<res>"@,
                                        lbl: Seq::empty(),
                                        nodes: Seq::empty(),
                                    });
                                }
                                let res = push_node(&mut nodes, 0, "<res>".to_owned(), String::new());
                                let j1 = GenJob::Output { area_id, x: sx, y: sy, in_port: String::new(), out: res };
                                proof {
                                    lemma_gen_push_job(f, graph_view(nodes@), memo_view(memo@), jobs@, nn, j1);
                                    lemma_stack_push(jobs@, j1, c);
                                    assert forall|a1: int, k1: int| 0 <= a1 < m0.len() && 0 <= k1 < m0[a1].len() implies #[trigger] m0[a1][k1]
                                        != Some(res) by {
                                        if m0[a1][k1] is Some {
                                            assert(m0[a1][k1]->0 < gb.len());
                                        }
                                    }
                                    assert(job_edge_ok(f, m0, j1));
                                    lemma_edges_push_job(f, graph_view(nodes@), memo_view(memo@), jobs@, nn, j1);
                                    lemma_jobs_push_before(jobs@, seq![pj], j1);
                                    assert(jobs@ + seq![pj] =~= jobs@.push(pj));
                                    assert(jobs@.push(j1) + seq![pj] =~= jobs@.push(j1).push(pj));
                                    lemma_fed_more_jobs(f, graph_view(nodes@), m0, jobs@.push(pj), jobs@.push(j1).push(pj), nn, -1, -1);
                                }
                                jobs.push(j1);
                                let j2 = GenJob::Node { node: res, out: area_node };
                                proof {
                                    lemma_gen_push_job(f, graph_view(nodes@), memo_view(memo@), jobs@, nn, j2);
                                    lemma_stack_push(jobs@, j2, c);
                                    lemma_edges_push_job(f, graph_view(nodes@), memo_view(memo@), jobs@, nn, j2);
                                    lemma_jobs_push_before(jobs@, seq![pj], j2);
                                    assert(jobs@ + seq![pj] =~= jobs@.push(pj));
                                    assert(jobs@.push(j2) + seq![pj] =~= jobs@.push(j2).push(pj));
                                    lemma_fed_more_jobs(f, graph_view(nodes@), m0, jobs@.push(pj), jobs@.push(j2).push(pj), nn, -1, -1);
                                }
                                jobs.push(j2);
                                proof {
                                    let gE = graph_view(nodes@);
                                    lemma_graph_grows_push(gs, NodeSpec { id: 0, typ: "<res>"@, lbl: Seq::empty(), nodes: Seq::empty() });
                                    assert(is_node_job(jobs@[jobs@.len() - 1], res, area_node));
                                    assert(is_out_job(jobs@[jobs@.len() - 2], area_id, sx, sy, res));
                                    assert(sink_pending(f, gE, m0, jobs@, nn, area_id, area_node, sinks@[t as int], res));
                                    rs = rs0.push(res);
                                    assert forall|q: int| 0 <= q < js.len() implies job_out(#[trigger] js[q]) < res by {
                                        assert(job_ok(js[q], gs.len(), f.areas.len()));
                                    }
                                    let jj1 = jobs@[jobs@.len() - 2];
                                    let jj2 = jobs@[jobs@.len() - 1];
                                    assert(jobs@ =~= js.push(jj1).push(jj2));
                                    lemma_fill_res(f, js, jj1, jj2, area_node, asl0, rsl0, ga.len() as nat, res);
                                    asl = seq![slot_of(jj2)] + asl0;
                                    rsl = rsl0.insert(res, seq![slot_of(jj1)]);
                                    lemma_area_slots_ext(f, area_id, sinks@, rs0, rs, t as int);
                                    assert(asl =~= area_slots(f, area_id, sinks@, rs, t + 1));
                                }
                            },
                            None => {
                                let j1 = GenJob::Sink { area_id, x: sx, y: sy, out: area_node };
                                proof {
                                    lemma_gen_push_job(f, graph_view(nodes@), memo_view(memo@), jobs@, nn, j1);
                                    lemma_stack_push(jobs@, j1, c);
                                    lemma_edges_push_job(f, graph_view(nodes@), memo_view(memo@), jobs@, nn, j1);
                                    lemma_jobs_push_before(jobs@, seq![pj], j1);
                                    assert(jobs@ + seq![pj] =~= jobs@.push(pj));
                                    assert(jobs@.push(j1) + seq![pj] =~= jobs@.push(j1).push(pj));
                                    lemma_fed_more_jobs(f, graph_view(nodes@), m0, jobs@.push(pj), jobs@.push(j1).push(pj), nn, -1, -1);
                                }
                                jobs.push(j1);
                                proof {
                                    lemma_graph_grows_prefix(gs, gs);
                                    assert(is_sink_job(jobs@[jobs@.len() - 1], area_id, sx, sy, area_node));
                                    assert(sink_pending(f, gs, m0, jobs@, nn, area_id, area_node, sinks@[t as int], 0));
                                    rs = rs0.push(0);
                                    let jj1 = jobs@[jobs@.len() - 1];
                                    assert(jobs@ =~= js.push(jj1));
                                    lemma_fill_sink(f, js, jj1, area_node, asl0, rsl0, ga.len() as nat);
                                    asl = if productive(f, jj1) { seq![slot_of(jj1)] + asl0 } else { asl0 };
                                    lemma_area_slots_ext(f, area_id, sinks@, rs0, rs, t as int);
                                    assert(asl =~= area_slots(f, area_id, sinks@, rs, t + 1));
                                }
                            },
                        }
                        proof {
                            let gE = graph_view(nodes@);
                            assert(graph_grows(gs, gE));
                            assert forall|q: int| 0 <= q < js.len() implies job_in(jobs@, #[trigger] js[q]) by {
                                assert(jobs@[q] == js[q]);
                            }
                            lemma_memo_grows_refl(m0);
                            assert forall|t2: int| 0 <= t2 < t + 1 implies #[trigger] sink_pending(f, gE, m0, jobs@, nn, area_id, area_node, sinks@[t2], rs[t2]) by {
                                if t2 < t {
                                    assert(rs[t2] == rs0[t2]);
                                    lemma_sink_pending_grow(f, gs, gE, m0, m0, js, jobs@, nn, area_id, area_node, sinks@[t2], rs0[t2]);
                                }
                            }
                            lemma_graph_grows_trans(g0, gs, gE);
                            lemma_graph_grows_trans(ga, gs, gE);
                            assert forall|q: int| 0 <= q < jp.len() implies #[trigger] jobs@[q] == jp[q] by {
                                assert(jobs@[q] == js[q]);
                            }
                            assert forall|i: int| 0 <= i < ga.len() implies #[trigger] gE[i] == ga[i] by {
                                assert(gs[i] == ga[i]);
                            }
                            assert forall|r: usize| #[trigger] rsl.contains_key(r) implies r < gE.len() && gE[r as int].nodes.len() == 0 by {
                                if rsl0.contains_key(r) {
                                    assert(gE[r as int] == gs[r as int]);
                                }
                            }
                            assert forall|q: int| jp.len() <= q < jobs@.len() implies job_out(#[trigger] jobs@[q]) == area_node || rsl.contains_key(
                                job_out(jobs@[q]),
                            ) by {
                                if q < js.len() {
                                    assert(jobs@[q] == js[q]);
                                    if job_out(js[q]) != area_node {
                                        assert(rsl0.contains_key(job_out(js[q])));
                                    }
                                }
                            }
                            assert forall|t2: int|
                                0 <= t2 < t + 1 && (#[trigger] sinks@[t2]).2 is Some implies rsl.contains_key(rs[t2]) && rsl[rs[t2]] == seq![
                                    Slot::Input { a: area_id, x: sinks@[t2].0 as int, y: sinks@[t2].1 as int, port: Seq::empty() },
                                ] by {
                                if t2 < t {
                                    assert(rs[t2] == rs0[t2]);
                                    assert(rsl0.contains_key(rs0[t2]));
                                }
                            }
                        }
                        t += 1;
                    }
                    proof {
                        lemma_fed_drop(f, graph_view(nodes@), m0, jobs@, pj, nn);
                        let gE = graph_view(nodes@);
                        let e = (area_id, sinks@, rs);
                        assert(entry_upto(f, gE, m0, jobs@, nn, area_node, e, sinks@.len() as int)) by {
                            assert(gE[area_node as int].typ == ga[area_node as int].typ);
                        }
                        lemma_memo_grows_refl(m0);
                        assert(job_done(f, gE, m0, nn, pj));
                        lemma_areas_step(f, g0, gE, m0, m0, jp, jobs@, pj, nn, am);
                        let am2 = am.insert(area_node, e);
                        assert forall|v: usize| #[trigger] am2.contains_key(v) implies entry_upto(f, gE, m0, jobs@, nn, v, am2[v], am2[v].1.len() as int) by {
                            if v != area_node {
                                assert(am.contains_key(v));
                                assert(am2[v] == am[v]);
                            }
                        }
                        if out == 0 {
                            assert(gE[0].nodes[0] == ga[0].nodes[0]);
                        } else {
                            let k0 = g0[0].nodes[0].2;
                            assert(gE[0].nodes[0] == g0[0].nodes[0]);
                            assert(entry_upto(f, g0, m0, jp.push(pj), nn, k0, am[k0], am[k0].1.len() as int));
                            assert(am2[k0] == am[k0]);
                        }
                        assert forall|w: usize| #[trigger] am.contains_key(w) implies am2.contains_key(w) && am2[w] == am[w] by {
                            assert(entry_upto(f, g0, m0, jp.push(pj), nn, w, am[w], am[w].1.len() as int));
                        }
                        let lc = ga[out as int].nodes.len() - 1;
                        assert(gE[out as int].nodes[lc] == ga[out as int].nodes[lc]);
                        assert(has_child(gE, out as int, (Seq::empty(), Seq::empty(), area_node)));
                        assert(am2.contains_key(area_node) && am2[area_node].0 == area_id);
                        assert(sub_done(gE, am2, out, area_id));
                        lemma_subs_step(f, g0, gE, m0, m0, jp, jobs@, pj, am, am2);
                        assert forall|u: int| 0 <= u < g0.len() && u != out implies (#[trigger] gE[u]).nodes == g0[u].nodes by {
                            assert(gE[u] == ga[u]);
                        }
                        assert(gE[out as int] == ga[out as int]);
                        assert(gE[area_node as int] == ga[area_node as int]);
                        sl = lemma_area_finish(f, g0, gE, m0, nn, am, jp, jobs@, pj, sl, asl, rsl, area_node, e);
                        am = am2;
                    }
                },
                GenJob::Sink { area_id, x, y, out } => {
                    if area_id >= self.areas.len() {
                        return Err(BlockDSPError::UnknownArea(area_id));
                    }
                    proof {
                        assert(self@.areas[area_id as int] == self.areas@[area_id as int]@);
                    }
                    match self.areas[area_id].cover_at(x, y) {
                        Some(k) => {
                            let ghost ex = seq![pj];
                            let node = self.block_node(area_id, k, &mut nodes, &mut memo, &mut jobs, Ghost(nn), Ghost(ex));
                            let ghost g1 = graph_view(nodes@);
                            proof {
                                let m1 = memo_view(memo@);
                                assert(jobs@ + seq![pj] =~= jobs@.push(pj));
                                lemma_fed_child(f, g1, m1, jobs@.push(pj), nn, out, (Seq::empty(), Seq::empty(), node));
                                assert forall|a1: int, k1: int| 0 <= a1 < m1.len() && 0 <= k1 < m1[a1].len() implies #[trigger] m1[a1][k1]
                                    != Some(out) by {
                                    assert(m0[a1][k1] != Some(out));
                                    assert(m1[a1].len() == m0[a1].len());
                                }
                                lemma_edges_child(f, g1, m1, jobs@, nn, out, (Seq::empty(), Seq::empty(), node));
                            }
                            add_child(&mut nodes, out, String::new(), String::new(), node);
                            proof {
                                lemma_gen_child(f, g1, memo_view(memo@), jobs@, nn, out, Seq::empty(), Seq::empty(), node);
                                lemma_fed_drop(f, graph_view(nodes@), memo_view(memo@), jobs@, pj, nn);
                                let gE = graph_view(nodes@);
                                let mE = memo_view(memo@);
                                lemma_graph_grows_prefix(g0, g1);
                                lemma_graph_grows_child(g1, out, (Seq::empty(), Seq::empty(), node));
                                lemma_graph_grows_trans(g0, g1, gE);
                                lemma_memo_grows_fill(m0, mE, g0.len());
                                assert(gE[out as int].nodes[g1[out as int].nodes.len() as int] == (Seq::<char>::empty(), Seq::<char>::empty(), node));
                                assert(job_done(f, gE, mE, nn, pj));
                                lemma_areas_step(f, g0, gE, m0, mE, jp, jobs@, pj, nn, am);
                                lemma_root_area_grow(g0, gE, am);
                                lemma_subs_block(f, g0, gE, m0, mE, jp, jobs@, pj, am, area_id as int, k as int, node);
                                assert(gE[out as int].nodes.drop_last() =~= g0[out as int].nodes);
                                assert(gE[out as int].nodes.last() == (Seq::<char>::empty(), Seq::<char>::empty(), node));
                                sl = lemma_slots_block(f, g0, gE, m0, mE, nn, am, jp, jobs@, pj, sl, area_id as int, k as int, node);
                            }
                        },
                        None => {
                            proof {
                                lemma_fed_drop(f, g0, m0, jobs@, pj, nn);
                                lemma_graph_grows_prefix(g0, g0);
                                lemma_memo_grows_refl(m0);
                                assert(job_done(f, g0, m0, nn, pj));
                                lemma_areas_step(f, g0, g0, m0, m0, jp, jobs@, pj, nn, am);
                                lemma_subs_step(f, g0, g0, m0, m0, jp, jobs@, pj, am, am);
                                lemma_slots_plain(f, g0, g0, m0, nn, am, jp, pj, sl);
                            }
                        },
                    }
                },
                GenJob::Output { area_id, x, y, in_port, out } => {
                    if area_id >= self.areas.len() {
                        return Err(BlockDSPError::UnknownArea(area_id));
                    }
                    proof {
                        assert(self@.areas[area_id as int] == self.areas@[area_id as int]@);
                    }
                    match self.areas[area_id].cover_at(x, y) {
                        Some(k) => {
                            let ghost ex = seq![pj];
                            let node = self.block_node(area_id, k, &mut nodes, &mut memo, &mut jobs, Ghost(nn), Ghost(ex));
                            let e = &self.areas[area_id].blocks[k];
                            let ghost g1 = graph_view(nodes@);
                            let ghost m1 = memo_view(memo@);
                            proof {
                                assert(jobs@ + seq![pj] =~= jobs@.push(pj));
                                if not_memo(m0, out) {
                                    assert forall|a1: int, k1: int| 0 <= a1 < m1.len() && 0 <= k1 < m1[a1].len() implies #[trigger] m1[a1][k1]
                                        != Some(out) by {
                                        assert(m0[a1][k1] != Some(out));
                                        assert(m1[a1].len() == m0[a1].len());
                                    }
                                } else {
                                    let k0 = choose|k0: int|
                                        0 <= k0 < m0[area_id as int].len() && #[trigger] m0[area_id as int][k0] == Some(out) && input_at(
                                            f,
                                            area_id as int,
                                            k0,
                                            x,
                                            y,
                                            in_port@,
                                        );
                                    assert(m1[area_id as int][k0] == m0[area_id as int][k0]);
                                }
                            }
                            proof {
                                let s = f.areas[area_id as int].blocks;
                                assert(s[k as int].0 == e.0 && s[k as int].1 == e.1);
                                assert(is_first_cover(s, x as int, y as int, choose|i: int| is_first_cover(s, x as int, y as int, i)));
                                assert(covers(s[k as int], x as int, y as int));
                                assert(in_domain(s[k as int].0 as int, s[k as int].1 as int, s[k as int].2.rows as int));
                            }
                            let row = (y - e.1) as usize;
                            let mut named: Option<String> = None;
                            if row < e.2.outputs.len() {
                                match &e.2.outputs[row] {
                                    Some(nm) => {
                                        named = Some(nm.clone());
                                    },
                                    None => {},
                                }
                            }
                            let ghost s = f.areas[area_id as int].blocks;
                            let ghost r2 = y - s[k as int].1;
                            proof {
                                assert(r2 == row as int);
                                assert(named is Some <==> has_port(s[k as int].2.outputs, r2));
                                assert(named matches Some(nm) ==> nm@ == s[k as int].2.outputs[r2]->0);
                                assert(cell_index(s, x as int, y as int) == Some(k as int));
                            }
                            match named {
                                Some(nm) => {
                                    proof {
                                        assert(source_ok(f, g1, m1, nn, area_id as int, x as int, y as int, nm@, node));
                                        if !not_memo(m1, out) {
                                            let k0 = choose|k0: int|
                                                0 <= k0 < m0[area_id as int].len() && #[trigger] m0[area_id as int][k0] == Some(out)
                                                    && input_at(f, area_id as int, k0, x, y, in_port@);
                                            assert(m1[area_id as int][k0] == Some(out));
                                            assert(block_child_ok(f, g1, m1, nn, area_id as int, k0, (in_port@, nm@, node)));
                                        }
                                        lemma_edges_child(f, g1, m1, jobs@, nn, out, (in_port@, nm@, node));
                                        lemma_fed_child(f, g1, m1, jobs@.push(pj), nn, out, (in_port@, nm@, node));
                                    }
                                    let ghost ip = in_port@;
                                    add_child(&mut nodes, out, in_port, nm, node);
                                    proof {
                                        lemma_gen_child(f, g1, memo_view(memo@), jobs@, nn, out, ip, nm@, node);
                                        let gf = graph_view(nodes@);
                                        assert(gf[out as int].nodes.last() == (ip, nm@, node));
                                        assert(source_ok(f, gf, m1, nn, area_id as int, x as int, y as int, nm@, node));
                                        lemma_output_fed(f, gf, m1, nn, pj, (ip, nm@, node));
                                        lemma_fed_drop(f, gf, m1, jobs@, pj, nn);
                                        lemma_graph_grows_prefix(g0, g1);
                                        lemma_graph_grows_child(g1, out, (ip, nm@, node));
                                        lemma_graph_grows_trans(g0, g1, gf);
                                        lemma_memo_grows_fill(m0, m1, g0.len());
                                        assert(gf[out as int].nodes[g1[out as int].nodes.len() as int] == (ip, nm@, node));
                                        assert(job_done(f, gf, m1, nn, pj));
                                        lemma_areas_step(f, g0, gf, m0, m1, jp, jobs@, pj, nn, am);
                                        lemma_root_area_grow(g0, gf, am);
                                        lemma_subs_block(f, g0, gf, m0, m1, jp, jobs@, pj, am, area_id as int, k as int, node);
                                        assert(gf[out as int].nodes.drop_last() =~= g0[out as int].nodes);
                                        sl = lemma_slots_block(f, g0, gf, m0, m1, nn, am, jp, jobs@, pj, sl, area_id as int, k as int, node);
                                    }
                                },
                                None => {
                                    proof {
                                        lemma_gen_push_node(f, g1, memo_view(memo@), jobs@, nn, NodeSpec {
                                            id: 0,
                                            typ: nn,
                                            lbl: Seq::empty(),
                                            nodes: Seq::empty(),
                                        });
                                    }
                                    let nl = push_node(&mut nodes, 0, null_name.clone(), String::new());
                                    let ghost g2 = graph_view(nodes@);
                                    proof {
                                        lemma_edges_push_node(f, g1, m1, jobs@, nn, NodeSpec {
                                            id: 0,
                                            typ: nn,
                                            lbl: Seq::empty(),
                                            nodes: Seq::empty(),
                                        });
                                        assert(null_node(g2[nl as int], nn));
                                        assert(source_ok(f, g2, m1, nn, area_id as int, x as int, y as int, Seq::empty(), nl));
                                        if !not_memo(m1, out) {
                                            let k0 = choose|k0: int|
                                                0 <= k0 < m0[area_id as int].len() && #[trigger] m0[area_id as int][k0] == Some(out)
                                                    && input_at(f, area_id as int, k0, x, y, in_port@);
                                            assert(m1[area_id as int][k0] == Some(out));
                                            assert(block_child_ok(f, g2, m1, nn, area_id as int, k0, (in_port@, Seq::empty(), nl)));
                                        }
                                        lemma_edges_child(f, g2, m1, jobs@, nn, out, (in_port@, Seq::empty(), nl));
                                        lemma_fed_push_node(f, g1, m1, jobs@.push(pj), nn, NodeSpec {
                                            id: 0,
                                            typ: nn,
                                            lbl: Seq::empty(),
                                            nodes: Seq::empty(),
                                        });
                                        lemma_fed_child(f, g2, m1, jobs@.push(pj), nn, out, (in_port@, Seq::empty(), nl));
                                    }
                                    let ghost ip = in_port@;
                                    add_child(&mut nodes, out, in_port, String::new(), nl);
                                    proof {
                                        lemma_gen_child(f, g2, memo_view(memo@), jobs@, nn, out, ip, Seq::empty(), nl);
                                        let gf = graph_view(nodes@);
                                        assert(gf[out as int].nodes.last() == (ip, Seq::<char>::empty(), nl));
                                        assert(gf[nl as int].id == g2[nl as int].id && gf[nl as int].typ == g2[nl as int].typ
                                            && gf[nl as int].lbl == g2[nl as int].lbl);
                                        assert(source_ok(f, gf, m1, nn, area_id as int, x as int, y as int, Seq::empty(), nl));
                                        lemma_output_fed(f, gf, m1, nn, pj, (ip, Seq::empty(), nl));
                                        lemma_fed_drop(f, gf, m1, jobs@, pj, nn);
                                        lemma_graph_grows_prefix(g0, g1);
                                        lemma_graph_grows_push(g1, NodeSpec { id: 0, typ: nn, lbl: Seq::empty(), nodes: Seq::empty() });
                                        lemma_graph_grows_child(g2, out, (ip, Seq::empty(), nl));
                                        lemma_graph_grows_trans(g0, g1, g2);
                                        lemma_graph_grows_trans(g0, g2, gf);
                                        lemma_memo_grows_fill(m0, m1, g0.len());
                                        assert(gf[out as int].nodes[g2[out as int].nodes.len() as int] == (ip, Seq::<char>::empty(), nl));
                                        assert(job_done(f, gf, m1, nn, pj));
                                        lemma_areas_step(f, g0, gf, m0, m1, jp, jobs@, pj, nn, am);
                                        lemma_root_area_grow(g0, gf, am);
                                        lemma_subs_block(f, g0, gf, m0, m1, jp, jobs@, pj, am, area_id as int, k as int, node);
                                        assert(gf[out as int].nodes.drop_last() =~= g0[out as int].nodes);
                                        sl = lemma_slots_block(f, g0, gf, m0, m1, nn, am, jp, jobs@, pj, sl, area_id as int, k as int, node);
                                    }
                                },
                            }
                        },
                        None => {
                            proof {
                                lemma_gen_push_node(f, g0, m0, jobs@, nn, NodeSpec {
                                    id: 0,
                                    typ: nn,
                                    lbl: Seq::empty(),
                                    nodes: Seq::empty(),
                                });
                            }
                            let nl = push_node(&mut nodes, 0, null_name.clone(), String::new());
                            let ghost g2 = graph_view(nodes@);
                            proof {
                                lemma_edges_push_node(f, g0, m0, jobs@, nn, NodeSpec {
                                    id: 0,
                                    typ: nn,
                                    lbl: Seq::empty(),
                                    nodes: Seq::empty(),
                                });
                                assert(null_node(g2[nl as int], nn));
                                assert(cell_index(f.areas[area_id as int].blocks, x as int, y as int) is None);
                                assert(source_ok(f, g2, m0, nn, area_id as int, x as int, y as int, Seq::empty(), nl));
                                if !not_memo(m0, out) {
                                    let k0 = choose|k0: int|
                                        0 <= k0 < m0[area_id as int].len() && #[trigger] m0[area_id as int][k0] == Some(out)
                                            && input_at(f, area_id as int, k0, x, y, in_port@);
                                    assert(block_child_ok(f, g2, m0, nn, area_id as int, k0, (in_port@, Seq::empty(), nl)));
                                }
                                lemma_edges_child(f, g2, m0, jobs@, nn, out, (in_port@, Seq::empty(), nl));
                                lemma_fed_push_node(f, g0, m0, jobs@.push(pj), nn, NodeSpec {
                                    id: 0,
                                    typ: nn,
                                    lbl: Seq::empty(),
                                    nodes: Seq::empty(),
                                });
                                lemma_fed_child(f, g2, m0, jobs@.push(pj), nn, out, (in_port@, Seq::empty(), nl));
                            }
                            let ghost ip = in_port@;
                            add_child(&mut nodes, out, in_port, String::new(), nl);
                            proof {
                                lemma_gen_child(f, g2, m0, jobs@, nn, out, ip, Seq::empty(), nl);
                                let gf = graph_view(nodes@);
                                assert(gf[out as int].nodes.last() == (ip, Seq::<char>::empty(), nl));
                                assert(gf[nl as int].id == g2[nl as int].id && gf[nl as int].typ == g2[nl as int].typ
                                    && gf[nl as int].lbl == g2[nl as int].lbl);
                                assert(source_ok(f, gf, m0, nn, area_id as int, x as int, y as int, Seq::empty(), nl));
                                lemma_output_fed(f, gf, m0, nn, pj, (ip, Seq::empty(), nl));
                                lemma_fed_drop(f, gf, m0, jobs@, pj, nn);
                                lemma_graph_grows_push(g0, NodeSpec { id: 0, typ: nn, lbl: Seq::empty(), nodes: Seq::empty() });
                                lemma_graph_grows_child(g2, out, (ip, Seq::empty(), nl));
                                lemma_graph_grows_trans(g0, g2, gf);
                                lemma_memo_grows_refl(m0);
                                assert(gf[out as int].nodes[g2[out as int].nodes.len() as int] == (ip, Seq::<char>::empty(), nl));
                                assert(job_done(f, gf, m0, nn, pj));
                                lemma_areas_step(f, g0, gf, m0, m0, jp, jobs@, pj, nn, am);
                                lemma_root_area_grow(g0, gf, am);
                                lemma_subs_step(f, g0, gf, m0, m0, jp, jobs@, pj, am, am);
                                assert(gf[out as int].nodes.drop_last() =~= g0[out as int].nodes);
                                lemma_slots_plain(f, g0, gf, m0, nn, am, jp, pj, sl);
                            }
                        },
                    }
                },
            }
        }
        proof {
            let g = graph_view(nodes@);
            assert(root_done(g, jobs@));
            assert(block_nodes_ok(f, g, memo_view(memo@), nn));
        }
        let tree = ASTNodeRef::new_ref(nodes, root);
        proof {
            assert(block_nodes_ok(f, tree@.nodes, memo_view(memo@), nn));
            let t = lang_type(self@.lang, null_typ@)->0;
            assert(t.name == nn);
            assert(tree_ok(self@, tree@.nodes, tree@.idx, t.name));
            assert(block_nodes_ok(self@, tree@.nodes, memo_view(memo@), t.name));
            let m = memo_view(memo@);
            let g = tree@.nodes;
            assert forall|a: int, k: int, r: int|
                #![trigger m[a][k], is_input_row(f, a, k, r)]
                0 <= a < m.len() && 0 <= k < m[a].len() && m[a][k] is Some && is_input_row(f, a, k, r) implies exists|c: int|
                    0 <= c < g[m[a][k]->0 as int].nodes.len() && #[trigger] input_child(
                        f,
                        g,
                        m,
                        nn,
                        a,
                        k,
                        r,
                        g[m[a][k]->0 as int].nodes[c],
                    ) by {
                assert(fed_at(f, g, m, jobs@, nn, a, k, r));
            }
            assert(inputs_fed(self@, tree@.nodes, memo_view(memo@), t.name));
            assert(jobs@ =~= Seq::<GenJob>::empty());
            lemma_areas_done(f, g, m, nn, am);
            lemma_subs_done(f, g, m, am);
            assert forall|v: usize| #[trigger] sl.contains_key(v) implies v < g.len() && g[v as int].nodes.len() == sl[v].len()
                && forall|i: int| 0 <= i < sl[v].len() ==> #[trigger] child_fits(f, g, m, nn, am, sl[v][i], g[v as int].nodes[i]) by {
                assert(node_slots_ok(f, g, m, nn, am, jobs@, v, sl[v]));
                assert(pend(f, jobs@, v) == Seq::<GenJob>::empty());
            }
            assert(shape_with(f, g, m, nn, am, sl));
            assert(areas_ok(self@, tree@.nodes, m, t.name, am));
            assert(root_area(tree@.nodes, am));
            assert(tree_nodes_ok(self@, tree@.nodes, t.name));
        }
        let r = Ok(tree);
        proof {
            assert(r matches Ok(tree) && tree_ok(self@, tree@.nodes, tree@.idx, lang_type(self@.lang, null_typ@)->0.name));
        }
        r
    }
}

/// Attaching a child below a node keeps the bounds; below the root it makes
/// the root's only child.
proof fn lemma_gen_child(
    f: FunSpec,
    g: Seq<NodeSpec>,
    m: Seq<Seq<Option<usize>>>,
    js: Seq<GenJob>,
    nn: Seq<char>,
    out: usize,
    inp: Seq<char>,
    outp: Seq<char>,
    child: usize,
)
    requires
        gen_body(f, g, m, js, nn),
        out < g.len(),
        child < g.len(),
        (out != 0 && root_done(g, js)) || (out == 0 && g[0].nodes.len() == 0 && js.len() == 0 && g[child as int].typ
            == "<a>"@),
        graph_wf(g.update(out as int, NodeSpec { nodes: g[out as int].nodes.push((inp, outp, child)), ..g[out as int] })),
    ensures
        gen_body(
            f,
            g.update(out as int, NodeSpec { nodes: g[out as int].nodes.push((inp, outp, child)), ..g[out as int] }),
            m,
            js,
            nn,
        ),
        root_done(
            g.update(out as int, NodeSpec { nodes: g[out as int].nodes.push((inp, outp, child)), ..g[out as int] }),
            js,
        ),
{
    let g2 = g.update(out as int, NodeSpec { nodes: g[out as int].nodes.push((inp, outp, child)), ..g[out as int] });
    assert forall|i: int| 0 <= i < g2.len() implies #[trigger] node_kind_ok(f, g2[i], nn) by {
        assert(node_kind_ok(f, g[i], nn));
        if i == out {
            assert(g2[i].id == g[i].id && g2[i].typ == g[i].typ && g2[i].lbl == g[i].lbl);
            if exists|a: int, k: int| #[trigger] node_of_block(f, g[i], a, k) {
                let (a, k) = choose|a: int, k: int| #[trigger] node_of_block(f, g[i], a, k);
                assert(node_of_block(f, g2[i], a, k));
            }
        }
    }
    assert forall|a: int, k: int| #![trigger m[a][k]] 0 <= a < m.len() && 0 <= k < m[a].len() implies (m[a][k] matches Some(
        v,
    ) ==> 0 < v < g2.len()) by {}
    assert forall|q: int| 0 <= q < js.len() implies #[trigger] job_ok(js[q], g2.len(), f.areas.len()) by {
        assert(job_ok(js[q], g.len(), f.areas.len()));
    }
    if out != 0 {
        assert(g2[0] == g[0]);
        assert(g2[g[0].nodes[0].2 as int].typ == g[g[0].nodes[0].2 as int].typ);
    } else {
        assert(g2[0].nodes =~= seq![(inp, outp, child)]);
    }
}


/// What a view of block code shows: the areas with their headers and sizes,
/// the blocks at their origins, the origin of every occupied cell, and a
/// counter of changes.
pub trait BlockCodeView {
    fn area_header(&self, id: usize) -> Option<&str>;

    fn area_size(&self, id: usize) -> (usize, usize);

    fn block_at(&self, id: usize, x: i64, y: i64) -> Option<&Block>;

    fn origin_at(&self, id: usize, x: i64, y: i64) -> Option<(i64, i64)>;

    fn generation(&self) -> u64;
}

impl BlockCodeView for BlockFun {
    fn area_header(&self, id: usize) -> (r: Option<&str>)
        ensures
            id < self@.areas.len() ==> r is Some && r->0@ == self@.areas[id as int].header,
            id >= self@.areas.len() ==> r is None,
    {
        if id < self.areas.len() {
            proof {
                assert(self@.areas[id as int] == self.areas@[id as int]@);
            }
            Some(self.areas[id].header.as_str())
        } else {
            None
        }
    }

    fn area_size(&self, id: usize) -> (r: (usize, usize))
        ensures
            r == if id < self@.areas.len() {
                self@.areas[id as int].size
            } else {
                (0usize, 0usize)
            },
    {
        BlockFun::area_size(self, id)
    }

    fn block_at(&self, id: usize, x: i64, y: i64) -> (r: Option<&Block>)
        ensures
            id < self@.areas.len() && self.wf() ==> match origin_index(self@.areas[id as int].blocks, x as int, y as int) {
                Some(i) => r is Some && r->0@ == self@.areas[id as int].blocks[i].2,
                None => r is None,
            },
            id >= self@.areas.len() ==> r is None,
    {
        BlockFun::block_at(self, id, x, y)
    }

    fn origin_at(&self, id: usize, x: i64, y: i64) -> (r: Option<(i64, i64)>)
        ensures
            id < self@.areas.len() ==> r == origin_of(self@.areas[id as int].blocks, x as int, y as int),
            id >= self@.areas.len() ==> r is None,
    {
        BlockFun::origin_at(self, id, x, y)
    }

    fn generation(&self) -> (r: u64)
        ensures
            r == self@.generation,
    {
        self.generation
    }
}


// ---------------------------------------------------------------------------
// Laws
// ---------------------------------------------------------------------------

/// A block placed where there is space occupies its cells: the cell at its
/// origin reads back the block.
pub proof fn law_place_then_read(s: Seq<PlacedSpec>, x: i64, y: i64, b: BlockSpec)
    requires
        blocks_wf(s),
        space_at(s, x as int, y as int, b.rows as int),
        b.rows > 0,
    ensures
        blocks_wf(insert_placed(s, x, y, b)),
        forall|c: int| y <= c < y + b.rows ==> (#[trigger] cell_index(insert_placed(s, x, y, b), x as int, c) matches Some(
            i,
        ) && insert_placed(s, x, y, b)[i] == (x, y, b)),
{
    let t = insert_placed(s, x, y, b);
    lemma_insert_wf(s, x, y, b);
    let k = match origin_index(s, x as int, y as int) {
        Some(k) => k,
        None => s.len() as int,
    };
    assert(t[k] == (x, y, b));
    assert forall|c: int| y <= c < y + b.rows implies (#[trigger] cell_index(t, x as int, c) matches Some(i) && t[i]
        == (x, y, b)) by {
        assert(covers(t[k], x as int, c));
        lemma_cover_index(t, x as int, c, k);
    }
}

/// Taking a block out of its cell and placing it back at its origin gives
/// an area with the same blocks.
pub proof fn law_take_then_place_back(s: Seq<PlacedSpec>, x: int, y: int)
    requires
        blocks_wf(s),
        cell_index(s, x, y) is Some,
    ensures
        ({
            let i = cell_index(s, x, y)->0;
            insert_placed(s.remove(i), s[i].0, s[i].1, s[i].2).to_multiset() == s.to_multiset()
        }),
{
    broadcast use vstd::seq_lib::group_to_multiset_ensures;
    let i = cell_index(s, x, y)->0;
    assert(is_first_cover(s, x, y, choose|k: int| is_first_cover(s, x, y, k)));
    let r = s.remove(i);
    if origin_index(r, s[i].0 as int, s[i].1 as int) is Some {
        let j = choose|j: int| 0 <= j < r.len() && r[j].0 == s[i].0 && r[j].1 == s[i].1;
        let j2 = if j < i { j } else { j + 1 };
        assert(r[j] == s[j2]);
    }
    assert(insert_placed(r, s[i].0, s[i].1, s[i].2) == r.push(s[i]));
    vstd::seq_lib::to_multiset_remove(s, i);
}

/// After a type is defined, looking its name up finds it; the other names
/// find what they found before.
pub proof fn law_define_then_lookup(l: LangSpec, t: TypeSpec, name: Seq<char>)
    requires
        lang_wf(l),
    ensures
        lang_type(LangSpec { types: defined_types(l.types, t), ..l }, t.name) == Some(t),
        name != t.name ==> lang_type(LangSpec { types: defined_types(l.types, t), ..l }, name) == lang_type(l, name),
{
    let ts = defined_types(l.types, t);
    let n = l.types.len();
    let k = match type_index(l.types, t.name) {
        Some(i) => i,
        None => n as int,
    };
    assert(ts[k] == t);
    assert(type_index(ts, t.name) is Some);
    let j = type_index(ts, t.name)->0;
    if j != k {
        assert(ts[j].name == t.name);
        assert(j < n as int);
        if type_index(l.types, t.name) is Some {
            assert(ts[j] == l.types[j]);
            assert(l.types[j].name == t.name);
            assert(l.types[k].name == t.name);
        } else {
            assert(ts[j] == l.types[j]);
        }
    }
    if name != t.name {
        if type_index(l.types, name) is Some {
            let a = type_index(l.types, name)->0;
            assert(ts[a] == l.types[a]);
            let b = type_index(ts, name)->0;
            assert(b != k);
            assert(ts[b] == l.types[b]);
            if a != b {
                assert(l.types[a].name == name && l.types[b].name == name);
            }
        } else {
            if type_index(ts, name) is Some {
                let b = type_index(ts, name)->0;
                assert(b != k);
                assert(ts[b] == l.types[b]);
            }
        }
    }
}

/// A saved program can always be loaded back: its areas form a well formed
/// program.
pub proof fn law_saved_snapshot_loads(f: FunSpec)
    requires
        fun_wf(f),
    ensures
        snap_wf(SnapSpec { areas: f.areas, cur_id: f.id }),
{
}

/// Saving a well formed program and loading the snapshot into a program `g`
/// gives back the program: it can be loaded, every area has the same blocks
/// and settings (only the sizes are resolved anew), the ID counter is the
/// saved one, and `g` counts one change.
pub proof fn law_snapshot_round_trip(f: FunSpec, g: FunSpec)
    requires
        fun_wf(f),
    ensures
        ({
            let snap = SnapSpec { areas: f.areas, cur_id: f.id };
            let loaded = FunSpec { areas: resized_areas(snap.areas), id: snap.cur_id, generation: (g.generation + 1) as u64, ..g };
            &&& snap_wf(snap)
            &&& loaded.areas.len() == f.areas.len()
            &&& loaded.id == f.id
            &&& forall|i: int|
                0 <= i < f.areas.len() ==> (#[trigger] loaded.areas[i]) == (AreaSpec { size: loaded.areas[i].size, ..f.areas[i] })
        }),
{
}

} // verus!
