//! A B+ tree of rows keyed by rowid, kept in the pages of a pager.
//!
//! A leaf page starts with the type byte `0x0D`, the number of cells (two
//! bytes), where the cells begin (two bytes) and a count of fragmented
//! bytes; cell offsets (two bytes each) follow from byte 8, in rowid order,
//! and the cells fill the page from its end. A leaf cell holds the rowid
//! (eight bytes), the payload length (four bytes), the length kept in the
//! page (two bytes), those bytes, and, when the payload did not fit, the
//! number of its first overflow page. An interior page has the type byte
//! `0x05`, the same counters, its right-most child at byte 8, and cells of
//! a child page number and the largest rowid under that child.
//! An overflow page holds the number of the next one (0 for none), the
//! length of its part (two bytes) and the part.
//!
//! Every page read is checked; a page that breaks the format makes the
//! operation fail with an error rather than go wrong.

use vstd::prelude::*;
use crate::types::{Value, ValueV};
use crate::error::{KkdbError, ErrorKind, Result};
use crate::storage::pager::{Pager, Page, PAGE_SIZE, zero_page};
use crate::storage::record::{encode_record, decode_record, push_u16, push_u32, push_i64, push_slice,
    read_u16, read_u32, read_i64, le2, le4, le8, u16_bytes, u32_bytes, i64_bytes,
    lemma_u16_roundtrip, lemma_u32_roundtrip, lemma_i64_roundtrip, record_bytes, parse_record, encodable, law_record_roundtrip};
use crate::storage::table::vals;

verus! {

/// Type byte of a leaf page.
pub const LEAF_PAGE: u8 = 0x0D;
/// Type byte of an interior page.
pub const INTERIOR_PAGE: u8 = 0x05;
/// Largest payload kept inside a leaf page.
pub const MAX_LOCAL: usize = 1024;
/// Deepest tree the operations walk.
pub const MAX_DEPTH: u32 = 40;
/// Bytes of a payload part in an overflow page.
const OVERFLOW_CHUNK: usize = 4090;

/// How many overflow pages a payload of `len` bytes is spread over.
pub open spec fn overflow_chunks(len: int) -> int {
    len / 4090 + (if len % 4090 == 0 { 0int } else { 1int })
}

/// A cell of a leaf page.
pub struct LeafCell {
    pub rowid: i64,
    /// Length of the whole payload.
    pub total: u32,
    /// The part of the payload kept in the page.
    pub local: Vec<u8>,
    /// First overflow page of the rest, 0 when the payload is all local.
    pub overflow: u32,
}

/// A page of the tree, read.
pub enum Node {
    Leaf(Vec<LeafCell>),
    /// Cells of a child page and the largest rowid under it, then the
    /// right-most child.
    Interior(Vec<(u32, i64)>, u32),
}

/// A leaf cell as numbers and bytes.
pub struct CellV {
    pub rowid: int,
    pub total: int,
    pub local: Seq<u8>,
    pub overflow: int,
}

/// A page of the tree as numbers and bytes.
pub enum NodeV {
    Leaf(Seq<CellV>),
    Interior(Seq<(int, int)>, int),
}

pub open spec fn cell_view(c: LeafCell) -> CellV {
    CellV { rowid: c.rowid as int, total: c.total as int, local: c.local@, overflow: c.overflow as int }
}

pub open spec fn cells_view(cells: Seq<LeafCell>) -> Seq<CellV> {
    cells.map_values(|c: LeafCell| cell_view(c))
}

pub open spec fn node_view(n: Node) -> NodeV {
    match n {
        Node::Leaf(cells) => NodeV::Leaf(cells_view(cells@)),
        Node::Interior(cells, right) => NodeV::Interior(cells@.map_values(|c: (u32, i64)| (c.0 as int, c.1 as int)), right as int),
    }
}

/// A cell that the format can hold and read back: the local part is at most
/// the whole payload, and an overflow page is named exactly when it is shorter.
pub open spec fn cell_ok(c: CellV) -> bool {
    &&& i64::MIN <= c.rowid <= i64::MAX
    &&& 0 <= c.total < 0x1_0000_0000
    &&& c.local.len() <= 0xFFFF
    &&& c.local.len() <= c.total
    &&& 0 <= c.overflow < 0x1_0000_0000
    &&& (c.overflow != 0) == (c.local.len() < c.total)
}

/// The bytes of a leaf cell: rowid, payload length, local length, local part,
/// and the first overflow page when there is one.
pub open spec fn cell_bytes(c: CellV) -> Seq<u8> {
    i64_bytes(c.rowid) + u32_bytes(c.total) + u16_bytes(c.local.len() as int) + c.local
        + if c.overflow != 0 { u32_bytes(c.overflow) } else { Seq::empty() }
}

/// Reads the leaf cell at offset `off` of a page.
pub open spec fn parse_cell(d: Seq<u8>, off: int) -> Option<CellV> {
    if off < 0 || off + 14 > d.len() {
        None
    } else {
        let rowid = le8(d.subrange(off, off + 8)) - 0x8000_0000_0000_0000;
        let total = le4(d.subrange(off + 8, off + 12));
        let llen = le2(d.subrange(off + 12, off + 14));
        if off + 14 + llen > d.len() || llen > total {
            None
        } else {
            let local = d.subrange(off + 14, off + 14 + llen);
            if llen < total {
                if off + 18 + llen > d.len() {
                    None
                } else {
                    let o = le4(d.subrange(off + 14 + llen, off + 18 + llen));
                    if o == 0 { None } else { Some(CellV { rowid, total, local, overflow: o }) }
                }
            } else {
                Some(CellV { rowid, total, local, overflow: 0 })
            }
        }
    }
}

/// The offset kept in slot `i` of a page whose slots start at `base`.
pub open spec fn slot(d: Seq<u8>, base: int, i: int) -> int {
    le2(d.subrange(base + 2 * i, base + 2 * i + 2))
}

/// Reads the first `n` cells of a leaf page.
pub open spec fn parse_cells(d: Seq<u8>, n: int) -> Option<Seq<CellV>>
    decreases n,
{
    if n <= 0 {
        Some(Seq::empty())
    } else {
        match parse_cells(d, n - 1) {
            Some(cs) => match parse_cell(d, slot(d, 8, n - 1)) {
                Some(c) => Some(cs.push(c)),
                None => None,
            },
            None => None,
        }
    }
}

/// Reads the child at offset `off` of an interior page.
pub open spec fn parse_child(d: Seq<u8>, off: int) -> Option<(int, int)> {
    if off < 0 || off + 12 > d.len() {
        None
    } else {
        Some((le4(d.subrange(off, off + 4)), le8(d.subrange(off + 4, off + 12)) - 0x8000_0000_0000_0000))
    }
}

/// Reads the first `n` children of an interior page.
pub open spec fn parse_children(d: Seq<u8>, n: int) -> Option<Seq<(int, int)>>
    decreases n,
{
    if n <= 0 {
        Some(Seq::empty())
    } else {
        match parse_children(d, n - 1) {
            Some(cs) => match parse_child(d, slot(d, 12, n - 1)) {
                Some(c) => Some(cs.push(c)),
                None => None,
            },
            None => None,
        }
    }
}

/// Reads a page of the tree.
pub open spec fn parse_node(d: Seq<u8>) -> Option<NodeV> {
    if d.len() != PAGE_SIZE {
        None
    } else {
        let n = le2(d.subrange(1, 3));
        if d[0] == LEAF_PAGE {
            if 8 + 2 * n > d.len() {
                None
            } else {
                match parse_cells(d, n) { Some(cs) => Some(NodeV::Leaf(cs)), None => None }
            }
        } else if d[0] == INTERIOR_PAGE {
            if 12 + 2 * n > d.len() {
                None
            } else {
                match parse_children(d, n) {
                    Some(cs) => Some(NodeV::Interior(cs, le4(d.subrange(8, 12)))),
                    None => None,
                }
            }
        } else {
            None
        }
    }
}

fn corrupt<T>() -> (r: Result<T>)
    ensures r matches Err(e) && e.kind == ErrorKind::Limit && e.message@ == "malformed page"@,
{
    Err(KkdbError::new(ErrorKind::Limit, "malformed page"))
}

fn too_deep<T>() -> (r: Result<T>)
    ensures r matches Err(e) && e.kind == ErrorKind::Limit && e.message@ == "tree too deep"@,
{
    Err(KkdbError::new(ErrorKind::Limit, "tree too deep"))
}

/// Bytes a leaf cell takes in its page (its rowid, lengths, local bytes and,
/// when it has one, its overflow page number), or `usize::MAX` when that
/// cannot be counted in a `usize`.
pub open spec fn cell_size_spec(c: CellV) -> int {
    if c.local.len() + 18 <= usize::MAX { c.local.len() + (if c.overflow != 0 { 18int } else { 14int }) } else { usize::MAX as int }
}

/// The header, then two bytes of offset and the cell itself for each cell.
pub open spec fn cells_total(cs: Seq<CellV>) -> int
    decreases cs.len(),
{
    if cs.len() == 0 { 8 } else { cells_total(cs.drop_last()) + 2 + cell_size_spec(cs.last()) }
}

/// Bytes a leaf page of these cells takes, or `usize::MAX` when that is more.
pub open spec fn leaf_size_spec(cs: Seq<CellV>) -> int {
    if cells_total(cs) <= usize::MAX { cells_total(cs) } else { usize::MAX as int }
}

/// A longer prefix of the cells takes at least sixteen more bytes a cell.
proof fn lemma_cells_total_prefix(cs: Seq<CellV>, i: int, j: int)
    requires 0 <= i <= j <= cs.len(),
    ensures cells_total(cs.take(j)) >= cells_total(cs.take(i)) + 16 * (j - i),
    decreases j - i,
{
    if i < j {
        lemma_cells_total_prefix(cs, i, j - 1);
        assert(cs.take(j).drop_last() =~= cs.take(j - 1));
    }
}

/// Bytes a leaf cell takes in its page.
fn leaf_cell_size(c: &LeafCell) -> (r: usize)
    ensures r as int == cell_size_spec(cell_view(*c)),
{
    if c.local.len() <= usize::MAX - 18 {
        c.local.len() + if c.overflow != 0 { 18 } else { 14 }
    } else {
        usize::MAX
    }
}

/// Bytes the cells of a leaf page take with its header and offsets.
fn leaf_size(cells: &Vec<LeafCell>) -> (r: usize)
    ensures r as int == leaf_size_spec(cells_view(cells@)),
{
    let ghost views = cells_view(cells@);
    let mut total: usize = 8;
    let mut i: usize = 0;
    while i < cells.len()
        invariant i <= cells@.len(), views == cells_view(cells@), views.len() == cells@.len(),
            total as int == leaf_size_spec(views.take(i as int)),
        decreases cells.len() - i,
    {
        proof {
            assert(views.take(i + 1).drop_last() =~= views.take(i as int));
            assert(views.take(i + 1).last() == cell_view(cells@[i as int]));
        }
        let add = leaf_cell_size(&cells[i]);
        total = if total <= usize::MAX - 2 && total + 2 <= usize::MAX - add { total + 2 + add } else { usize::MAX };
        i += 1;
    }
    assert(views.take(cells@.len() as int) =~= views);
    total
}

/// Copies `src` into `data` from position `at`.
fn put_at(data: &mut Vec<u8>, at: usize, src: &Vec<u8>)
    requires at + src@.len() <= old(data)@.len(),
    ensures
        final(data)@.len() == old(data)@.len(),
        forall|j: int| 0 <= j < old(data)@.len() ==> #[trigger] final(data)@[j]
            == if at <= j < at + src@.len() { src@[j - at] } else { old(data)@[j] },
{
    let n = data.len();
    let mut k: usize = 0;
    while k < src.len()
        invariant k <= src@.len(), at + src@.len() <= n, data@.len() == n, n == old(data)@.len(),
            forall|j: int| 0 <= j < n ==> #[trigger] data@[j]
                == if at <= j < at + k { src@[j - at] } else { old(data)@[j] },
        decreases src.len() - k,
    {
        data.set(at + k, src[k]);
        k += 1;
    }
}

/// Writes the two bytes of `x` at position `at`.
fn put_u16_at(data: &mut Vec<u8>, at: usize, x: u16)
    requires at + 2 <= old(data)@.len(),
    ensures
        final(data)@ == old(data)@.update(at as int, (x % 256) as u8).update(at + 1, (x / 256) as u8),
{
    let n = data.len();
    data.set(at, (x % 256) as u8);
    data.set(at + 1, (x / 256) as u8);
}

/// A cell that the format can hold is read back from its bytes.
#[verifier::rlimit(40)]
proof fn lemma_parse_cell(d: Seq<u8>, off: int, c: CellV)
    requires cell_ok(c), 0 <= off, off + cell_bytes(c).len() <= d.len(),
        d.subrange(off, off + cell_bytes(c).len()) == cell_bytes(c),
    ensures parse_cell(d, off) == Some(c),
{
    let cb = cell_bytes(c);
    let llen = c.local.len() as int;
    assert(d.subrange(off, off + 8) =~= cb.subrange(0, 8));
    assert(cb.subrange(0, 8) =~= i64_bytes(c.rowid));
    assert(d.subrange(off + 8, off + 12) =~= cb.subrange(8, 12));
    assert(cb.subrange(8, 12) =~= u32_bytes(c.total));
    assert(d.subrange(off + 12, off + 14) =~= cb.subrange(12, 14));
    assert(cb.subrange(12, 14) =~= u16_bytes(llen));
    assert(d.subrange(off + 14, off + 14 + llen) =~= cb.subrange(14, 14 + llen));
    assert(cb.subrange(14, 14 + llen) =~= c.local);
    lemma_i64_roundtrip(c.rowid);
    lemma_u32_roundtrip(c.total);
    lemma_u16_roundtrip(llen);
    if llen < c.total {
        assert(d.subrange(off + 14 + llen, off + 18 + llen) =~= cb.subrange(14 + llen, 18 + llen));
        assert(cb.subrange(14 + llen, 18 + llen) =~= u32_bytes(c.overflow));
        lemma_u32_roundtrip(c.overflow);
    }
}

/// Cells whose slots and bytes are in place are read back in order.
#[verifier::rlimit(40)]
proof fn lemma_parse_cells_written(d: Seq<u8>, views: Seq<CellV>, k: int)
    requires 0 <= k <= views.len(),
        forall|j: int| 0 <= j < views.len() ==> parse_cell(d, #[trigger] slot(d, 8, j)) == Some(views[j]),
    ensures parse_cells(d, k) == Some(views.take(k)),
    decreases k,
{
    if k > 0 {
        lemma_parse_cells_written(d, views, k - 1);
        assert(parse_cell(d, slot(d, 8, k - 1)) == Some(views[k - 1]));
        assert(views.take(k - 1).push(views[k - 1]) =~= views.take(k));
    }
}

/// A leaf page being written: its type and cell count in place, and the
/// first cells written at the given offsets, each offset in its slot.
pub open spec fn leaf_written(d: Seq<u8>, n: int, views: Seq<CellV>, offs: Seq<int>, off: int) -> bool {
    &&& d.len() == PAGE_SIZE
    &&& 8 + 2 * n <= off <= PAGE_SIZE
    &&& d[0] == LEAF_PAGE
    &&& d.subrange(1, 3) == u16_bytes(n)
    &&& offs.len() <= n
    &&& forall|j: int| 0 <= j < offs.len() ==> off <= #[trigger] offs[j] && offs[j] + cell_bytes(views[j]).len() <= PAGE_SIZE
    &&& forall|j: int| 0 <= j < offs.len() ==> d.subrange(#[trigger] offs[j], offs[j] + cell_bytes(views[j]).len()) == cell_bytes(views[j])
    &&& forall|j: int| 0 <= j < offs.len() ==> #[trigger] d.subrange(8 + 2 * j, 8 + 2 * j + 2) == u16_bytes(offs[j])
}

/// Writing the next cell below the others and its offset in its slot keeps
/// what was written.
#[verifier::rlimit(40)]
proof fn lemma_leaf_step(before: Seq<u8>, mid: Seq<u8>, after: Seq<u8>, n: int, views: Seq<CellV>, offs: Seq<int>,
    off: int, new_off: int, bytes: Seq<u8>)
    requires
        leaf_written(before, n, views, offs, off), offs.len() < n, offs.len() < views.len(),
        bytes == cell_bytes(views[offs.len() as int]),
        new_off + bytes.len() == off, 8 + 2 * n <= new_off,
        mid.len() == before.len(),
        forall|j: int| 0 <= j < before.len() ==> #[trigger] mid[j]
            == if new_off <= j < new_off + bytes.len() { bytes[j - new_off] } else { before[j] },
        after == mid.update(8 + 2 * offs.len() as int, (new_off % 256) as u8).update(8 + 2 * offs.len() as int + 1, (new_off / 256) as u8),
    ensures leaf_written(after, n, views, offs.push(new_off), new_off),
{
    let i = offs.len() as int;
    let offs2 = offs.push(new_off);
    assert(after.subrange(new_off, new_off + bytes.len()) =~= bytes);
    assert forall|j: int| 0 <= j < offs2.len() implies
        after.subrange(#[trigger] offs2[j], offs2[j] + cell_bytes(views[j]).len()) == cell_bytes(views[j]) by {
        if j < i {
            assert(offs2[j] == offs[j]);
            assert(after.subrange(offs[j], offs[j] + cell_bytes(views[j]).len())
                =~= before.subrange(offs[j], offs[j] + cell_bytes(views[j]).len()));
        }
    }
    assert forall|j: int| 0 <= j < offs2.len() implies #[trigger] after.subrange(8 + 2 * j, 8 + 2 * j + 2) == u16_bytes(offs2[j]) by {
        if j < i {
            assert(after.subrange(8 + 2 * j, 8 + 2 * j + 2) =~= before.subrange(8 + 2 * j, 8 + 2 * j + 2));
        } else {
            assert(after.subrange(8 + 2 * j, 8 + 2 * j + 2) =~= u16_bytes(new_off));
        }
    }
    assert forall|j: int| 0 <= j < offs2.len() implies new_off <= #[trigger] offs2[j] && offs2[j] + cell_bytes(views[j]).len() <= PAGE_SIZE by {
        if j < i { assert(offs2[j] == offs[j]); }
    }
    assert(after.subrange(1, 3) =~= before.subrange(1, 3));
}

/// A leaf page with all its cells written reads back as those cells, once
/// the start of its cell area is recorded.
#[verifier::rlimit(40)]
proof fn lemma_leaf_done(before: Seq<u8>, after: Seq<u8>, n: int, views: Seq<CellV>, offs: Seq<int>, off: int)
    requires
        leaf_written(before, n, views, offs, off), offs.len() == n, views.len() == n,
        forall|j: int| 0 <= j < n ==> cell_ok(#[trigger] views[j]),
        after == before.update(3, (off % 256) as u8).update(4, (off / 256) as u8),
    ensures parse_node(after) == Some(NodeV::Leaf(views)),
{
    assert(after.subrange(1, 3) =~= before.subrange(1, 3));
    lemma_u16_roundtrip(n);
    assert forall|j: int| 0 <= j < n implies parse_cell(after, #[trigger] slot(after, 8, j)) == Some(views[j]) by {
        assert(after.subrange(8 + 2 * j, 8 + 2 * j + 2) =~= before.subrange(8 + 2 * j, 8 + 2 * j + 2));
        assert(before.subrange(8 + 2 * j, 8 + 2 * j + 2) == u16_bytes(offs[j]));
        lemma_u16_roundtrip(offs[j]);
        assert(after.subrange(offs[j], offs[j] + cell_bytes(views[j]).len())
            =~= before.subrange(offs[j], offs[j] + cell_bytes(views[j]).len()));
        lemma_parse_cell(after, offs[j], views[j]);
    }
    lemma_parse_cells_written(after, views, n);
    assert(views.take(n) =~= views);
}

/// The bytes of a leaf page holding the cells, or `None` when they do not fit.
/// A page it gives reads back as exactly those cells.
fn encode_leaf(cells: &Vec<LeafCell>) -> (r: Option<Vec<u8>>)
    ensures
        r matches Some(d) ==> d@.len() == PAGE_SIZE,
        r matches Some(d) ==> ((forall|i: int| 0 <= i < cells@.len() ==> cell_ok(cell_view(#[trigger] cells@[i])))
            ==> parse_node(d@) == Some(NodeV::Leaf(cells_view(cells@)))),
        r is Some <==> leaf_size_spec(cells_view(cells@)) <= PAGE_SIZE,
{
    let size = leaf_size(cells);
    proof {
        lemma_cells_total_prefix(cells_view(cells@), 0, cells@.len() as int);
        assert(cells_view(cells@).take(0) =~= Seq::<CellV>::empty());
        assert(cells_view(cells@).take(cells@.len() as int) =~= cells_view(cells@));
    }
    if size > PAGE_SIZE || cells.len() > (PAGE_SIZE - 8) / 2 {
        return None;
    }
    let n = cells.len();
    let ghost views = cells_view(cells@);
    let mut data = zero_page().data;
    data.set(0, LEAF_PAGE);
    put_u16_at(&mut data, 1, n as u16);
    assert(data@.subrange(1, 3) =~= u16_bytes(n as int));
    let mut off: usize = PAGE_SIZE;
    let ghost mut offs: Seq<int> = Seq::empty();
    let mut i: usize = 0;
    while i < cells.len()
        invariant
            i <= n, n == cells@.len(), views == cells_view(cells@), views.len() == n,
            offs.len() == i, leaf_written(data@, n as int, views, offs, off as int),
            cells_total(views) <= PAGE_SIZE,
            off as int == PAGE_SIZE + 8 + 2 * i - cells_total(views.take(i as int)),
        decreases cells.len() - i,
    {
        let c = &cells[i];
        proof {
            lemma_cells_total_prefix(views, i + 1, n as int);
            assert(views.take(i + 1).drop_last() =~= views.take(i as int));
            assert(views.take(i + 1).last() == views[i as int]);
            assert(views.take(n as int) =~= views);
        }
        let mut bytes: Vec<u8> = Vec::new();
        push_i64(&mut bytes, c.rowid);
        push_u32(&mut bytes, c.total);
        if c.local.len() > 0xFFFF {
            return None;
        }
        push_u16(&mut bytes, c.local.len() as u16);
        push_slice(&mut bytes, c.local.as_slice());
        if c.overflow != 0 {
            push_u32(&mut bytes, c.overflow);
        }
        assert(bytes@ =~= cell_bytes(views[i as int]));
        if bytes.len() > off - (8 + 2 * cells.len()) {
            return None;
        }
        let ghost before = data@;
        let ghost old_off = off as int;
        off = off - bytes.len();
        put_at(&mut data, off, &bytes);
        let ghost mid = data@;
        put_u16_at(&mut data, 8 + 2 * i, off as u16);
        proof {
            lemma_leaf_step(before, mid, data@, n as int, views, offs, old_off, off as int, bytes@);
            offs = offs.push(off as int);
        }
        i += 1;
    }
    let ghost before = data@;
    put_u16_at(&mut data, 3, off as u16);
    proof {
        if forall|k: int| 0 <= k < cells@.len() ==> cell_ok(cell_view(#[trigger] cells@[k])) {
            assert forall|j: int| 0 <= j < n implies cell_ok(#[trigger] views[j]) by {
                assert(views[j] == cell_view(cells@[j]));
            }
            lemma_leaf_done(before, data@, n as int, views, offs, off as int);
        }
    }
    Some(data)
}

/// The bytes of a child entry of an interior page: the child's page number
/// and the largest rowid under it.
pub open spec fn child_bytes(c: (int, int)) -> Seq<u8> {
    u32_bytes(c.0) + i64_bytes(c.1)
}

/// The views of the child entries of an interior page.
pub open spec fn children_view(cells: Seq<(u32, i64)>) -> Seq<(int, int)> {
    cells.map_values(|c: (u32, i64)| (c.0 as int, c.1 as int))
}

/// An interior page being written: type, count and right-most child in
/// place, and the first entries written from the end of the page, each
/// offset in its slot.
pub open spec fn interior_written(d: Seq<u8>, n: int, views: Seq<(int, int)>, right: int, i: int) -> bool {
    &&& d.len() == PAGE_SIZE
    &&& n <= (PAGE_SIZE - 12) / 14
    &&& 0 <= i <= n
    &&& d[0] == INTERIOR_PAGE
    &&& d.subrange(1, 3) == u16_bytes(n)
    &&& d.subrange(8, 12) == u32_bytes(right)
    &&& forall|j: int| 0 <= j < i ==> #[trigger] d.subrange(PAGE_SIZE - 12 * (j + 1), PAGE_SIZE - 12 * j) == child_bytes(views[j])
    &&& forall|j: int| 0 <= j < i ==> #[trigger] d.subrange(12 + 2 * j, 12 + 2 * j + 2) == u16_bytes(PAGE_SIZE - 12 * (j + 1))
}

/// Writing the next entry below the others and its offset in its slot keeps
/// what was written.
#[verifier::rlimit(40)]
proof fn lemma_interior_step(before: Seq<u8>, mid: Seq<u8>, after: Seq<u8>, n: int, views: Seq<(int, int)>, right: int,
    i: int, bytes: Seq<u8>)
    requires
        interior_written(before, n, views, right, i), i < n, i < views.len(),
        bytes == child_bytes(views[i]),
        mid.len() == before.len(),
        forall|j: int| 0 <= j < before.len() ==> #[trigger] mid[j]
            == if PAGE_SIZE - 12 * (i + 1) <= j < PAGE_SIZE - 12 * (i + 1) + bytes.len() { bytes[j - (PAGE_SIZE - 12 * (i + 1))] } else { before[j] },
        after == mid.update(12 + 2 * i, ((PAGE_SIZE - 12 * (i + 1)) % 256) as u8)
            .update(12 + 2 * i + 1, ((PAGE_SIZE - 12 * (i + 1)) / 256) as u8),
    ensures interior_written(after, n, views, right, i + 1),
{
    let off = PAGE_SIZE - 12 * (i + 1);
    assert(bytes.len() == 12);
    assert(after.subrange(off, off + 12) =~= bytes);
    assert forall|j: int| 0 <= j < i + 1 implies #[trigger] after.subrange(PAGE_SIZE - 12 * (j + 1), PAGE_SIZE - 12 * j) == child_bytes(views[j]) by {
        if j < i {
            assert(after.subrange(PAGE_SIZE - 12 * (j + 1), PAGE_SIZE - 12 * j) =~= before.subrange(PAGE_SIZE - 12 * (j + 1), PAGE_SIZE - 12 * j));
        }
    }
    assert forall|j: int| 0 <= j < i + 1 implies #[trigger] after.subrange(12 + 2 * j, 12 + 2 * j + 2) == u16_bytes(PAGE_SIZE - 12 * (j + 1)) by {
        if j < i {
            assert(after.subrange(12 + 2 * j, 12 + 2 * j + 2) =~= before.subrange(12 + 2 * j, 12 + 2 * j + 2));
        } else {
            assert(after.subrange(12 + 2 * j, 12 + 2 * j + 2) =~= u16_bytes(off));
        }
    }
    assert(after.subrange(1, 3) =~= before.subrange(1, 3));
    assert(after.subrange(8, 12) =~= before.subrange(8, 12));
}

/// Child entries whose slots and bytes are in place are read back in order.
#[verifier::rlimit(40)]
proof fn lemma_parse_children_written(d: Seq<u8>, views: Seq<(int, int)>, k: int)
    requires 0 <= k <= views.len(),
        forall|j: int| 0 <= j < views.len() ==> parse_child(d, #[trigger] slot(d, 12, j)) == Some(views[j]),
    ensures parse_children(d, k) == Some(views.take(k)),
    decreases k,
{
    if k > 0 {
        lemma_parse_children_written(d, views, k - 1);
        assert(parse_child(d, slot(d, 12, k - 1)) == Some(views[k - 1]));
        assert(views.take(k - 1).push(views[k - 1]) =~= views.take(k));
    }
}

/// An interior page with all its entries written reads back as those
/// entries and its right-most child.
#[verifier::rlimit(40)]
proof fn lemma_interior_done(before: Seq<u8>, after: Seq<u8>, n: int, views: Seq<(int, int)>, right: int)
    requires
        interior_written(before, n, views, right, n), views.len() == n, 0 <= right < 0x1_0000_0000,
        forall|j: int| 0 <= j < n ==> 0 <= (#[trigger] views[j]).0 < 0x1_0000_0000 && i64::MIN <= views[j].1 <= i64::MAX,
        after == before.update(3, ((PAGE_SIZE - 12 * n) % 256) as u8).update(4, ((PAGE_SIZE - 12 * n) / 256) as u8),
    ensures parse_node(after) == Some(NodeV::Interior(views, right)),
{
    assert(after.subrange(1, 3) =~= before.subrange(1, 3));
    assert(after.subrange(8, 12) =~= before.subrange(8, 12));
    lemma_u16_roundtrip(n);
    lemma_u32_roundtrip(right);
    assert forall|j: int| 0 <= j < n implies parse_child(after, #[trigger] slot(after, 12, j)) == Some(views[j]) by {
        let off = PAGE_SIZE - 12 * (j + 1);
        assert(after.subrange(12 + 2 * j, 12 + 2 * j + 2) =~= before.subrange(12 + 2 * j, 12 + 2 * j + 2));
        assert(before.subrange(12 + 2 * j, 12 + 2 * j + 2) == u16_bytes(off));
        lemma_u16_roundtrip(off);
        assert(before.subrange(PAGE_SIZE - 12 * (j + 1), PAGE_SIZE - 12 * j) == child_bytes(views[j]));
        assert(after.subrange(off, off + 4) =~= child_bytes(views[j]).subrange(0, 4));
        assert(child_bytes(views[j]).subrange(0, 4) =~= u32_bytes(views[j].0));
        assert(after.subrange(off + 4, off + 12) =~= child_bytes(views[j]).subrange(4, 12));
        assert(child_bytes(views[j]).subrange(4, 12) =~= i64_bytes(views[j].1));
        lemma_u32_roundtrip(views[j].0);
        lemma_i64_roundtrip(views[j].1);
    }
    lemma_parse_children_written(after, views, n);
    assert(views.take(n) =~= views);
}

/// The bytes of an interior page, or `None` when the cells do not fit.
/// A page it gives reads back as exactly those entries and right-most child.
fn encode_interior(cells: &Vec<(u32, i64)>, right: u32) -> (r: Option<Vec<u8>>)
    ensures
        r matches Some(d) ==> d@.len() == PAGE_SIZE
            && parse_node(d@) == Some(NodeV::Interior(children_view(cells@), right as int)),
        r is None <==> cells@.len() > (PAGE_SIZE - 12) / 14,
{
    if cells.len() > (PAGE_SIZE - 12) / 14 {
        return None;
    }
    let n = cells.len();
    let ghost views = children_view(cells@);
    let mut data = zero_page().data;
    data.set(0, INTERIOR_PAGE);
    put_u16_at(&mut data, 1, n as u16);
    let mut rb: Vec<u8> = Vec::new();
    push_u32(&mut rb, right);
    let ghost d1 = data@;
    put_at(&mut data, 8, &rb);
    proof {
        assert(data@.subrange(1, 3) =~= d1.subrange(1, 3));
        assert(d1.subrange(1, 3) =~= u16_bytes(n as int));
        assert(data@.subrange(8, 12) =~= u32_bytes(right as int));
    }
    let mut off: usize = PAGE_SIZE;
    let mut i: usize = 0;
    while i < cells.len()
        invariant i <= n, n == cells@.len(), views == children_view(cells@), views.len() == n,
            off == PAGE_SIZE - 12 * i, interior_written(data@, n as int, views, right as int, i as int),
        decreases cells.len() - i,
    {
        let mut bytes: Vec<u8> = Vec::new();
        push_u32(&mut bytes, cells[i].0);
        push_i64(&mut bytes, cells[i].1);
        assert(bytes@ =~= child_bytes(views[i as int]));
        let ghost before = data@;
        off = off - 12;
        put_at(&mut data, off, &bytes);
        let ghost mid = data@;
        put_u16_at(&mut data, 12 + 2 * i, off as u16);
        proof { lemma_interior_step(before, mid, data@, n as int, views, right as int, i as int, bytes@); }
        i += 1;
    }
    let ghost before = data@;
    put_u16_at(&mut data, 3, off as u16);
    proof { lemma_interior_done(before, data@, n as int, views, right as int); }
    Some(data)
}

/// Numbers read from bytes are in the range of their width.
proof fn lemma_le_bounds(b: Seq<u8>)
    requires b.len() >= 8,
    ensures 0 <= le2(b) < 0x1_0000, 0 <= le4(b) < 0x1_0000_0000, 0 <= le8(b) < 0x1_0000_0000_0000_0000,
{
    let lo = b.subrange(0, 4);
    let hi = b.subrange(4, 8);
    assert(0 <= le4(lo) < 0x1_0000_0000);
    assert(0 <= le4(hi) < 0x1_0000_0000);
}

/// The cells read from a leaf page are cells the format can hold.
proof fn lemma_parse_cells_ok(d: Seq<u8>, n: int)
    requires parse_cells(d, n) is Some,
    ensures forall|i: int| 0 <= i < parse_cells(d, n).unwrap().len() ==> cell_ok(#[trigger] parse_cells(d, n).unwrap()[i]),
    decreases n,
{
    if n > 0 {
        lemma_parse_cells_ok(d, n - 1);
        let off = slot(d, 8, n - 1);
        let c = parse_cell(d, off).unwrap();
        lemma_le_bounds(d.subrange(off, off + 8));
        assert(d.subrange(off, off + 8).subrange(0, 4) =~= d.subrange(off, off + 4));
        let b8 = d.subrange(off + 8, off + 12) + d.subrange(off + 8, off + 12);
        lemma_le_bounds(b8);
        assert(b8.subrange(0, 4) =~= d.subrange(off + 8, off + 12));
        let b2 = d.subrange(off + 12, off + 14) + d.subrange(off + 8, off + 14);
        lemma_le_bounds(b2);
        if c.overflow != 0 {
            let llen = c.local.len() as int;
            let b9 = d.subrange(off + 14 + llen, off + 18 + llen) + d.subrange(off + 14 + llen, off + 18 + llen);
            lemma_le_bounds(b9);
            assert(b9.subrange(0, 4) =~= d.subrange(off + 14 + llen, off + 18 + llen));
        }
        let cs = parse_cells(d, n).unwrap();
        assert forall|i: int| 0 <= i < cs.len() implies cell_ok(#[trigger] cs[i]) by {
            if i < cs.len() - 1 {
                assert(cs[i] == parse_cells(d, n - 1).unwrap()[i]);
            }
        }
    }
}

/// The cells of a leaf page as read are cells the format can hold.
proof fn lemma_leaf_cells_ok(d: Seq<u8>, cs: Seq<CellV>)
    requires parse_node(d) == Some(NodeV::Leaf(cs)),
    ensures forall|i: int| 0 <= i < cs.len() ==> cell_ok(#[trigger] cs[i]),
{
    lemma_parse_cells_ok(d, le2(d.subrange(1, 3)));
    assert(cs == parse_cells(d, le2(d.subrange(1, 3))).unwrap());
}

/// Once the first cells of a page cannot be read, no longer run of them can.
proof fn lemma_parse_cells_none(d: Seq<u8>, k: int, n: int)
    requires 0 <= k <= n, parse_cells(d, k) is None,
    ensures parse_cells(d, n) is None,
    decreases n - k,
{
    if k < n {
        lemma_parse_cells_none(d, k + 1, n);
    }
}

/// Once the first children of a page cannot be read, no longer run of them can.
proof fn lemma_parse_children_none(d: Seq<u8>, k: int, n: int)
    requires 0 <= k <= n, parse_children(d, k) is None,
    ensures parse_children(d, n) is None,
    decreases n - k,
{
    if k < n {
        lemma_parse_children_none(d, k + 1, n);
    }
}

/// Reads the page as a tree node; fails exactly when the page breaks the format.
fn decode_node(data: &Vec<u8>) -> (r: Result<Node>)
    ensures
        r is Ok == parse_node(data@) is Some,
        r matches Ok(n) ==> parse_node(data@) == Some(node_view(n)),
{
    let len = data.len();
    if len != PAGE_SIZE {
        return corrupt();
    }
    let count = read_u16(data, 1) as usize;
    if data[0] == LEAF_PAGE {
        if 8 + 2 * count > len {
            return corrupt();
        }
        let mut cells: Vec<LeafCell> = Vec::new();
        let mut i: usize = 0;
        while i < count
            invariant i <= count, 8 + 2 * count <= len, len == data@.len(), len == PAGE_SIZE,
                count as int == le2(data@.subrange(1, 3)), data@[0] == LEAF_PAGE,
                parse_cells(data@, i as int) == Some(cells_view(cells@)),
            decreases count - i,
        {
            let off = read_u16(data, 8 + 2 * i) as usize;
            assert(off as int == slot(data@, 8, i as int));
            if off + 14 > len {
                proof { lemma_parse_cells_none(data@, i + 1, count as int); }
                return corrupt();
            }
            let rowid = read_i64(data, off);
            let total = read_u32(data, off + 8);
            let llen = read_u16(data, off + 12) as usize;
            if off + 14 + llen > len || llen > total as usize {
                proof { lemma_parse_cells_none(data@, i + 1, count as int); }
                return corrupt();
            }
            let mut local: Vec<u8> = Vec::new();
            let mut k: usize = 0;
            while k < llen
                invariant k <= llen, off + 14 + llen <= len, len == data@.len(),
                    local@ == data@.subrange(off + 14, off + 14 + k),
                decreases llen - k,
            {
                local.push(data[off + 14 + k]);
                k += 1;
                assert(local@ =~= data@.subrange(off + 14, off + 14 + k));
            }
            let overflow = if (llen as u64) < (total as u64) {
                if off + 18 + llen > len {
                    proof { lemma_parse_cells_none(data@, i + 1, count as int); }
                    return corrupt();
                }
                let o = read_u32(data, off + 14 + llen);
                if o == 0 {
                    proof { lemma_parse_cells_none(data@, i + 1, count as int); }
                    return corrupt();
                }
                o
            } else {
                0
            };
            let c = LeafCell { rowid, total, local, overflow };
            assert(parse_cell(data@, off as int) == Some(cell_view(c)));
            let ghost before = cells@;
            cells.push(c);
            assert(cells_view(cells@) =~= cells_view(before).push(cell_view(c)));
            i += 1;
        }
        Ok(Node::Leaf(cells))
    } else if data[0] == INTERIOR_PAGE {
        if 12 + 2 * count > len {
            return corrupt();
        }
        let right = read_u32(data, 8);
        let mut cells: Vec<(u32, i64)> = Vec::new();
        let mut i: usize = 0;
        while i < count
            invariant i <= count, 12 + 2 * count <= len, len == data@.len(), len == PAGE_SIZE,
                count as int == le2(data@.subrange(1, 3)), data@[0] == INTERIOR_PAGE,
                parse_children(data@, i as int) == Some(cells@.map_values(|c: (u32, i64)| (c.0 as int, c.1 as int))),
            decreases count - i,
        {
            let off = read_u16(data, 12 + 2 * i) as usize;
            assert(off as int == slot(data@, 12, i as int));
            if off + 12 > len {
                proof { lemma_parse_children_none(data@, i + 1, count as int); }
                return corrupt();
            }
            let c = (read_u32(data, off), read_i64(data, off + 4));
            let ghost before = cells@;
            cells.push(c);
            assert(cells@.map_values(|c: (u32, i64)| (c.0 as int, c.1 as int))
                =~= before.map_values(|c: (u32, i64)| (c.0 as int, c.1 as int)).push((c.0 as int, c.1 as int)));
            i += 1;
        }
        Ok(Node::Interior(cells, right))
    } else {
        corrupt()
    }
}

/// Position of the first cell from `i` on whose rowid is at least `k`
/// (the number of cells when there is none).
pub open spec fn first_from(cs: Seq<CellV>, k: int, i: int) -> int
    decreases cs.len() - i,
{
    if i < 0 || i >= cs.len() {
        cs.len() as int
    } else if cs[i].rowid >= k {
        i
    } else {
        first_from(cs, k, i + 1)
    }
}

/// Whether the rowids of the cells strictly increase.
pub open spec fn cells_sorted(cs: Seq<CellV>) -> bool {
    forall|i: int, j: int| 0 <= i < j < cs.len() ==> #[trigger] cs[i].rowid < #[trigger] cs[j].rowid
}

/// The cells of a leaf with one more put in: it replaces the cell with its
/// rowid, or goes before the first cell with a larger one.
pub open spec fn leaf_put(cs: Seq<CellV>, c: CellV) -> Seq<CellV> {
    let p = first_from(cs, c.rowid, 0);
    if p < cs.len() && cs[p].rowid == c.rowid { cs.update(p, c) } else { cs.insert(p, c) }
}

/// The cell of a leaf with rowid `k`, found as a lookup finds it.
pub open spec fn find_cell(cs: Seq<CellV>, k: int) -> Option<CellV> {
    let p = first_from(cs, k, 0);
    if p < cs.len() && cs[p].rowid == k { Some(cs[p]) } else { None }
}

/// What `first_from` finds: every cell before it has a smaller rowid.
proof fn lemma_first_from(cs: Seq<CellV>, k: int, i: int)
    requires 0 <= i <= cs.len(),
    ensures i <= first_from(cs, k, i) <= cs.len(),
        forall|j: int| i <= j < first_from(cs, k, i) ==> #[trigger] cs[j].rowid < k,
        first_from(cs, k, i) < cs.len() ==> cs[first_from(cs, k, i)].rowid >= k,
    decreases cs.len() - i,
{
    if i < cs.len() && cs[i].rowid < k {
        lemma_first_from(cs, k, i + 1);
    }
}

/// A position before which all rowids are smaller and at which it is not is
/// the one `first_from` finds.
proof fn lemma_first_from_is(cs: Seq<CellV>, k: int, p: int)
    requires 0 <= p <= cs.len(),
        forall|j: int| 0 <= j < p ==> #[trigger] cs[j].rowid < k,
        p < cs.len() ==> cs[p].rowid >= k,
    ensures first_from(cs, k, 0) == p,
{
    lemma_first_from(cs, k, 0);
    let q = first_from(cs, k, 0);
    if q < p {
        assert(cs[q].rowid < k);
    } else if q > p {
        assert(cs[p].rowid < k);
    }
}

/// Putting a cell the format can hold into cells it can hold gives cells it can hold.
proof fn lemma_leaf_put_ok(cs: Seq<CellV>, c: CellV)
    requires cell_ok(c), forall|i: int| 0 <= i < cs.len() ==> cell_ok(#[trigger] cs[i]),
    ensures forall|i: int| 0 <= i < leaf_put(cs, c).len() ==> cell_ok(#[trigger] leaf_put(cs, c)[i]),
{
    let p = first_from(cs, c.rowid, 0);
    lemma_first_from(cs, c.rowid, 0);
    let np = leaf_put(cs, c);
    assert forall|i: int| 0 <= i < np.len() implies cell_ok(#[trigger] np[i]) by {
        if p < cs.len() && cs[p].rowid == c.rowid {
            if i != p { assert(np[i] == cs[i]); }
        } else {
            if i < p { assert(np[i] == cs[i]); } else if i > p { assert(np[i] == cs[i - 1]); }
        }
    }
}

/// Putting a cell into a leaf keeps its rowids increasing; a lookup of the
/// cell's rowid then finds it, and a lookup of any other rowid finds what it
/// found before.
pub proof fn law_leaf_put_then_find(cs: Seq<CellV>, c: CellV)
    requires cells_sorted(cs),
    ensures
        cells_sorted(leaf_put(cs, c)),
        find_cell(leaf_put(cs, c), c.rowid) == Some(c),
        forall|k: int| k != c.rowid ==> find_cell(leaf_put(cs, c), k) == #[trigger] find_cell(cs, k),
{
    let p = first_from(cs, c.rowid, 0);
    lemma_first_from(cs, c.rowid, 0);
    let np = leaf_put(cs, c);
    let replaced = p < cs.len() && cs[p].rowid == c.rowid;
    assert forall|i: int, j: int| 0 <= i < j < np.len() implies #[trigger] np[i].rowid < #[trigger] np[j].rowid by {
        if replaced {
            if i < p { assert(cs[i].rowid < c.rowid); }
            if j > p && i == p { assert(cs[p].rowid < cs[j].rowid); }
            if i != p && j != p { assert(cs[i].rowid < cs[j].rowid); }
            if j == p { assert(cs[i].rowid < c.rowid); }
        } else {
            if i < p && j < p { assert(np[i] == cs[i] && np[j] == cs[j]); }
            else if i < p && j == p { assert(np[i] == cs[i]); assert(cs[i].rowid < c.rowid); }
            else if i < p && j > p { assert(np[i] == cs[i] && np[j] == cs[j - 1]); assert(cs[i].rowid < cs[j - 1].rowid); }
            else if i == p { assert(np[j] == cs[j - 1]); assert(cs[p].rowid > c.rowid); if j - 1 > p { assert(cs[p].rowid < cs[j - 1].rowid); } }
            else { assert(np[i] == cs[i - 1] && np[j] == cs[j - 1]); assert(cs[i - 1].rowid < cs[j - 1].rowid); }
        }
    }
    assert forall|j: int| 0 <= j < p implies #[trigger] np[j].rowid < c.rowid by {
        assert(cs[j].rowid < c.rowid);
    }
    lemma_first_from_is(np, c.rowid, p);
    assert forall|k: int| k != c.rowid implies find_cell(np, k) == #[trigger] find_cell(cs, k) by {
        let q = first_from(cs, k, 0);
        lemma_first_from(cs, k, 0);
        if k < c.rowid {
            // the lookup stops before or at p in both
            assert forall|j: int| 0 <= j < q implies #[trigger] np[j].rowid < k by {
                if q <= p || j < p { assert(np[j] == cs[j]); } else { assert(cs[p].rowid < k); assert(cs[p].rowid >= c.rowid); }
            }
            if q < p || (q == p && !replaced && q < cs.len()) {
                if q < p { assert(np[q] == cs[q]); lemma_first_from_is(np, k, q); }
            }
            if q < p {
                assert(np[q] == cs[q]);
                lemma_first_from_is(np, k, q);
            } else {
                // q >= p: cs[p] (if any) has rowid >= c.rowid > k, so q == p
                if p < cs.len() { assert(cs[p].rowid >= c.rowid); }
                assert(q <= p) by {
                    if q > p && p < cs.len() { assert(cs[p].rowid < k); }
                };
                assert(np[p].rowid == c.rowid);
                lemma_first_from_is(np, k, p);
                if replaced {
                    assert(find_cell(cs, k) is None) by { if q < cs.len() { assert(cs[q].rowid == c.rowid); } };
                } else {
                    if q < cs.len() { assert(cs[q].rowid >= c.rowid); }
                }
            }
        } else {
            // k > c.rowid: the lookup goes past p
            if replaced {
                assert forall|j: int| 0 <= j < q implies #[trigger] np[j].rowid < k by {
                    if j == p { } else { assert(np[j] == cs[j]); }
                }
                if q < np.len() { if q == p { assert(cs[p].rowid < k); } assert(np[q] == cs[q] || q == p); }
                if q == p && q < cs.len() { assert(cs[p].rowid == c.rowid); assert(c.rowid < k); }
                lemma_first_from_is(np, k, q);
                if q < cs.len() { assert(q != p); assert(np[q] == cs[q]); }
            } else {
                assert(q >= p) by {
                    if q < p { assert(cs[q].rowid < c.rowid); }
                };
                assert forall|j: int| 0 <= j < q + 1 implies #[trigger] np[j].rowid < k by {
                    if j < p { assert(np[j] == cs[j]); } else if j == p { } else { assert(np[j] == cs[j - 1]); }
                }
                if q + 1 < np.len() { assert(np[q + 1] == cs[q]); }
                lemma_first_from_is(np, k, q + 1);
                if q < cs.len() { assert(np[q + 1] == cs[q]); }
            }
        }
    }
}

/// The cells of a leaf without the one with rowid `k`, found as a lookup finds it.
pub open spec fn leaf_remove(cs: Seq<CellV>, k: int) -> Seq<CellV> {
    let p = first_from(cs, k, 0);
    if p < cs.len() && cs[p].rowid == k { cs.remove(p) } else { cs }
}

/// Removing a rowid from a leaf keeps its rowids increasing; a lookup of the
/// rowid then finds nothing, and a lookup of any other rowid finds what it
/// found before.
pub proof fn law_leaf_remove_then_find(cs: Seq<CellV>, k: int)
    requires cells_sorted(cs),
    ensures
        cells_sorted(leaf_remove(cs, k)),
        find_cell(leaf_remove(cs, k), k) is None,
        forall|k2: int| k2 != k ==> find_cell(leaf_remove(cs, k), k2) == #[trigger] find_cell(cs, k2),
{
    let p = first_from(cs, k, 0);
    lemma_first_from(cs, k, 0);
    let nr = leaf_remove(cs, k);
    let found = p < cs.len() && cs[p].rowid == k;
    assert forall|i: int, j: int| 0 <= i < j < nr.len() implies #[trigger] nr[i].rowid < #[trigger] nr[j].rowid by {
        if found {
            let a = if i < p { i } else { i + 1 };
            let b = if j < p { j } else { j + 1 };
            assert(nr[i] == cs[a] && nr[j] == cs[b]);
            assert(cs[a].rowid < cs[b].rowid);
        }
    }
    // the rowid is gone
    if found {
        assert forall|j: int| 0 <= j < p implies #[trigger] nr[j].rowid < k by { assert(nr[j] == cs[j]); }
        if p < nr.len() {
            assert(nr[p] == cs[p + 1]);
            assert(cs[p].rowid < cs[p + 1].rowid);
        }
        lemma_first_from_is(nr, k, p);
    }
    assert forall|k2: int| k2 != k implies find_cell(nr, k2) == #[trigger] find_cell(cs, k2) by {
        if found {
            let q = first_from(cs, k2, 0);
            lemma_first_from(cs, k2, 0);
            if k2 < k {
                assert(q <= p) by { if q > p { assert(cs[p].rowid < k2); } };
                assert forall|j: int| 0 <= j < q implies #[trigger] nr[j].rowid < k2 by { assert(nr[j] == cs[j]); }
                if q < p { assert(nr[q] == cs[q]); }
                else if q < nr.len() { assert(nr[q] == cs[q + 1]); assert(cs[q].rowid < cs[q + 1].rowid); }
                lemma_first_from_is(nr, k2, q);
                if q == p { assert(cs[p].rowid == k); }
            } else {
                assert(q > p) by { if q <= p { if q < p { assert(cs[q].rowid < k); } assert(cs[p].rowid >= k2); } };
                assert forall|j: int| 0 <= j < q - 1 implies #[trigger] nr[j].rowid < k2 by {
                    if j < p { assert(nr[j] == cs[j]); } else { assert(nr[j] == cs[j + 1]); }
                }
                if q - 1 < nr.len() { assert(nr[q - 1] == cs[q]); }
                lemma_first_from_is(nr, k2, q - 1);
            }
        }
    }
}

/// After a row is put into a leaf whose rowids increase, a lookup of its
/// rowid finds the cell that holds all of the row's bytes, and they read
/// back as the row.
pub proof fn law_leaf_insert_then_find(cs: Seq<CellV>, rowid: int, vs: Seq<ValueV>)
    requires cells_sorted(cs), encodable(vs),
    ensures ({
        let c = CellV { rowid, total: record_bytes(vs).len() as int, local: record_bytes(vs), overflow: 0 };
        &&& find_cell(leaf_put(cs, c), rowid) == Some(c)
        &&& parse_record(c.local) == Some(vs)
    }),
{
    let c = CellV { rowid, total: record_bytes(vs).len() as int, local: record_bytes(vs), overflow: 0 };
    law_leaf_put_then_find(cs, c);
    law_record_roundtrip(vs);
}

/// Position of the child of an interior node whose rowids may include `rowid`:
/// the first cell whose key is at least `rowid`, or `cells.len()` for the
/// right-most child.
fn child_slot(cells: &Vec<(u32, i64)>, rowid: i64) -> (r: usize)
    ensures
        r <= cells@.len(),
        forall|k: int| 0 <= k < r ==> #[trigger] cells@[k].1 < rowid,
        r < cells@.len() ==> rowid <= cells@[r as int].1,
{
    let mut i: usize = 0;
    while i < cells.len()
        invariant i <= cells@.len(), forall|k: int| 0 <= k < i ==> #[trigger] cells@[k].1 < rowid,
        decreases cells.len() - i,
    {
        if rowid <= cells[i].1 {
            return i;
        }
        i += 1;
    }
    cells.len()
}

/// Position of the first leaf cell whose rowid is at least `rowid`.
fn leaf_slot(cells: &Vec<LeafCell>, rowid: i64) -> (r: usize)
    ensures
        r <= cells@.len(),
        forall|k: int| 0 <= k < r ==> #[trigger] cells@[k].rowid < rowid,
        r < cells@.len() ==> rowid <= cells@[r as int].rowid,
        r as int == first_from(cells_view(cells@), rowid as int, 0),
{
    let mut i: usize = 0;
    while i < cells.len()
        invariant i <= cells@.len(), forall|k: int| 0 <= k < i ==> #[trigger] cells@[k].rowid < rowid,
            first_from(cells_view(cells@), rowid as int, 0) == first_from(cells_view(cells@), rowid as int, i as int),
        decreases cells.len() - i,
    {
        if rowid <= cells[i].rowid {
            return i;
        }
        i += 1;
    }
    cells.len()
}

/// Splits cells where the first part reaches half the bytes.
fn split_point(cells: &Vec<LeafCell>) -> (r: usize)
    requires cells@.len() >= 2,
    ensures 1 <= r < cells@.len(),
{
    let half = leaf_size(cells) / 2;
    let mut acc: usize = 8;
    let mut i: usize = 0;
    while i < cells.len() - 1
        invariant i <= cells@.len() - 1,
        decreases cells.len() - 1 - i,
    {
        let add = leaf_cell_size(&cells[i]);
        acc = if acc <= usize::MAX - 2 && acc + 2 <= usize::MAX - add { acc + 2 + add } else { usize::MAX };
        if acc >= half {
            return if i == 0 { 1 } else { i + 1 };
        }
        i += 1;
    }
    cells.len() - 1
}

/// Moves the cells from position `at` on into a new list.
fn split_off_cells(cells: &mut Vec<LeafCell>, at: usize) -> (r: Vec<LeafCell>)
    requires at <= old(cells)@.len(),
    ensures
        final(cells)@ == old(cells)@.subrange(0, at as int),
        r@ == old(cells)@.subrange(at as int, old(cells)@.len() as int),
{
    let mut tail: Vec<LeafCell> = Vec::new();
    while cells.len() > at
        invariant
            at <= cells@.len() <= old(cells)@.len(),
            cells@ == old(cells)@.subrange(0, cells@.len() as int),
            tail@ == old(cells)@.subrange(cells@.len() as int, old(cells)@.len() as int),
        decreases cells.len(),
    {
        let c = cells.pop().unwrap();
        tail.insert(0, c);
    }
    tail
}

/// Whether the rowids of the rows strictly increase.
pub open spec fn rowids_increasing(rows: Seq<(i64, Vec<Value>)>) -> bool {
    forall|i: int, j: int| 0 <= i < j < rows.len() ==> #[trigger] rows[i].0 < #[trigger] rows[j].0
}

/// The values of the last `limit` rows, last row first.
pub fn last_rows_reversed(all: Vec<(i64, Vec<Value>)>, limit: usize) -> (r: Vec<Vec<Value>>)
    ensures
        r@.len() == (if limit < all@.len() { limit as int } else { all@.len() as int }),
        forall|k: int| 0 <= k < r@.len() ==> #[trigger] r@[k] == all@[all@.len() - 1 - k].1,
{
    let mut all = all;
    let ghost whole = all@;
    let mut out: Vec<Vec<Value>> = Vec::new();
    while out.len() < limit && all.len() > 0
        invariant
            out@.len() <= limit,
            all@ == whole.subrange(0, whole.len() - out@.len()),
            out@.len() <= whole.len(),
            forall|k: int| 0 <= k < out@.len() ==> #[trigger] out@[k] == whole[whole.len() - 1 - k].1,
        decreases all.len(),
    {
        let (_, vs) = all.pop().unwrap();
        out.push(vs);
    }
    out
}

/// The largest rowid under page `n`: the last cell of the leaf that the
/// right-most children lead to within `depth` pages; `None` when that leaf
/// is empty or a page on the way cannot be read.
pub open spec fn rightmost_rowid(pages: Seq<Page>, n: int, depth: nat) -> Option<int>
    decreases depth,
{
    if depth == 0 || !(1 <= n <= pages.len()) {
        None
    } else {
        match parse_node(pages[n - 1].data@) {
            Some(NodeV::Leaf(cells)) => if cells.len() > 0 { Some(cells.last().rowid) } else { None },
            Some(NodeV::Interior(_, right)) => rightmost_rowid(pages, right, (depth - 1) as nat),
            None => None,
        }
    }
}

/// How many pages the overflow chain from page `next` takes, following at
/// most `fuel` links; `None` where a link names no page, a page is too short
/// to hold a link, or the links do not end.
pub open spec fn chain_len(pages: Seq<Page>, next: int, fuel: int) -> Option<int>
    decreases fuel,
{
    if next == 0 {
        Some(0)
    } else if fuel <= 0 || !(1 <= next <= pages.len()) || pages[next - 1].data@.len() < 4 {
        None
    } else {
        match chain_len(pages, le4(pages[next - 1].data@.subrange(0, 4)), fuel - 1) {
            Some(k) => Some(k + 1),
            None => None,
        }
    }
}

/// Whether every cell keeps its whole payload in the page, and the payload
/// reads as a record.
pub open spec fn cells_plain(cs: Seq<CellV>) -> bool {
    forall|i: int| 0 <= i < cs.len() ==> (#[trigger] cs[i]).overflow == 0 && cs[i].local.len() == cs[i].total
        && parse_record(cs[i].local) is Some
}

/// The rowid and the values of the record of each cell.
pub open spec fn cell_rows(cs: Seq<CellV>) -> Seq<(int, Seq<ValueV>)> {
    cs.map_values(|c: CellV| (c.rowid, parse_record(c.local).unwrap()))
}

/// Rows with their rowids, as numbers and values.
pub open spec fn row_pairs(rows: Seq<(i64, Vec<Value>)>) -> Seq<(int, Seq<ValueV>)> {
    rows.map_values(|r: (i64, Vec<Value>)| (r.0 as int, vals(r.1@)))
}

/// A count capped at `usize::MAX`.
pub open spec fn capped_sum(a: int, b: int) -> int {
    if a + b <= usize::MAX { a + b } else { usize::MAX as int }
}

/// How many leaf pages lie under page `n`, walking at most `depth` levels;
/// `None` where a page is missing or breaks the format, a leaf's cells do
/// not fit in a page, or the tree is deeper.
pub open spec fn leaf_count(pages: Seq<Page>, n: int, depth: int) -> Option<int>
    decreases depth, 0int,
{
    if depth <= 0 || !(1 <= n <= pages.len()) {
        None
    } else {
        match parse_node(pages[n - 1].data@) {
            Some(NodeV::Leaf(cs)) => if leaf_size_spec(cs) <= PAGE_SIZE { Some(1) } else { None },
            Some(NodeV::Interior(ch, right)) => match children_count(pages, ch, ch.len() as int, depth - 1) {
                Some(a) => match leaf_count(pages, right, depth - 1) {
                    Some(b) => Some(capped_sum(a, b)),
                    None => None,
                },
                None => None,
            },
            None => None,
        }
    }
}

/// How many leaf pages lie under the first `k` children.
pub open spec fn children_count(pages: Seq<Page>, ch: Seq<(int, int)>, k: int, depth: int) -> Option<int>
    decreases depth, k,
{
    if k <= 0 || depth < 0 {
        Some(0)
    } else if k > ch.len() {
        None
    } else {
        match children_count(pages, ch, k - 1, depth) {
            Some(a) => match leaf_count(pages, ch[k - 1].0, depth) {
                Some(b) => Some(capped_sum(a, b)),
                None => None,
            },
            None => None,
        }
    }
}

/// The overflow pages of the first `k` cells, counted up to `usize::MAX`;
/// `None` where a chain is broken.
pub open spec fn ovf_sum(pages: Seq<Page>, cs: Seq<CellV>, k: int) -> Option<int>
    decreases k,
{
    if k <= 0 {
        Some(0)
    } else {
        match (ovf_sum(pages, cs, k - 1), chain_len(pages, cs[k - 1].overflow, pages.len() as int)) {
            (Some(a), Some(b)) => Some(capped_sum(a, b)),
            _ => None,
        }
    }
}

/// The statistics a leaf page adds: one leaf, its count of fragmented
/// bytes, its overflow pages and its free bytes, each sum capped at
/// `usize::MAX`.
pub open spec fn leaf_stats(acc: (usize, usize, usize, usize), data: Seq<u8>, cs: Seq<CellV>, ovf: int) -> (int, int, int, int) {
    let frag = if data.len() > 5 { data[5] as int } else { 0 };
    let free = if leaf_size_spec(cs) <= PAGE_SIZE { PAGE_SIZE - leaf_size_spec(cs) } else { 0 };
    (capped_sum(acc.0 as int, 1), capped_sum(acc.1 as int, frag), capped_sum(acc.2 as int, ovf), capped_sum(acc.3 as int, free))
}

/// Once the overflow pages of the first cells cannot be counted, neither can
/// those of more cells.
proof fn lemma_ovf_sum_stuck(pages: Seq<Page>, cs: Seq<CellV>, k: int, k2: int)
    requires 0 < k <= k2, ovf_sum(pages, cs, k) is None,
    ensures ovf_sum(pages, cs, k2) is None,
    decreases k2 - k,
{
    if k < k2 {
        lemma_ovf_sum_stuck(pages, cs, k, k2 - 1);
    }
}

/// Counting leaves looks only at how each page reads.
proof fn lemma_leaf_count_frame(p1: Seq<Page>, p2: Seq<Page>, n: int, depth: int)
    requires p1.len() == p2.len(),
        forall|p: int| 0 <= p < p1.len() ==> parse_node(#[trigger] p2[p].data@) == parse_node(p1[p].data@),
    ensures leaf_count(p2, n, depth) == leaf_count(p1, n, depth),
    decreases depth, 0int,
{
    if depth > 0 && 1 <= n <= p1.len() {
        assert(parse_node(p2[n - 1].data@) == parse_node(p1[n - 1].data@));
        match parse_node(p1[n - 1].data@) {
            Some(NodeV::Interior(ch, right)) => {
                lemma_children_count_frame(p1, p2, ch, ch.len() as int, depth - 1);
                lemma_leaf_count_frame(p1, p2, right, depth - 1);
            },
            _ => {},
        }
    }
}

proof fn lemma_children_count_frame(p1: Seq<Page>, p2: Seq<Page>, ch: Seq<(int, int)>, k: int, depth: int)
    requires p1.len() == p2.len(),
        forall|p: int| 0 <= p < p1.len() ==> parse_node(#[trigger] p2[p].data@) == parse_node(p1[p].data@),
    ensures children_count(p2, ch, k, depth) == children_count(p1, ch, k, depth),
    decreases depth, k,
{
    if k > 0 && depth >= 0 && k <= ch.len() {
        lemma_children_count_frame(p1, p2, ch, k - 1, depth);
        lemma_leaf_count_frame(p1, p2, ch[k - 1].0, depth);
    }
}

/// Once a count of the first children is unknown, so is every longer one.
proof fn lemma_children_count_stuck(pages: Seq<Page>, ch: Seq<(int, int)>, k: int, k2: int, depth: int)
    requires 0 < k <= k2, depth >= 0, children_count(pages, ch, k, depth) is None,
    ensures children_count(pages, ch, k2, depth) is None,
    decreases k2 - k,
{
    if k < k2 {
        lemma_children_count_stuck(pages, ch, k, k2 - 1, depth);
    }
}

/// A B+ tree over the pages of a pager.
pub struct BTree<'a> {
    pub pager: &'a mut Pager,
}

impl<'a> BTree<'a> {
    /// The pages of the pager the tree works on.
    pub open spec fn pages(&self) -> Seq<Page> {
        self.pager.pages@
    }

    /// A tree working on the pages of `pager`.
    pub fn new(pager: &'a mut Pager) -> (r: BTree<'a>)
        ensures r.pages() == old(pager).pages@,
    {
        BTree { pager }
    }

    /// Reads page `n` as a tree node; fails when there is no such page or
    /// it breaks the format.
    fn read_node(&self, n: u32) -> (r: Result<Node>)
        ensures
            r is Ok == (1 <= n <= self.pages().len() && parse_node(self.pages()[n - 1].data@) is Some),
            r matches Ok(node) ==> parse_node(self.pages()[n - 1].data@) == Some(node_view(node)),
    {
        let page = self.pager.get_page(n)?;
        decode_node(&page.data)
    }

    fn write_bytes(&mut self, n: u32, data: Vec<u8>) -> (r: Result<()>)
        ensures
            old(self).pager.has_page(n) ==> r is Ok && final(self).pager.pages@ == old(self).pager.pages@.update(n - 1, Page { data }),
            !old(self).pager.has_page(n) ==> r is Err && final(self).pager.pages@ == old(self).pager.pages@,
    {
        self.pager.write_page(n, data)
    }

    /// Writes the cells as leaf page `n`. Once written, the page reads back
    /// as exactly those cells; no other page changes.
    fn write_leaf(&mut self, n: u32, cells: &Vec<LeafCell>) -> (r: Result<()>)
        ensures
            final(self).pager.pages@.len() == old(self).pager.pages@.len(),
            r is Err ==> final(self).pager.pages@ == old(self).pager.pages@,
            r is Ok ==> old(self).pager.has_page(n) && final(self).pager.pages@ == old(self).pager.pages@.update(n - 1, final(self).pager.pages@[n - 1]),
            r is Ok && (forall|i: int| 0 <= i < cells@.len() ==> cell_ok(cell_view(#[trigger] cells@[i]))) ==>
                parse_node(final(self).pager.pages@[n - 1].data@) == Some(NodeV::Leaf(cells_view(cells@))),
            r is Ok <==> old(self).pager.has_page(n) && leaf_size_spec(cells_view(cells@)) <= PAGE_SIZE,
    {
        match encode_leaf(cells) {
            Some(d) => self.write_bytes(n, d),
            None => corrupt(),
        }
    }

    /// Writes the entries as interior page `n`. Once written, the page reads
    /// back as exactly those entries and right-most child; no other page changes.
    fn write_interior(&mut self, n: u32, cells: &Vec<(u32, i64)>, right: u32) -> (r: Result<()>)
        ensures
            final(self).pager.pages@.len() == old(self).pager.pages@.len(),
            r is Err ==> final(self).pager.pages@ == old(self).pager.pages@,
            r is Ok ==> old(self).pager.has_page(n) && final(self).pager.pages@ == old(self).pager.pages@.update(n - 1, final(self).pager.pages@[n - 1])
                && parse_node(final(self).pager.pages@[n - 1].data@) == Some(NodeV::Interior(children_view(cells@), right as int)),
            r is Ok <==> old(self).pager.has_page(n) && cells@.len() <= (PAGE_SIZE - 12) / 14,
    {
        match encode_interior(cells, right) {
            Some(d) => self.write_bytes(n, d),
            None => corrupt(),
        }
    }

    /// A leaf cell for a payload; a payload longer than `MAX_LOCAL` goes to
    /// a chain of overflow pages.
    fn make_cell(&mut self, rowid: i64, payload: Vec<u8>) -> (r: Result<LeafCell>)
        ensures
            r matches Ok(c) ==> cell_ok(cell_view(c)) && c.rowid == rowid && c.total as int == payload@.len()
                && (payload@.len() <= MAX_LOCAL ==> c.local@ == payload@ && c.overflow == 0),
            r is Ok <==> payload@.len() <= u32::MAX && (payload@.len() <= MAX_LOCAL
                || old(self).pages().len() + overflow_chunks(payload@.len() as int) <= u32::MAX),
            payload@.len() <= MAX_LOCAL ==> final(self).pages() == old(self).pages(),
            r matches Ok(c) ==> payload@.len() > MAX_LOCAL ==> c.local@.len() == 0 && c.overflow == old(self).pages().len() + 1
                && final(self).pages().len() == old(self).pages().len() + overflow_chunks(payload@.len() as int),
            final(self).pages().len() >= old(self).pages().len(),
            forall|i: int| 0 <= i < old(self).pages().len() ==> #[trigger] final(self).pages()[i] == old(self).pages()[i],
    {
        let ghost orig = self.pages();
        if (payload.len() as u64) > 0xFFFF_FFFFu64 {
            return Err(KkdbError::new(ErrorKind::Limit, "row too large"));
        }
        let total = payload.len() as u32;
        if payload.len() <= MAX_LOCAL {
            return Ok(LeafCell { rowid, total, local: payload, overflow: 0 });
        }
        let nchunks = payload.len() / OVERFLOW_CHUNK + if payload.len() % OVERFLOW_CHUNK == 0 { 0 } else { 1 };
        assert(nchunks >= 1);
        let mut pages: Vec<u32> = Vec::new();
        let mut k: usize = 0;
        while k < nchunks
            invariant k <= nchunks, pages@.len() == k, forall|x: int| 0 <= x < k ==> #[trigger] pages@[x] >= 1,
                nchunks == overflow_chunks(payload@.len() as int), self.pages().len() == orig.len() + k,
                k > 0 ==> self.pages().len() <= u32::MAX, payload@.len() > MAX_LOCAL,
                forall|x: int| 0 <= x < k ==> #[trigger] pages@[x] == orig.len() + 1 + x,
                forall|x: int| 0 <= x < k ==> orig.len() < #[trigger] pages@[x] <= self.pages().len(),
                self.pages().len() >= orig.len(), orig == old(self).pages(),
                forall|i: int| 0 <= i < orig.len() ==> #[trigger] self.pages()[i] == orig[i],
            decreases nchunks - k,
        {
            let n = self.pager.allocate_page()?;
            pages.push(n);
            k += 1;
        }
        let mut c: usize = 0;
        let mut start: usize = 0;
        while c < nchunks
            invariant c <= nchunks, pages@.len() == nchunks, nchunks >= 1, start <= payload@.len(), pages@[0] >= 1,
                nchunks == overflow_chunks(payload@.len() as int), self.pages().len() == orig.len() + nchunks,
                self.pages().len() <= u32::MAX,
                forall|x: int| 0 <= x < nchunks ==> #[trigger] pages@[x] == orig.len() + 1 + x,
                forall|x: int| 0 <= x < nchunks ==> orig.len() < #[trigger] pages@[x],
                self.pages().len() >= orig.len(), orig == old(self).pages(),
                forall|i: int| 0 <= i < orig.len() ==> #[trigger] self.pages()[i] == orig[i],
            decreases nchunks - c,
        {
            let rest = payload.len() - start;
            let end = if rest > OVERFLOW_CHUNK { start + OVERFLOW_CHUNK } else { payload.len() };
            let next = if c + 1 < nchunks { pages[c + 1] } else { 0 };
            let mut data = zero_page().data;
            let mut head: Vec<u8> = Vec::new();
            push_u32(&mut head, next);
            push_u16(&mut head, (end - start) as u16);
            let mut k2: usize = start;
            while k2 < end
                invariant start <= k2 <= end, end <= payload@.len(), end - start <= OVERFLOW_CHUNK,
                    head@.len() == 6 + (k2 - start),
                decreases end - k2,
            {
                head.push(payload[k2]);
                k2 += 1;
            }
            put_at(&mut data, 0, &head);
            self.write_bytes(pages[c], data)?;
            start = end;
            c += 1;
        }
        Ok(LeafCell { rowid, total, local: Vec::new(), overflow: pages[0] })
    }

    /// The whole payload of a cell, with its overflow pages.
    fn read_payload(&self, cell: &LeafCell) -> (r: Result<Vec<u8>>)
        ensures cell.overflow == 0 && cell.local@.len() == cell.total ==> (r matches Ok(out) && out@ == cell.local@),
    {
        let mut out: Vec<u8> = Vec::new();
        push_slice(&mut out, cell.local.as_slice());
        let mut next = cell.overflow;
        let limit = self.pager.page_count();
        let mut steps: usize = 0;
        while next != 0 && (out.len() as u64) < (cell.total as u64)
            invariant steps <= limit,
                cell.overflow == 0 && cell.local@.len() == cell.total ==> (next == 0 && out@ == cell.local@),
            decreases limit - steps,
        {
            if steps == limit {
                return corrupt();
            }
            let page = self.pager.get_page(next)?;
            let data = &page.data;
            if data.len() < 6 {
                return corrupt();
            }
            let following = read_u32(data, 0);
            let n = read_u16(data, 4) as usize;
            if 6 + n > data.len() {
                return corrupt();
            }
            let mut k: usize = 0;
            while k < n
                invariant k <= n, n <= 0xFFFF, 6 + n <= data@.len(),
                decreases n - k,
            {
                out.push(data[6 + k]);
                k += 1;
            }
            next = following;
            steps += 1;
        }
        if (out.len() as u64) != (cell.total as u64) {
            return corrupt();
        }
        Ok(out)
    }

    /// The number of overflow pages a cell uses.
    fn overflow_pages(&self, cell: &LeafCell) -> (r: Result<usize>)
        ensures
            match chain_len(self.pages(), cell.overflow as int, self.pages().len() as int) {
                Some(k) => r matches Ok(x) && x == k,
                None => r is Err,
            },
    {
        let mut next = cell.overflow;
        let limit = self.pager.page_count();
        let mut steps: usize = 0;
        while next != 0
            invariant steps <= limit, limit == self.pages().len(),
                chain_len(self.pages(), cell.overflow as int, limit as int) == match chain_len(self.pages(), next as int, limit - steps) {
                    Some(k) => Some(k + steps),
                    None => None,
                },
            decreases limit - steps,
        {
            if steps == limit {
                return corrupt();
            }
            let page = self.pager.get_page(next)?;
            if page.data.len() < 4 {
                return corrupt();
            }
            next = read_u32(&page.data, 0);
            steps += 1;
        }
        Ok(steps)
    }

    /// Inserts a cell under page `n`; when the page splits, returns the
    /// largest rowid kept in it and the page that took the rest.
    fn insert_into(&mut self, n: u32, cell: LeafCell, depth: u32) -> (r: Result<Option<(i64, u32)>>)
        ensures
            final(self).pages().len() >= old(self).pages().len(),
            parse_node(old(self).pages()[n - 1].data@) matches Some(NodeV::Leaf(cs)) ==>
                ((old(self).pager.has_page(n) && cell_ok(cell_view(cell)) && r matches Ok(None)) ==>
                    parse_node(final(self).pages()[n - 1].data@) == Some(NodeV::Leaf(leaf_put(cs, cell_view(cell))))),
            depth == 0 || !old(self).pager.has_page(n) ==> r is Err,
            parse_node(old(self).pages()[n - 1].data@) matches Some(NodeV::Leaf(cs)) ==>
                ((depth > 0 && old(self).pager.has_page(n) && leaf_size_spec(leaf_put(cs, cell_view(cell))) <= PAGE_SIZE) ==>
                    r matches Ok(None)),
        decreases depth,
    {
        if depth == 0 {
            return too_deep();
        }
        let ghost cv = cell_view(cell);
        match self.read_node(n)? {
            Node::Leaf(cells) => {
                let mut cells = cells;
                let ghost cs = cells_view(cells@);
                proof {
                    assert(parse_node(self.pages()[n - 1].data@) == Some(NodeV::Leaf(cs)));
                    lemma_leaf_cells_ok(self.pages()[n - 1].data@, cs);
                    assert(forall|i: int| 0 <= i < cs.len() ==> cell_ok(#[trigger] cs[i]));
                }
                let pos = leaf_slot(&cells, cell.rowid);
                if pos < cells.len() && cells[pos].rowid == cell.rowid {
                    cells.set(pos, cell);
                    assert(cells_view(cells@) =~= leaf_put(cs, cv));
                } else {
                    cells.insert(pos, cell);
                    assert(cells_view(cells@) =~= leaf_put(cs, cv));
                }
                proof {
                    if cell_ok(cv) {
                        lemma_leaf_put_ok(cs, cv);
                        assert forall|i: int| 0 <= i < cells@.len() implies cell_ok(cell_view(#[trigger] cells@[i])) by {
                            assert(cell_view(cells@[i]) == cells_view(cells@)[i]);
                        }
                    }
                }
                if leaf_size(&cells) <= PAGE_SIZE {
                    self.write_leaf(n, &cells)?;
                    return Ok(None);
                }
                if cells.len() < 2 {
                    return corrupt();
                }
                let mid = split_point(&cells);
                let right_cells = split_off_cells(&mut cells, mid);
                let sep = cells[cells.len() - 1].rowid;
                let right = self.pager.allocate_page()?;
                self.write_leaf(right, &right_cells)?;
                self.write_leaf(n, &cells)?;
                Ok(Some((sep, right)))
            },
            Node::Interior(cells, right) => {
                let mut cells = cells;
                let mut right = right;
                let slot = child_slot(&cells, cell.rowid);
                let child = if slot < cells.len() { cells[slot].0 } else { right };
                match self.insert_into(child, cell, depth - 1)? {
                    None => Ok(None),
                    Some((sep, newpg)) => {
                        if slot < cells.len() {
                            let key = cells[slot].1;
                            cells.set(slot, (child, sep));
                            cells.insert(slot + 1, (newpg, key));
                        } else {
                            cells.push((child, sep));
                            right = newpg;
                        }
                        if cells.len() <= (PAGE_SIZE - 12) / 14 {
                            self.write_interior(n, &cells, right)?;
                            return Ok(None);
                        }
                        let mid = cells.len() / 2;
                        let mut upper: Vec<(u32, i64)> = Vec::new();
                        let mut k: usize = mid + 1;
                        while k < cells.len()
                            invariant mid + 1 <= k <= cells@.len(),
                            decreases cells.len() - k,
                        {
                            upper.push(cells[k]);
                            k += 1;
                        }
                        let (left_right, up_key) = cells[mid];
                        cells.truncate(mid);
                        let newright = self.pager.allocate_page()?;
                        self.write_interior(newright, &upper, right)?;
                        self.write_interior(n, &cells, left_right)?;
                        Ok(Some((up_key, newright)))
                    },
                }
            },
        }
    }

    /// Inserts a row under its rowid (replacing a row with the same rowid)
    /// and returns the root page, which is new when the root split.
    ///
    /// When the root is a leaf page with room for a row whose bytes fit in
    /// the page, the root stays, and it then holds the row's bytes under its
    /// rowid, put among its cells as `leaf_put` says.
    #[verifier::rlimit(40)]
    pub fn insert(&mut self, root: u32, rowid: i64, row: &Vec<Value>) -> (r: Result<u32>)
        ensures
            parse_node(old(self).pages()[root - 1].data@) matches Some(NodeV::Leaf(cs)) ==>
                ((old(self).pager.has_page(root) && record_bytes(vals(row@)).len() <= MAX_LOCAL && (r matches Ok(x) && x == root)) ==>
                    parse_node(final(self).pages()[root - 1].data@) == Some(NodeV::Leaf(leaf_put(cs, CellV {
                        rowid: rowid as int,
                        total: record_bytes(vals(row@)).len() as int,
                        local: record_bytes(vals(row@)),
                        overflow: 0,
                    })))),
            !encodable(vals(row@)) ==> r is Err,
            parse_node(old(self).pages()[root - 1].data@) matches Some(NodeV::Leaf(cs)) ==>
                ((old(self).pager.has_page(root) && encodable(vals(row@)) && record_bytes(vals(row@)).len() <= MAX_LOCAL
                    && leaf_size_spec(leaf_put(cs, CellV {
                        rowid: rowid as int,
                        total: record_bytes(vals(row@)).len() as int,
                        local: record_bytes(vals(row@)),
                        overflow: 0,
                    })) <= PAGE_SIZE) ==> r == Ok::<u32, KkdbError>(root)),
    {
        let payload = match encode_record(row) {
            Some(b) => b,
            None => { return Err(KkdbError::new(ErrorKind::Limit, "row too large")); },
        };
        assert(payload@ == record_bytes(vals(row@)));
        let ghost before = self.pages();
        let cell = self.make_cell(rowid, payload)?;
        proof {
            if 1 <= root <= before.len() {
                assert(self.pages()[root - 1] == before[root - 1]);
            }
        }
        let ghost mid = self.pages();
        let ghost cv = cell_view(cell);
        proof {
            if payload@.len() <= MAX_LOCAL {
                assert(cv == (CellV { rowid: rowid as int, total: record_bytes(vals(row@)).len() as int,
                    local: record_bytes(vals(row@)), overflow: 0 }));
            }
        }
        match self.insert_into(root, cell, MAX_DEPTH)? {
            None => {
                proof {
                    if 1 <= root <= before.len() {
                        assert(mid[root - 1] == before[root - 1]);
                    }
                }
                Ok(root)
            },
            Some((sep, right)) => {
                let ghost len_before = self.pages().len();
                let newroot = self.pager.allocate_page()?;
                assert(newroot as int == len_before + 1);
                let mut cells: Vec<(u32, i64)> = Vec::new();
                cells.push((root, sep));
                self.write_interior(newroot, &cells, right)?;
                Ok(newroot)
            },
        }
    }

    /// The leaf page whose rowids may include `rowid`.
    fn find_leaf(&self, root: u32, rowid: i64) -> (r: Result<(u32, Vec<LeafCell>)>)
        ensures
            parse_node(self.pages()[root - 1].data@) matches Some(NodeV::Leaf(cs)) ==> (1 <= root <= self.pages().len() ==>
                (r matches Ok(found) && found.0 == root && cells_view(found.1@) == cs)),
            !(1 <= root <= self.pages().len()) ==> r is Err,
    {
        let ghost leaf_root = 1 <= root <= self.pages().len() && parse_node(self.pages()[root - 1].data@) is Some
            && parse_node(self.pages()[root - 1].data@).unwrap() is Leaf;
        let mut n = root;
        let mut depth: u32 = 0;
        while depth < MAX_DEPTH
            invariant depth <= MAX_DEPTH, leaf_root ==> depth == 0 && n == root,
                !(1 <= root <= self.pages().len()) ==> depth == 0 && n == root,
                leaf_root == (1 <= root <= self.pages().len() && parse_node(self.pages()[root - 1].data@) is Some
                    && parse_node(self.pages()[root - 1].data@).unwrap() is Leaf),
            decreases MAX_DEPTH - depth,
        {
            match self.read_node(n)? {
                Node::Leaf(cells) => { return Ok((n, cells)); },
                Node::Interior(cells, right) => {
                    let slot = child_slot(&cells, rowid);
                    n = if slot < cells.len() { cells[slot].0 } else { right };
                },
            }
            depth += 1;
        }
        too_deep()
    }

    /// The row with the given rowid, if there is one.
    ///
    /// When the root is a leaf page: no row when it has no cell with the
    /// rowid, and the row its cell holds when that cell keeps all its bytes.
    pub fn find_by_rowid(&self, root: u32, rowid: i64) -> (r: Result<Option<(i64, Vec<Value>)>>)
        ensures
            r matches Ok(Some(found)) ==> found.0 == rowid,
            parse_node(self.pages()[root - 1].data@) matches Some(NodeV::Leaf(cs)) ==> (1 <= root <= self.pages().len() ==> {
                &&& find_cell(cs, rowid as int) is None ==> (r matches Ok(None))
                &&& (find_cell(cs, rowid as int) is Some && find_cell(cs, rowid as int).unwrap().overflow == 0
                        && parse_record(find_cell(cs, rowid as int).unwrap().local) is Some) ==>
                        (r matches Ok(Some(found)) && vals(found.1@) == parse_record(find_cell(cs, rowid as int).unwrap().local).unwrap())
            }),
    {
        let (_, cells) = self.find_leaf(root, rowid)?;
        let pos = leaf_slot(&cells, rowid);
        proof {
            if 1 <= root <= self.pages().len() && parse_node(self.pages()[root - 1].data@) matches Some(NodeV::Leaf(cs)) {
                lemma_leaf_cells_ok(self.pages()[root - 1].data@, cells_view(cells@));
                if pos < cells@.len() {
                    assert(cells_view(cells@)[pos as int] == cell_view(cells@[pos as int]));
                }
            }
        }
        if pos < cells.len() && cells[pos].rowid == rowid {
            let payload = self.read_payload(&cells[pos])?;
            match decode_record(&payload) {
                Some(vs) => Ok(Some((rowid, vs))),
                None => corrupt(),
            }
        } else {
            Ok(None)
        }
    }

    /// Deletes the row with the given rowid. Returns whether there was one,
    /// and the root page.
    ///
    /// When the root is a leaf page, it says whether the leaf had a cell with
    /// the rowid and leaves the leaf without it, as `leaf_remove` says.
    pub fn delete_by_rowid(&mut self, root: u32, rowid: i64) -> (r: Result<(bool, u32)>)
        ensures
            r matches Ok(res) ==> res.1 == root,
            parse_node(old(self).pages()[root - 1].data@) matches Some(NodeV::Leaf(cs)) ==>
                ((1 <= root <= old(self).pages().len() && (r matches Ok(res))) ==>
                    r.unwrap().0 == find_cell(cs, rowid as int) is Some
                    && parse_node(final(self).pages()[root - 1].data@) == Some(NodeV::Leaf(leaf_remove(cs, rowid as int)))),
            !old(self).pager.has_page(root) ==> r is Err,
            parse_node(old(self).pages()[root - 1].data@) matches Some(NodeV::Leaf(cs)) ==> (old(self).pager.has_page(root) ==>
                (find_cell(cs, rowid as int) is None ==> r == Ok::<(bool, u32), KkdbError>((false, root)))
                && (find_cell(cs, rowid as int) is Some ==> (r is Ok <==> leaf_size_spec(leaf_remove(cs, rowid as int)) <= PAGE_SIZE))),
    {
        let (leaf, cells) = self.find_leaf(root, rowid)?;
        let mut cells = cells;
        let ghost cs = cells_view(cells@);
        let pos = leaf_slot(&cells, rowid);
        proof {
            if 1 <= root <= self.pages().len() && parse_node(self.pages()[root - 1].data@) is Some
                && parse_node(self.pages()[root - 1].data@).unwrap() is Leaf {
                lemma_leaf_cells_ok(self.pages()[root - 1].data@, cs);
            }
        }
        if pos < cells.len() && cells[pos].rowid == rowid {
            cells.remove(pos);
            proof {
                assert(cells_view(cells@) =~= cs.remove(pos as int));
                if 1 <= root <= self.pages().len() && parse_node(self.pages()[root - 1].data@) is Some
                    && parse_node(self.pages()[root - 1].data@).unwrap() is Leaf {
                    assert forall|i: int| 0 <= i < cells@.len() implies cell_ok(cell_view(#[trigger] cells@[i])) by {
                        assert(cell_view(cells@[i]) == cells_view(cells@)[i]);
                        if i < pos { assert(cells_view(cells@)[i] == cs[i]); } else { assert(cells_view(cells@)[i] == cs[i + 1]); }
                    }
                }
            }
            self.write_leaf(leaf, &cells)?;
            Ok((true, root))
        } else {
            Ok((false, root))
        }
    }

    /// Appends the rows under page `n`, in rowid order; a rowid that does not
    /// follow the ones before it makes it fail.
    fn collect(&self, n: u32, depth: u32, out: &mut Vec<(i64, Vec<Value>)>) -> (r: Result<()>)
        requires rowids_increasing(old(out)@),
        ensures rowids_increasing(final(out)@),
            depth == 0 || !(1 <= n <= self.pages().len()) ==> r is Err,
            (depth > 0 && 1 <= n <= self.pages().len()) ==> match parse_node(self.pages()[n - 1].data@) {
                Some(NodeV::Leaf(cs)) => (cells_plain(cs) && cells_sorted(cs)
                    && (old(out)@.len() > 0 && cs.len() > 0 ==> old(out)@.last().0 < cs[0].rowid))
                    ==> (r is Ok && row_pairs(final(out)@) == row_pairs(old(out)@) + cell_rows(cs)),
                _ => true,
            },
        decreases depth,
    {
        if depth == 0 {
            return too_deep();
        }
        match self.read_node(n)? {
            Node::Leaf(cells) => {
                let ghost cs = cells_view(cells@);
                let ghost good = cells_plain(cs) && cells_sorted(cs)
                    && (old(out)@.len() > 0 && cs.len() > 0 ==> old(out)@.last().0 < cs[0].rowid);
                let mut i: usize = 0;
                assert(cell_rows(cs.take(0)) =~= Seq::<(int, Seq<ValueV>)>::empty());
                assert(row_pairs(out@) =~= row_pairs(old(out)@) + cell_rows(cs.take(0)));
                while i < cells.len()
                    invariant i <= cells@.len(), rowids_increasing(out@), cs == cells_view(cells@), cs.len() == cells@.len(),
                        depth > 0, 1 <= n <= self.pages().len(), parse_node(self.pages()[n - 1].data@) == Some(NodeV::Leaf(cs)),
                        good == (cells_plain(cs) && cells_sorted(cs)
                            && (old(out)@.len() > 0 && cs.len() > 0 ==> old(out)@.last().0 < cs[0].rowid)),
                        good ==> row_pairs(out@) == row_pairs(old(out)@) + cell_rows(cs.take(i as int)),
                        good && i > 0 ==> out@.len() > 0 && out@.last().0 == cs[i - 1].rowid,
                        good && i == 0 ==> out@ == old(out)@,
                    decreases cells.len() - i,
                {
                    let rowid = cells[i].rowid;
                    let len = out.len();
                    assert(cs[i as int] == cell_view(cells@[i as int]));
                    proof {
                        if good {
                            assert(cs[i as int].overflow == 0 && cs[i as int].local.len() == cs[i as int].total);
                            assert(parse_record(cs[i as int].local) is Some);
                            if i > 0 {
                                assert(cs[i - 1].rowid < cs[i as int].rowid);
                            }
                        }
                    }
                    if len > 0 && out[len - 1].0 >= rowid {
                        return corrupt();
                    }
                    let payload = self.read_payload(&cells[i])?;
                    match decode_record(&payload) {
                        Some(vs) => {
                            proof {
                                assert forall|a: int| 0 <= a < len implies #[trigger] out@[a].0 < rowid by {
                                    if a < len - 1 {
                                        assert(out@[a].0 < out@[len - 1].0);
                                    }
                                }
                                if good {
                                    assert(cs.take(i + 1) =~= cs.take(i as int).push(cs[i as int]));
                                    assert(cell_rows(cs.take(i + 1)) =~= cell_rows(cs.take(i as int)).push((cs[i as int].rowid, parse_record(cs[i as int].local).unwrap())));
                                    assert(row_pairs(out@.push((rowid, vs))) =~= row_pairs(out@).push((rowid as int, vals(vs@))));
                                }
                            }
                            out.push((rowid, vs));
                        },
                        None => { return corrupt(); },
                    }
                    i += 1;
                }
                assert(cs.take(cs.len() as int) =~= cs);
                Ok(())
            },
            Node::Interior(cells, right) => {
                let mut i: usize = 0;
                while i < cells.len()
                    invariant i <= cells@.len(), depth > 0, rowids_increasing(out@),
                        1 <= n <= self.pages().len(), parse_node(self.pages()[n - 1].data@) is Some,
                        parse_node(self.pages()[n - 1].data@).unwrap() is Interior,
                    decreases cells.len() - i,
                {
                    self.collect(cells[i].0, depth - 1, out)?;
                    i += 1;
                }
                self.collect(right, depth - 1, out)
            },
        }
    }

    /// All rows with their rowids, in rowid order.
    pub fn scan_all(&self, root: u32) -> (r: Result<Vec<(i64, Vec<Value>)>>)
        ensures r matches Ok(rows) ==> rowids_increasing(rows@),
            !(1 <= root <= self.pages().len()) ==> r is Err,
            1 <= root <= self.pages().len() ==> match parse_node(self.pages()[root - 1].data@) {
                Some(NodeV::Leaf(cs)) => (cells_plain(cs) && cells_sorted(cs)) ==> (r matches Ok(rows) && row_pairs(rows@) == cell_rows(cs)),
                _ => true,
            },
    {
        let mut out: Vec<(i64, Vec<Value>)> = Vec::new();
        assert(row_pairs(out@) + cell_rows(Seq::<CellV>::empty()) =~= cell_rows(Seq::<CellV>::empty()));
        proof {
            if 1 <= root <= self.pages().len() {
                if let Some(NodeV::Leaf(cs)) = parse_node(self.pages()[root - 1].data@) {
                    assert(row_pairs(out@) + cell_rows(cs) =~= cell_rows(cs));
                }
            }
        }
        self.collect(root, MAX_DEPTH, &mut out)?;
        Ok(out)
    }

    /// The values of the last `limit` rows, largest rowid first.
    pub fn scan_rows_reverse_limit(&self, root: u32, limit: usize) -> (r: Result<Vec<Vec<Value>>>)
        ensures r matches Ok(rows) ==> rows@.len() <= limit,
            !(1 <= root <= self.pages().len()) ==> r is Err,
            1 <= root <= self.pages().len() ==> match parse_node(self.pages()[root - 1].data@) {
                Some(NodeV::Leaf(cs)) => (cells_plain(cs) && cells_sorted(cs)) ==> (r matches Ok(rows)
                    && rows@.len() == (if limit < cs.len() { limit as int } else { cs.len() as int })
                    && forall|k: int| 0 <= k < rows@.len() ==> vals((#[trigger] rows@[k])@) == cell_rows(cs)[cs.len() - 1 - k].1),
                _ => true,
            },
    {
        let all = self.scan_all(root)?;
        let ghost pairs = row_pairs(all@);
        let ghost whole = all@;
        let rows = last_rows_reversed(all, limit);
        proof {
            assert forall|k: int| 0 <= k < rows@.len() implies vals((#[trigger] rows@[k])@) == pairs[whole.len() - 1 - k].1 by {
                assert(rows@[k] == whole[whole.len() - 1 - k].1);
                assert(pairs[whole.len() - 1 - k] == (whole[whole.len() - 1 - k].0 as int, vals(whole[whole.len() - 1 - k].1@)));
            }
            assert(pairs.len() == whole.len());
        }
        Ok(rows)
    }

    /// The largest rowid, or `None` for an empty (or unreadable) tree.
    pub fn max_rowid(&self, root: u32) -> (r: Option<i64>)
        ensures
            match r {
                Some(x) => rightmost_rowid(self.pages(), root as int, MAX_DEPTH as nat) == Some(x as int),
                None => rightmost_rowid(self.pages(), root as int, MAX_DEPTH as nat) is None,
            },
    {
        let mut n = root;
        let mut depth: u32 = 0;
        while depth < MAX_DEPTH
            invariant depth <= MAX_DEPTH,
                rightmost_rowid(self.pages(), root as int, MAX_DEPTH as nat)
                    == rightmost_rowid(self.pages(), n as int, (MAX_DEPTH - depth) as nat),
            decreases MAX_DEPTH - depth,
        {
            match self.read_node(n) {
                Ok(Node::Leaf(cells)) => {
                    if cells.len() > 0 {
                        assert(cells_view(cells@).last() == cell_view(cells@[cells@.len() - 1]));
                    }
                    return if cells.len() > 0 { Some(cells[cells.len() - 1].rowid) } else { None };
                },
                Ok(Node::Interior(_, right)) => { n = right; },
                Err(_) => { return None; },
            }
            depth += 1;
        }
        None
    }

    /// Adds the statistics of the pages under page `n` to `acc`: leaf pages,
    /// fragmented bytes, overflow pages, free bytes in leaves.
    fn stats(&self, n: u32, depth: u32, acc: &mut (usize, usize, usize, usize)) -> (r: Result<()>)
        ensures
            depth == 0 || !(1 <= n <= self.pages().len()) ==> r is Err,
            (depth > 0 && 1 <= n <= self.pages().len()) ==> match parse_node(self.pages()[n - 1].data@) {
                None => r is Err,
                Some(NodeV::Leaf(cs)) => match ovf_sum(self.pages(), cs, cs.len() as int) {
                    Some(o) => r is Ok && {
                        let x = leaf_stats(*old(acc), self.pages()[n - 1].data@, cs, o);
                        final(acc).0 as int == x.0 && final(acc).1 as int == x.1 && final(acc).2 as int == x.2 && final(acc).3 as int == x.3
                    },
                    None => r is Err,
                },
                _ => true,
            },
        decreases depth,
    {
        if depth == 0 {
            return too_deep();
        }
        let page = self.pager.get_page(n)?;
        let frag = if page.data.len() > 5 { page.data[5] as usize } else { 0 };
        match decode_node(&page.data)? {
            Node::Leaf(cells) => {
                let ghost cs = cells_view(cells@);
                let used = leaf_size(&cells);
                let free = if used <= PAGE_SIZE { PAGE_SIZE - used } else { 0 };
                let mut ovf: usize = 0;
                let mut i: usize = 0;
                while i < cells.len()
                    invariant i <= cells@.len(), cs == cells_view(cells@), cs.len() == cells@.len(),
                        ovf_sum(self.pages(), cs, i as int) == Some(ovf as int),
                        depth > 0, 1 <= n <= self.pages().len(), parse_node(self.pages()[n - 1].data@) == Some(NodeV::Leaf(cs)),
                    decreases cells.len() - i,
                {
                    assert(cs[i as int] == cell_view(cells@[i as int]));
                    let k = match self.overflow_pages(&cells[i]) {
                        Ok(k) => k,
                        Err(e) => {
                            proof { lemma_ovf_sum_stuck(self.pages(), cs, i + 1, cs.len() as int); }
                            return Err(e);
                        },
                    };
                    ovf = if ovf <= usize::MAX - k { ovf + k } else { usize::MAX };
                    i += 1;
                }
                acc.0 = if acc.0 < usize::MAX { acc.0 + 1 } else { usize::MAX };
                acc.1 = if acc.1 <= usize::MAX - frag { acc.1 + frag } else { usize::MAX };
                acc.2 = if acc.2 <= usize::MAX - ovf { acc.2 + ovf } else { usize::MAX };
                acc.3 = if acc.3 <= usize::MAX - free { acc.3 + free } else { usize::MAX };
                Ok(())
            },
            Node::Interior(cells, right) => {
                let mut i: usize = 0;
                while i < cells.len()
                    invariant i <= cells@.len(), depth > 0,
                        1 <= n <= self.pages().len(), parse_node(self.pages()[n - 1].data@) is Some,
                        parse_node(self.pages()[n - 1].data@).unwrap() is Interior,
                    decreases cells.len() - i,
                {
                    self.stats(cells[i].0, depth - 1, acc)?;
                    i += 1;
                }
                self.stats(right, depth - 1, acc)
            },
        }
    }

    /// Leaf pages, fragmented bytes, overflow pages and free bytes in leaves.
    pub fn fragmentation_stats(&self, root: u32) -> (r: Result<(usize, usize, usize, usize)>)
        ensures
            !(1 <= root <= self.pages().len()) ==> r is Err,
            1 <= root <= self.pages().len() ==> match parse_node(self.pages()[root - 1].data@) {
                None => r is Err,
                Some(NodeV::Leaf(cs)) => match ovf_sum(self.pages(), cs, cs.len() as int) {
                    Some(o) => r matches Ok(x) && {
                        let st = leaf_stats((0, 0, 0, 0), self.pages()[root - 1].data@, cs, o);
                        x.0 as int == st.0 && x.1 as int == st.1 && x.2 as int == st.2 && x.3 as int == st.3
                    },
                    None => r is Err,
                },
                _ => true,
            },
    {
        let mut acc: (usize, usize, usize, usize) = (0, 0, 0, 0);
        self.stats(root, MAX_DEPTH, &mut acc)?;
        Ok(acc)
    }

    /// Rewrites the leaf pages under page `n` with their cells packed;
    /// returns how many it rewrote. Every page reads back as the same node
    /// as before, whether or not it succeeds.
    fn compact(&mut self, n: u32, depth: u32) -> (r: Result<usize>)
        ensures
            final(self).pages().len() == old(self).pages().len(),
            forall|p: int| 0 <= p < old(self).pages().len() ==>
                parse_node(#[trigger] final(self).pages()[p].data@) == parse_node(old(self).pages()[p].data@),
            match leaf_count(old(self).pages(), n as int, depth as int) {
                Some(k) => r matches Ok(x) && x == k,
                None => r is Err,
            },
        decreases depth,
    {
        if depth == 0 {
            return too_deep();
        }
        match self.read_node(n)? {
            Node::Leaf(cells) => {
                proof { lemma_leaf_cells_ok(self.pages()[n - 1].data@, cells_view(cells@)); }
                assert(forall|i: int| 0 <= i < cells@.len() ==> cells_view(cells@)[i] == cell_view(#[trigger] cells@[i]));
                self.write_leaf(n, &cells)?;
                Ok(1)
            },
            Node::Interior(cells, right) => {
                let ghost ch = children_view(cells@);
                let ghost orig = old(self).pages();
                let mut total: usize = 0;
                let mut i: usize = 0;
                assert(parse_node(orig[n - 1].data@) == Some(NodeV::Interior(ch, right as int)));
                while i < cells.len()
                    invariant i <= cells@.len(), depth > 0, ch == children_view(cells@), ch.len() == cells@.len(),
                        orig == old(self).pages(), 1 <= n <= orig.len(),
                        parse_node(orig[n - 1].data@) == Some(NodeV::Interior(ch, right as int)),
                        self.pages().len() == old(self).pages().len(),
                        forall|p: int| 0 <= p < old(self).pages().len() ==>
                            parse_node(#[trigger] self.pages()[p].data@) == parse_node(old(self).pages()[p].data@),
                        children_count(orig, ch, i as int, depth - 1) == Some(total as int),
                    decreases cells.len() - i,
                {
                    proof { lemma_leaf_count_frame(orig, self.pages(), cells@[i as int].0 as int, depth - 1); }
                    assert(ch[i as int].0 == cells@[i as int].0 as int);
                    let k = match self.compact(cells[i].0, depth - 1) {
                        Ok(k) => k,
                        Err(e) => {
                            proof {
                                assert(leaf_count(orig, ch[i as int].0, depth - 1) is None);
                                assert(children_count(orig, ch, i + 1, depth - 1) is None);
                                lemma_children_count_stuck(orig, ch, i + 1, ch.len() as int, depth - 1);
                                assert(parse_node(orig[n - 1].data@) == Some(NodeV::Interior(ch, right as int)));
                            }
                            return Err(e);
                        },
                    };
                    total = if total <= usize::MAX - k { total + k } else { usize::MAX };
                    i += 1;
                }
                proof { lemma_leaf_count_frame(orig, self.pages(), right as int, depth - 1); }
                let k = self.compact(right, depth - 1)?;
                Ok(if total <= usize::MAX - k { total + k } else { usize::MAX })
            },
        }
    }

    /// Rewrites every leaf page of the tree with its cells packed; returns
    /// how many leaf pages it rewrote. Every page reads back as the same
    /// node as before, so the rows of the tree are unchanged.
    pub fn defragment_all(&mut self, root: u32) -> (r: Result<usize>)
        ensures
            match leaf_count(old(self).pages(), root as int, MAX_DEPTH as int) {
                Some(k) => r matches Ok(x) && x == k,
                None => r is Err,
            },
            final(self).pages().len() == old(self).pages().len(),
            forall|p: int| 0 <= p < old(self).pages().len() ==>
                parse_node(#[trigger] final(self).pages()[p].data@) == parse_node(old(self).pages()[p].data@),
    {
        self.compact(root, MAX_DEPTH)
    }
}

} // verus!
