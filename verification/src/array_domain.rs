//! The stack as cells: runs of bytes whose content is a variable.
use vstd::prelude::*;
use vstd::string::*;
use vstd::arithmetic::power2::*;
use crate::add_bottom::NumAbsDomain;
use crate::arith::extended_number::ExtendedNumber;
use crate::arith::linear_expression::LinearExpression;
use crate::arith::number;
use crate::arith::number::Number;
use crate::arith::variable::Variable;
use crate::bitset_domain;
use crate::bitset_domain::BitsetDomain;
use crate::byte_read;
use crate::finite_assume;
use crate::interval::Interval;
use crate::numeric_steps;
use crate::numeric_steps::{Num, Step};
use crate::rcp;
use crate::string_constraints::StringInvariant;
use crate::type_domain;
use crate::type_domain::{State, TypeDomain};
use crate::type_encoding::{DataKind, TypeEncoding, TypeSet};
use crate::var_registry;
use crate::var_registry::{RegistryView, VariableRegistry};
use crate::zone_domain;

verus! {

/// A run of bytes.
#[derive(Clone, Copy, Debug, PartialEq, Eq, Structural)]
pub struct Cell {
    pub offset: u64,
    pub size: u32,
}

impl Cell {
    pub fn new(offset: u64, size: u32) -> (r: Self)
        ensures r == (Cell { offset, size }),
    {
        Cell { offset, size }
    }

    /// Whether a byte belongs to the cell.
    pub open spec fn covers(self, b: int) -> bool {
        self.offset <= b < self.offset + self.size
    }

    /// The offset as a signed number.
    pub open spec fn start(self) -> int {
        self.offset as i64 as int
    }

    /// The interval of the bytes of the cell.
    pub open spec fn interval(self) -> Interval {
        Interval::of_bounds(ExtendedNumber::fin(self.start()), ExtendedNumber::fin(self.start() + self.size - 1))
    }

    /// The name of the cell's variable of a kind.
    pub open spec fn name(self, kind: DataKind) -> Seq<char> {
        var_registry::cell_name(kind, Number { n: self.offset as i64 as i128 }, Number { n: self.size as i128 })
    }

    fn to_interval(&self) -> (r: Interval)
        ensures r == self.interval(),
    {
        let lb: Number = Number::of(self.offset as i64 as i128);
        let ub: Number = lb.add(Number::of(self.size as i128)).sub(Number::of(1));
        Interval::new(ExtendedNumber::Finite(lb), ExtendedNumber::Finite(ub))
    }

    /// The variable of a kind that stands for the cell's content.
    pub fn get_scalar(&self, kind: DataKind, registry: &mut VariableRegistry) -> (r: Variable)
        requires old(registry)@.wf(),
        ensures
            final(registry)@ == old(registry)@.interned(self.name(kind), var_registry::kind_meta(kind, true)),
            r == old(registry)@.var(self.name(kind)),
            final(registry)@.wf(),
            final(registry)@.extends(old(registry)@),
            final(registry)@.knows(r),
            rcp::is_named(final(registry)@, r, self.name(kind)),
    {
        let ghost before = registry@;
        let r = registry.cell_var_int(kind, self.offset, self.size);
        proof { rcp::lemma_var_named(before, registry@, r, self.name(kind), var_registry::kind_meta(kind, true)); }
        r
    }

    /// Whether the cell may share a byte with a range.
    pub open spec fn may_meet(self, range: Interval) -> bool {
        !self.interval().meet_spec(range).is_empty_spec()
    }

    fn symbolic_overlap(&self, range: &Interval) -> (r: bool)
        ensures r == self.may_meet(*range),
    {
        !self.to_interval().meet(range).is_bottom()
    }
}

/// Whether a cell shares a byte with the range of `size` bytes at `offset` and is another one.
pub open spec fn overlaps(c: Cell, offset: u64, size: u32) -> bool {
    c != (Cell { offset, size }) && if c.offset <= offset { c.offset + c.size > offset } else { c.offset < offset + size }
}

/// Cells that start at the same offset: one of them has the largest size.
pub open spec fn widest_at(cells: Seq<Cell>, c: Cell) -> bool {
    cells.contains(c) && forall|d: Cell| #[trigger] cells.contains(d) && d.offset == c.offset ==> d.size <= c.size
}

/// Whether a cell counts as overlapping a symbolic range: the widest cell at its offset does.
pub open spec fn overlaps_range(cells: Seq<Cell>, c: Cell, range: Interval) -> bool {
    exists|w: Cell| #[trigger] widest_at(cells, w) && w.offset == c.offset && w.may_meet(range)
}

/// The cells of one kind.
pub struct OffsetMap {
    total_stack_size: usize,
    cells: Vec<Cell>,
}

impl OffsetMap {
    /// The cells, each once.
    pub closed spec fn cells(&self) -> Seq<Cell> {
        self.cells@
    }

    pub open spec fn has(&self, c: Cell) -> bool {
        self.cells().contains(c)
    }

    /// The size of the stack.
    pub closed spec fn total(&self) -> nat {
        self.total_stack_size as nat
    }

    /// Cells start within the stack, and none stands twice.
    pub open spec fn wf(&self) -> bool {
        &&& self.cells().no_duplicates()
        &&& forall|c: Cell| #[trigger] self.has(c) ==> c.offset < self.total()
    }

    pub fn new(total_stack_size: i32) -> (r: Self)
        ensures r.wf(), r.cells() == Seq::<Cell>::empty(), r.total() == (if total_stack_size > 0 { total_stack_size as int } else { 0 }),
    {
        OffsetMap { total_stack_size: if total_stack_size > 0 { total_stack_size as usize } else { 0 }, cells: Vec::new() }
    }

    /// The size of the stack.
    pub fn len(&self) -> (r: usize)
        ensures r == self.total(),
    {
        self.total_stack_size
    }

    /// Whether the stack has no bytes.
    pub fn is_empty(&self) -> (r: bool)
        ensures r == (self.total() == 0),
    {
        self.total_stack_size == 0
    }

    /// Removes some cells.
    pub fn remove_cells(&mut self, gone: &Vec<Cell>)
        requires old(self).wf(),
        ensures
            final(self).wf(),
            final(self).total() == old(self).total(),
            forall|c: Cell| #[trigger] final(self).has(c) <==> old(self).has(c) && !gone@.contains(c),
    {
        let ghost old_cells = self.cells@;
        let mut kept: Vec<Cell> = Vec::new();
        let mut i: usize = 0;
        while i < self.cells.len()
            invariant
                self.cells@ == old_cells,
                old_cells.no_duplicates(),
                i <= old_cells.len(),
                kept@.no_duplicates(),
                forall|c: Cell| #[trigger] kept@.contains(c) <==> old_cells.take(i as int).contains(c) && !gone@.contains(c),
            decreases old_cells.len() - i,
        {
            let c: Cell = self.cells[i];
            let ghost before = kept@;
            let mut found: bool = false;
            let mut j: usize = 0;
            while j < gone.len()
                invariant
                    j <= gone.len(),
                    found <==> gone@.take(j as int).contains(c),
                decreases gone.len() - j,
            {
                if gone[j] == c {
                    found = true;
                }
                proof {
                    assert(gone@.take(j + 1) =~= gone@.take(j as int).push(gone@[j as int]));
                    lemma_pushed(gone@.take(j as int), gone@[j as int], c);
                }
                j = j + 1;
            }
            assert(gone@.take(gone@.len() as int) =~= gone@);
            if !found {
                kept.push(c);
            }
            proof {
                assert(old_cells.take(i + 1) =~= old_cells.take(i as int).push(c));
                assert(!old_cells.take(i as int).contains(c)) by {
                    if old_cells.take(i as int).contains(c) {
                        let q = choose|q: int| 0 <= q < i && old_cells.take(i as int)[q] == c;
                        assert(old_cells[q] == old_cells[i as int]);
                    }
                }
                assert forall|d: Cell| #[trigger] kept@.contains(d) <==> old_cells.take(i + 1).contains(d) && !gone@.contains(d) by {
                    lemma_pushed(old_cells.take(i as int), c, d);
                    lemma_pushed(before, c, d);
                }
                if !found {
                    assert(!before.contains(c));
                    lemma_no_duplicates_push(before, c);
                }
            }
            i = i + 1;
        }
        assert(old_cells.take(old_cells.len() as int) =~= old_cells);
        self.cells = kept;
        assert forall|c: Cell| #[trigger] self.has(c) implies c.offset < self.total() by { assert(old(self).has(c)); }
    }

    /// The cell with an offset and a size, if there is one.
    pub fn get_cell(&self, offset: u64, size: u32) -> (r: Option<Cell>)
        ensures r == (if self.has(Cell { offset, size }) { Some(Cell { offset, size }) } else { None }),
    {
        let want = Cell { offset, size };
        let mut i: usize = 0;
        while i < self.cells.len()
            invariant
                i <= self.cells.len(),
                want == (Cell { offset, size }),
                forall|j: int| 0 <= j < i ==> #[trigger] self.cells@[j] != want,
            decreases self.cells.len() - i,
        {
            if self.cells[i] == want {
                assert(self.cells@[i as int] == want);
                return Some(want);
            }
            i = i + 1;
        }
        None
    }

    /// The cell with an offset and a size, added where there is none and it starts within the stack.
    pub fn mk_cell(&mut self, offset: u64, size: u32) -> (r: Cell)
        requires old(self).wf(),
        ensures
            final(self).wf(),
            final(self).total() == old(self).total(),
            r == (Cell { offset, size }),
            forall|c: Cell| #[trigger] final(self).has(c) <==> old(self).has(c) || (c == r && offset < old(self).total()),
    {
        let c = Cell::new(offset, size);
        self.insert_cell(c);
        c
    }

    fn insert_cell(&mut self, cell: Cell)
        requires old(self).wf(),
        ensures
            final(self).wf(),
            final(self).total() == old(self).total(),
            forall|c: Cell| #[trigger] final(self).has(c) <==> old(self).has(c) || (c == cell && cell.offset < old(self).total()),
    {
        if cell.offset < self.total_stack_size as u64 {
            if self.get_cell(cell.offset, cell.size).is_none() {
                let ghost before = self.cells@;
                self.cells.push(cell);
                proof {
                    lemma_no_duplicates_push(before, cell);
                    assert forall|c: Cell| #[trigger] self.has(c) <==> old(self).has(c) || c == cell by { lemma_pushed(before, cell, c); }
                }
            }
        }
    }

    /// The cells that share a byte with a range and are not exactly the range.
    pub fn get_overlap_cells(&self, offset: u64, size: u32) -> (r: Vec<Cell>)
        requires self.wf(),
        ensures
            forall|c: Cell| #[trigger] r@.contains(c) <==> self.has(c) && overlaps(c, offset, size),
            r@.no_duplicates(),
    {
        let mut out: Vec<Cell> = Vec::new();
        let mut i: usize = 0;
        let ghost all = self.cells@;
        while i < self.cells.len()
            invariant
                all == self.cells@,
                all.no_duplicates(),
                i <= all.len(),
                out@.no_duplicates(),
                forall|c: Cell| #[trigger] out@.contains(c) <==> all.take(i as int).contains(c) && overlaps(c, offset, size),
            decreases all.len() - i,
        {
            let c: Cell = self.cells[i];
            let ghost before = out@;
            let other: bool = c.offset != offset || c.size != size;
            let meets: bool = if c.offset <= offset {
                (c.offset as u128) + (c.size as u128) > offset as u128
            } else {
                (c.offset as u128) < (offset as u128) + (size as u128)
            };
            if other && meets {
                out.push(c);
            }
            proof {
                assert((other && meets) == overlaps(c, offset, size));
                assert(all.take(i + 1) =~= all.take(i as int).push(c));
                assert(!all.take(i as int).contains(c)) by {
                    if all.take(i as int).contains(c) {
                        let q = choose|q: int| 0 <= q < i && all.take(i as int)[q] == c;
                        assert(all[q] == all[i as int]);
                    }
                }
                assert forall|d: Cell| #[trigger] out@.contains(d) <==> all.take(i + 1).contains(d) && overlaps(d, offset, size) by {
                    lemma_pushed(all.take(i as int), c, d);
                    lemma_pushed(before, c, d);
                }
                if other && meets {
                    assert(!before.contains(c));
                    lemma_no_duplicates_push(before, c);
                }
            }
            i = i + 1;
        }
        assert(all.take(all.len() as int) =~= all);
        out
    }

    /// The widest cell that starts where a cell starts.
    fn widest(&self, c: Cell) -> (r: Cell)
        requires self.has(c),
        ensures widest_at(self.cells(), r), r.offset == c.offset,
    {
        let mut best: Cell = c;
        let mut i: usize = 0;
        while i < self.cells.len()
            invariant
                i <= self.cells.len(),
                best.offset == c.offset,
                self.cells@.contains(best),
                forall|j: int| 0 <= j < i && (#[trigger] self.cells@[j]).offset == c.offset ==> self.cells@[j].size <= best.size,
            decreases self.cells.len() - i,
        {
            let d: Cell = self.cells[i];
            if d.offset == c.offset && d.size > best.size {
                best = d;
                assert(self.cells@[i as int] == d);
            }
            i = i + 1;
        }
        assert forall|d: Cell| #[trigger] self.cells().contains(d) && d.offset == best.offset implies d.size <= best.size by {
            let j = choose|j: int| 0 <= j < self.cells@.len() && self.cells@[j] == d;
            assert(self.cells@[j].offset == c.offset);
        }
        best
    }

    /// The cells that may share a byte with a range, judged by the widest cell at each offset.
    pub fn get_overlap_cells_symbolic(&self, range: &Interval) -> (r: Vec<Cell>)
        requires self.wf(),
        ensures
            forall|c: Cell| #[trigger] r@.contains(c) <==> self.has(c) && overlaps_range(self.cells(), c, *range),
            r@.no_duplicates(),
    {
        let mut out: Vec<Cell> = Vec::new();
        let mut i: usize = 0;
        let ghost all = self.cells@;
        while i < self.cells.len()
            invariant
                all == self.cells@,
                all == self.cells(),
                all.no_duplicates(),
                i <= all.len(),
                out@.no_duplicates(),
                forall|c: Cell| #[trigger] out@.contains(c) <==> all.take(i as int).contains(c) && overlaps_range(all, c, *range),
            decreases all.len() - i,
        {
            let c: Cell = self.cells[i];
            let ghost before = out@;
            assert(all[i as int] == c);
            let w = self.widest(c);
            let meets: bool = w.symbolic_overlap(range);
            if meets {
                out.push(c);
            }
            proof {
                assert(meets == overlaps_range(all, c, *range)) by {
                    assert(widest_at(all, w));
                    if overlaps_range(all, c, *range) {
                        let v = choose|v: Cell| #[trigger] widest_at(all, v) && v.offset == c.offset && v.may_meet(*range);
                        assert(v.size <= w.size && w.size <= v.size);
                    }
                }
                assert(all.take(i + 1) =~= all.take(i as int).push(c));
                assert(!all.take(i as int).contains(c)) by {
                    if all.take(i as int).contains(c) {
                        let q = choose|q: int| 0 <= q < i && all.take(i as int)[q] == c;
                        assert(all[q] == all[i as int]);
                    }
                }
                assert forall|d: Cell| #[trigger] out@.contains(d) <==> all.take(i + 1).contains(d) && overlaps_range(all, d, *range) by {
                    lemma_pushed(all.take(i as int), c, d);
                    lemma_pushed(before, c, d);
                }
                if meets {
                    assert(!before.contains(c));
                    lemma_no_duplicates_push(before, c);
                }
            }
            i = i + 1;
        }
        assert(all.take(all.len() as int) =~= all);
        out
    }

    /// The cells.
    pub fn list(&self) -> (r: &Vec<Cell>)
        ensures r@ == self.cells(),
    {
        &self.cells
    }

    pub fn copy(&self) -> (r: Self)
        ensures r.cells() == self.cells(), r.total() == self.total(),
    {
        let mut cells: Vec<Cell> = Vec::new();
        let mut i: usize = 0;
        while i < self.cells.len()
            invariant
                i <= self.cells.len(),
                cells@ == self.cells@.take(i as int),
            decreases self.cells.len() - i,
        {
            cells.push(self.cells[i]);
            i = i + 1;
            assert(cells@ =~= self.cells@.take(i as int));
        }
        assert(cells@ =~= self.cells@);
        OffsetMap { total_stack_size: self.total_stack_size, cells }
    }
}

/// A cell that overlaps a range is found wherever it starts, and a cell apart from the range is not.
pub proof fn overlap_is_exact(c: Cell, offset: u64, size: u32)
    requires c.size > 0, size > 0, c != (Cell { offset, size }),
    ensures
        overlaps(c, offset, size) <==> exists|b: int| #[trigger] c.covers(b) && (Cell { offset, size }).covers(b),
{
    if overlaps(c, offset, size) {
        let b: int = if c.offset <= offset { offset as int } else { c.offset as int };
        assert(c.covers(b) && (Cell { offset, size }).covers(b));
    }
}

proof fn lemma_pushed<T>(s: Seq<T>, v: T, x: T)
    ensures s.push(v).contains(x) <==> s.contains(x) || x == v,
{
    let t = s.push(v);
    if s.contains(x) {
        let k = choose|k: int| 0 <= k < s.len() && s[k] == x;
        assert(t[k] == x);
    }
    if x == v { assert(t[s.len() as int] == x); }
    if t.contains(x) && x != v {
        let k = choose|k: int| 0 <= k < t.len() && t[k] == x;
        assert(s[k] == x);
    }
}

proof fn lemma_no_duplicates_push<T>(s: Seq<T>, v: T)
    requires s.no_duplicates(), !s.contains(v),
    ensures s.push(v).no_duplicates(),
{
    let t = s.push(v);
    assert forall|i: int, j: int| 0 <= i < t.len() && 0 <= j < t.len() && i != j implies t[i] != t[j] by {
        if i == s.len() { assert(s.contains(s[j])); }
        if j == s.len() { assert(s.contains(s[i])); }
    }
}

/// The cells of each kind.
pub struct ArrayMap {
    total_stack_size: i32,
    inner: Vec<Option<OffsetMap>>,
}

fn rank_of(kind: DataKind) -> (r: usize)
    ensures r == kind.rank(), r < 15,
{
    match kind {
        DataKind::Types => 0,
        DataKind::Svalues => 1,
        DataKind::Uvalues => 2,
        DataKind::CtxOffsets => 3,
        DataKind::MapFds => 4,
        DataKind::MapFdPrograms => 5,
        DataKind::PacketOffsets => 6,
        DataKind::SharedOffsets => 7,
        DataKind::StackOffsets => 8,
        DataKind::SharedRegionSizes => 9,
        DataKind::StackNumericSizes => 10,
        DataKind::SocketOffsets => 11,
        DataKind::BtfIdOffsets => 12,
        DataKind::AllocMemOffsets => 13,
        DataKind::AllocMemSizes => 14,
    }
}

/// The number of bytes of a stack.
pub open spec fn stack_bytes(total: int) -> int {
    if total > 0 { total } else { 0 }
}

impl ArrayMap {
    /// The cells of a kind, if there is a map for it.
    pub closed spec fn at(&self, kind: DataKind) -> Option<OffsetMap> {
        self.inner@[kind.rank()]
    }

    /// Whether there is a cell of a kind.
    pub open spec fn has(&self, kind: DataKind, c: Cell) -> bool {
        self.at(kind) is Some && self.at(kind)->Some_0.has(c)
    }

    pub closed spec fn total(&self) -> int {
        self.total_stack_size as int
    }

    pub closed spec fn wf(&self) -> bool {
        &&& self.inner@.len() == 15
        &&& forall|k: int| 0 <= k < 15 && (#[trigger] self.inner@[k]) is Some ==>
                self.inner@[k]->Some_0.wf() && self.inner@[k]->Some_0.total() == stack_bytes(self.total_stack_size as int)
    }

    /// Cells start within the stack.
    pub proof fn cells_are_inside(&self, kind: DataKind, c: Cell)
        requires self.wf(), self.has(kind, c),
        ensures c.offset < stack_bytes(self.total()),
    {
        assert(self.inner@[kind.rank()] is Some);
        assert(self.inner@[kind.rank()]->Some_0.has(c));
    }

    /// The map of a kind is in order.
    pub proof fn map_is_wf(&self, kind: DataKind)
        requires self.wf(),
        ensures self.at(kind) matches Some(m) ==> m.wf() && m.total() == stack_bytes(self.total()),
    {
        if self.at(kind) is Some { assert(self.inner@[kind.rank()] is Some); }
    }

    pub fn new(total_stack_size: i32) -> (r: Self)
        ensures r.wf(), r.total() == total_stack_size, forall|k: DataKind| #[trigger] r.at(k) is None,
    {
        let mut inner: Vec<Option<OffsetMap>> = Vec::new();
        let mut i: usize = 0;
        while i < 15
            invariant
                i <= 15,
                inner.len() == i,
                forall|k: int| 0 <= k < i ==> (#[trigger] inner@[k]) is None,
            decreases 15 - i,
        {
            inner.push(None);
            i = i + 1;
        }
        ArrayMap { total_stack_size, inner }
    }

    /// The size of the stack.
    pub fn total_stack_size(&self) -> (r: i32)
        ensures r == self.total(),
    {
        self.total_stack_size
    }

    /// The cells of a kind; an empty map where there was none.
    pub fn entry_or_default(&mut self, kind: DataKind) -> (r: &mut OffsetMap)
        requires old(self).wf(),
        ensures
            r.wf(),
            r.total() == stack_bytes(old(self).total()),
            match old(self).at(kind) {
                Some(m) => *r == m,
                None => r.cells() == Seq::<Cell>::empty(),
            },
            final(self).total() == old(self).total(),
            final(self).at(kind) == Some(*final(r)),
            forall|k: DataKind| k != kind ==> #[trigger] final(self).at(k) == old(self).at(k),
            final(r).wf() && final(r).total() == stack_bytes(old(self).total()) ==> final(self).wf(),
    {
        let i: usize = rank_of(kind);
        if self.inner[i].is_none() {
            let m = OffsetMap::new(self.total_stack_size);
            self.inner.set(i, Some(m));
        }
        self.inner[i].as_mut().unwrap()
    }

    /// The cells of a kind.
    pub fn get(&self, kind: &DataKind) -> (r: Option<&OffsetMap>)
        requires self.wf(),
        ensures
            r is Some <==> self.at(*kind) is Some,
            r matches Some(m) ==> self.at(*kind) == Some(*m) && m.wf(),
    {
        proof { self.map_is_wf(*kind); }
        self.inner[rank_of(*kind)].as_ref()
    }

    /// The cells of a kind, for changes.
    pub fn get_mut(&mut self, kind: &DataKind) -> (r: Option<&mut OffsetMap>)
        requires old(self).wf(),
        ensures
            r is Some <==> old(self).at(*kind) is Some,
            r is None ==> *final(self) == *old(self),
            r matches Some(m) ==> old(self).at(*kind) == Some(*m) && m.wf() && final(self).at(*kind) == Some(*final(m))
                && final(self).total() == old(self).total()
                && (forall|k: DataKind| k != *kind ==> #[trigger] final(self).at(k) == old(self).at(k))
                && (final(m).wf() && final(m).total() == stack_bytes(old(self).total()) ==> final(self).wf()),
    {
        proof { self.map_is_wf(*kind); }
        let i: usize = rank_of(*kind);
        if self.inner[i].is_none() {
            return None;
        }
        Some(self.inner[i].as_mut().unwrap())
    }

    /// Whether there is a map for a kind.
    pub fn contains_key(&self, kind: &DataKind) -> (r: bool)
        requires self.wf(),
        ensures r == (self.at(*kind) is Some),
    {
        self.inner[rank_of(*kind)].is_some()
    }

    /// Adds the cells of another map.
    pub fn merge_from(&mut self, other: &ArrayMap)
        requires old(self).wf(), other.wf(), old(self).total() == other.total(),
        ensures
            final(self).wf(),
            final(self).total() == old(self).total(),
            forall|k: DataKind, c: Cell| #[trigger] final(self).has(k, c) <==> old(self).has(k, c) || other.has(k, c),
    {
        let mut i: usize = 0;
        while i < 15
            invariant
                i <= 15,
                self.wf(),
                other.wf(),
                self.total() == old(self).total(),
                self.total() == other.total(),
                forall|k: DataKind, c: Cell| #[trigger] self.has(k, c) <==> old(self).has(k, c) || (k.rank() < i && other.has(k, c)),
            decreases 15 - i,
        {
            let kind = kind_at_rank(i);
            let ghost before = *self;
            if let Some(src) = other.get(&kind) {
                let list = src.list();
                let dst = self.entry_or_default(kind);
                let ghost d0 = dst.cells();
                let ghost t0 = dst.total();
                let mut j: usize = 0;
                assert forall|c: Cell| #[trigger] dst.has(c) <==> d0.contains(c) || list@.take(0).contains(c) by {}
                while j < list.len()
                    invariant
                        j <= list.len(),
                        dst.wf(),
                        dst.total() == t0,
                        list@ == src.cells(),
                        src.wf(),
                        src.total() == t0,
                        forall|c: Cell| #[trigger] dst.has(c) <==> d0.contains(c) || list@.take(j as int).contains(c),
                    decreases list.len() - j,
                {
                    let c: Cell = list[j];
                    assert(src.has(c)) by { assert(list@[j as int] == c); }
                    dst.insert_cell(c);
                    proof {
                        assert(list@.take(j + 1) =~= list@.take(j as int).push(c));
                        assert forall|d: Cell| #[trigger] dst.has(d) <==> d0.contains(d) || list@.take(j + 1).contains(d) by {
                            lemma_pushed(list@.take(j as int), c, d);
                        }
                    }
                    j = j + 1;
                }
                assert(list@.take(list@.len() as int) =~= list@);
                assert forall|k: DataKind, c: Cell| #[trigger] self.has(k, c) <==> old(self).has(k, c) || (k.rank() < i + 1 && other.has(k, c)) by {
                    assert(before.has(k, c) <==> old(self).has(k, c) || (k.rank() < i && other.has(k, c)));
                    if k.rank() == i { assert(k == kind); }
                }
            } else {
                assert forall|k: DataKind, c: Cell| #[trigger] self.has(k, c) <==> old(self).has(k, c) || (k.rank() < i + 1 && other.has(k, c)) by {
                    if k.rank() == i { assert(k == kind); }
                }
            }
            i = i + 1;
        }
    }

    /// A copy of the map.
    pub fn copy(&self) -> (r: Self)
        requires self.wf(),
        ensures
            r.wf(),
            r.total() == self.total(),
            forall|k: DataKind, c: Cell| #[trigger] r.has(k, c) <==> self.has(k, c),
            forall|k: DataKind| #[trigger] r.at(k) is Some <==> self.at(k) is Some,
    {
        let mut inner: Vec<Option<OffsetMap>> = Vec::new();
        let mut i: usize = 0;
        while i < 15
            invariant
                i <= 15,
                self.wf(),
                self.inner@.len() == 15,
                inner.len() == i,
                forall|k: int| 0 <= k < i ==> ((#[trigger] inner@[k]) is Some <==> self.inner@[k] is Some),
                forall|k: int| 0 <= k < i && (#[trigger] inner@[k]) is Some ==> inner@[k]->Some_0.cells() == self.inner@[k]->Some_0.cells()
                    && inner@[k]->Some_0.total() == self.inner@[k]->Some_0.total(),
            decreases 15 - i,
        {
            match &self.inner[i] {
                Some(m) => { inner.push(Some(m.copy())); }
                None => { inner.push(None); }
            }
            i = i + 1;
        }
        let r = ArrayMap { total_stack_size: self.total_stack_size, inner };
        proof {
            assert forall|k: int| 0 <= k < 15 && (#[trigger] r.inner@[k]) is Some implies
                r.inner@[k]->Some_0.wf() && r.inner@[k]->Some_0.total() == stack_bytes(r.total_stack_size as int) by {
                assert(self.inner@[k] is Some);
                let a = r.inner@[k]->Some_0;
                let b = self.inner@[k]->Some_0;
                assert forall|c: Cell| #[trigger] a.has(c) implies c.offset < a.total() by { assert(b.has(c)); }
            }
            assert forall|k: DataKind, c: Cell| #[trigger] r.has(k, c) <==> self.has(k, c) by {
                assert(r.inner@[k.rank()] is Some <==> self.inner@[k.rank()] is Some);
            }
            assert forall|k: DataKind| #[trigger] r.at(k) is Some <==> self.at(k) is Some by {
                assert(r.inner@[k.rank()] is Some <==> self.inner@[k.rank()] is Some);
            }
        }
        r
    }
}

fn kind_at_rank(i: usize) -> (r: DataKind)
    requires i < 15,
    ensures r.rank() == i,
{
    if i == 0 { DataKind::Types }
    else if i == 1 { DataKind::Svalues }
    else if i == 2 { DataKind::Uvalues }
    else if i == 3 { DataKind::CtxOffsets }
    else if i == 4 { DataKind::MapFds }
    else if i == 5 { DataKind::MapFdPrograms }
    else if i == 6 { DataKind::PacketOffsets }
    else if i == 7 { DataKind::SharedOffsets }
    else if i == 8 { DataKind::StackOffsets }
    else if i == 9 { DataKind::SharedRegionSizes }
    else if i == 10 { DataKind::StackNumericSizes }
    else if i == 11 { DataKind::SocketOffsets }
    else if i == 12 { DataKind::BtfIdOffsets }
    else if i == 13 { DataKind::AllocMemOffsets }
    else { DataKind::AllocMemSizes }
}

/// The low `width` bits of a number that fits a signed 64-bit integer, and zero of another.
pub open spec fn low_bits(n: Number, width: int) -> int {
    number::wrap_unsigned(if i64::MIN <= n@ <= i64::MAX { n@ } else { 0 }, width)
}

proof fn lemma_low_bits(n: Number)
    ensures 0 <= low_bits(n, 64) <= u64::MAX, 0 <= low_bits(n, 32) <= u32::MAX,
{
    lemma2_to64();
    let x = if i64::MIN <= n@ <= i64::MAX { n@ } else { 0 };
    vstd::arithmetic::div_mod::lemma_mod_bound(x, pow2(64) as int);
    vstd::arithmetic::div_mod::lemma_mod_bound(x, pow2(32) as int);
}

fn offset_of_number(n: Number) -> (r: u64)
    ensures r == low_bits(n, 64),
{
    proof { lemma_low_bits(n); }
    let x: i64 = match n.to_i64() { Some(k) => k, None => 0 };
    Number::of(x as i128).cast_to_unsigned_width(64).narrow_to_u64()
}

fn size_of_number(n: Number) -> (r: u32)
    ensures r == low_bits(n, 32),
{
    proof { lemma_low_bits(n); }
    let x: i64 = match n.to_i64() { Some(k) => k, None => 0 };
    let w: u64 = Number::of(x as i128).cast_to_unsigned_width(32).narrow_to_u64();
    w as u32
}

/// An offset as a position; one that is past every stack where it does not fit.
fn position_of(offset: u64) -> (r: usize)
    ensures r == offset || (r == usize::MAX && offset > usize::MAX),
{
    if offset <= usize::MAX as u64 { offset as usize } else { usize::MAX }
}

fn width_of(size: u32) -> (r: i32)
    ensures r == number::wrap_signed(size as int, 32),
{
    proof { lemma_wrap32(size as int); }
    let w: i64 = Number::of(size as i128).cast_to_signed_width(32).narrow_to_i64();
    w as i32
}

/// The low 32 bits of a number, as a signed number.
pub(crate) fn narrow_to_i32(x: i64) -> (r: i32)
    ensures r == number::wrap_signed(x as int, 32), i32::MIN <= x <= i32::MAX ==> r == x,
{
    proof { lemma_wrap32(x as int); }
    let w: i64 = Number::of(x as i128).cast_to_signed_width(32).narrow_to_i64();
    w as i32
}

proof fn lemma_wrap32(x: int)
    ensures i32::MIN <= number::wrap_signed(x, 32) <= i32::MAX, i32::MIN <= x <= i32::MAX ==> number::wrap_signed(x, 32) == x,
{
    lemma2_to64();
    vstd::arithmetic::div_mod::lemma_mod_bound(x, pow2(32) as int);
    if 0 <= x <= i32::MAX { vstd::arithmetic::div_mod::lemma_small_mod(x as nat, pow2(32)); }
    if i32::MIN <= x < 0 {
        vstd::arithmetic::div_mod::lemma_mod_add_multiples_vanish(x, pow2(32) as int);
        vstd::arithmetic::div_mod::lemma_small_mod((x + pow2(32)) as nat, pow2(32));
    }
}

/// The lower end of the bytes of an interval on a stack.
pub open spec fn first_byte(iv: Interval) -> int {
    match iv.lb {
        ExtendedNumber::Finite(n) => if i64::MIN <= n@ <= i64::MAX { number::wrap_signed(if n@ > 0 { n@ } else { 0 }, 32) } else { 0 },
        _ => 0,
    }
}

/// The upper end of the bytes of an interval on a stack of `total` bytes.
pub open spec fn last_byte(iv: Interval, total: int) -> int {
    match iv.ub {
        ExtendedNumber::Finite(n) => if i64::MIN <= n@ <= i64::MAX { number::wrap_signed(if n@ < total { n@ } else { total }, 32) } else { total },
        _ => total,
    }
}

fn clamped_bounds(interval: &Interval, total: i32) -> (r: (i32, i32))
    ensures r.0 == first_byte(*interval), r.1 == last_byte(*interval, total as int),
{
    let lb: i32 = match interval.lb().number() {
        Some(n) => match n.to_i64() {
            Some(k) => {
                let x: i64 = if k > 0 { k } else { 0 };
                proof { lemma_wrap32(x as int); }
                let w: i64 = Number::of(x as i128).cast_to_signed_width(32).narrow_to_i64();
                w as i32
            }
            None => 0,
        },
        None => 0,
    };
    let ub: i32 = match interval.ub().number() {
        Some(n) => match n.to_i64() {
            Some(k) => {
                let x: i64 = if k < total as i64 { k } else { total as i64 };
                proof { lemma_wrap32(x as int); }
                let w: i64 = Number::of(x as i128).cast_to_signed_width(32).narrow_to_i64();
                w as i32
            }
            None => total,
        },
        None => total,
    };
    (lb, ub)
}

/// The range from an index to the end of a width behind it.
pub open spec fn touched(index: Interval, width: Interval) -> Interval {
    index.join_spec(index.add_spec(width))
}

fn as_numbytes_range(index: &Interval, width: &Interval, total: i32) -> (r: (i32, i32))
    ensures r.0 == first_byte(touched(*index, *width)), r.1 == last_byte(touched(*index, *width), total as int),
{
    clamped_bounds(&index.join(&index.add(width)), total)
}

/// The cell of an index and a width that are both known.
pub open spec fn target(idx: Interval, width: Interval) -> Option<Cell> {
    match (idx.singleton_spec(), width.singleton_spec()) {
        (Some(n), Some(w)) => Some(Cell { offset: low_bits(n, 64) as u64, size: low_bits(w, 32) as u32 }),
        _ => None,
    }
}

/// The cells of a kind that an access to a range touches.
pub open spec fn struck(m: &ArrayMap, kind: DataKind, idx: Interval, width: Interval, c: Cell) -> bool {
    &&& m.has(kind, c)
    &&& match target(idx, width) {
        Some(t) => overlaps(c, t.offset, t.size),
        None => overlaps_range(m.at(kind)->Some_0.cells(), c, touched(idx, width)),
    }
}

/// The map without the struck cells of a kind.
pub open spec fn without_struck(m: &ArrayMap, kind: DataKind, idx: Interval, width: Interval, n: &ArrayMap) -> bool {
    forall|k: DataKind, c: Cell| #[trigger] n.has(k, c) <==> m.has(k, c) && !(k == kind && struck(m, kind, idx, width, c))
}

/// The list holds the struck cells.
pub open spec fn lists_struck(list: Seq<Cell>, m: &ArrayMap, kind: DataKind, idx: Interval, width: Interval) -> bool {
    forall|c: Cell| #[trigger] list.contains(c) <==> struck(m, kind, idx, width, c)
}

fn find_and_remove_overlap(kind: DataKind, ii: &Interval, elem_size: &Interval, array_map: &mut ArrayMap) -> (r: (Option<(u64, u32)>, Vec<Cell>))
    requires old(array_map).wf(),
    ensures
        final(array_map).wf(),
        final(array_map).total() == old(array_map).total(),
        r.0 is Some <==> target(*ii, *elem_size) is Some,
        r.0 matches Some(p) ==> target(*ii, *elem_size) == Some(Cell { offset: p.0, size: p.1 }),
        lists_struck(r.1@, old(array_map), kind, *ii, *elem_size),
        without_struck(old(array_map), kind, *ii, *elem_size, final(array_map)),
{
    let ghost m0 = *array_map;
    let mut res: Option<(u64, u32)> = None;
    let cells: Vec<Cell>;
    let om = array_map.entry_or_default(kind);
    let ghost o0 = om.cells();
    assert forall|c: Cell| #[trigger] o0.contains(c) <==> m0.has(kind, c) by {}
    match (ii.singleton(), elem_size.singleton()) {
        (Some(n), Some(nb)) => {
            proof { lemma_low_bits(n); lemma_low_bits(nb); }
            let offset: u64 = offset_of_number(n);
            let size: u32 = size_of_number(nb);
            cells = om.get_overlap_cells(offset, size);
            res = Some((offset, size));
        }
        _ => {
            let range = ii.join(&ii.add(elem_size));
            cells = om.get_overlap_cells_symbolic(&range);
        }
    }
    assert forall|c: Cell| #[trigger] cells@.contains(c) <==> struck(&m0, kind, *ii, *elem_size, c) by {
        assert(om.has(c) <==> m0.has(kind, c));
    }
    om.remove_cells(&cells);
    let ghost o1 = *om;
    assert forall|k: DataKind, c: Cell| #[trigger] array_map.has(k, c) <==> m0.has(k, c) && !(k == kind && struck(&m0, kind, *ii, *elem_size, c)) by {
        if k == kind {
            assert(o1.has(c) <==> o0.contains(c) && !cells@.contains(c));
        }
    }
    (res, cells)
}

/// The names of the variables that are forgotten with a cell.
pub open spec fn kill_names_of(kind: DataKind, c: Cell) -> Seq<Seq<char>> {
    match kind {
        DataKind::Svalues => seq![c.name(kind), c.name(DataKind::Uvalues)],
        DataKind::Uvalues => seq![c.name(kind), c.name(DataKind::Svalues)],
        _ => seq![c.name(kind)],
    }
}

/// The names of the variables that are forgotten with some cells.
pub open spec fn kill_names(kind: DataKind, cells: Seq<Cell>) -> Seq<Seq<char>>
    decreases cells.len(),
{
    if cells.len() == 0 {
        seq![]
    } else {
        kill_names(kind, cells.drop_last()) + kill_names_of(kind, cells.last())
    }
}

/// The variables of the listed cells are forgotten.
pub open spec fn killed(a: Num, older: RegistryView, newer: RegistryView, kind: DataKind, cells: Seq<Cell>, b: Num) -> bool {
    exists|vars: Seq<Variable>| #[trigger] rcp::named_all(newer, vars, kill_names(kind, cells))
        && numeric_steps::performs(a, older, newer, rcp::forget_steps(rcp::ids_of(vars)), b)
}

/// Forgets the variable of a cell.
fn forget_scalar(inv: &mut NumAbsDomain, kind: DataKind, c: Cell, registry: &mut VariableRegistry, Ghost(a): Ghost<Num>, Ghost(older): Ghost<RegistryView>, Ghost(vars): Ghost<Seq<Variable>>, Ghost(names): Ghost<Seq<Seq<char>>>) -> (r: Variable)
    requires
        old(inv).wf(),
        old(registry)@.wf(),
        old(registry)@.extends(older),
        rcp::named_all(old(registry)@, vars, names),
        numeric_steps::performs(a, older, old(registry)@, rcp::forget_steps(rcp::ids_of(vars)), numeric_steps::num(old(inv))),
    ensures
        final(inv).wf(),
        final(registry)@.wf(),
        final(registry)@.extends(old(registry)@),
        final(registry)@.extends(older),
        rcp::named_all(final(registry)@, vars.push(r), names.push(c.name(kind))),
        numeric_steps::performs(a, older, final(registry)@, rcp::forget_steps(rcp::ids_of(vars.push(r))), numeric_steps::num(final(inv))),
{
    let ghost mid = registry@;
    let ghost n0 = numeric_steps::num(inv);
    let scalar = c.get_scalar(kind, registry);
    inv.havoc(scalar);
    proof {
        registry@.extending_is_transitive(mid, older);
        numeric_steps::step_forget(n0, registry@, scalar.id, numeric_steps::num(inv));
        numeric_steps::performs_later(a, older, mid, registry@, rcp::forget_steps(rcp::ids_of(vars)), n0);
        numeric_steps::performs_one(a, older, registry@, rcp::forget_steps(rcp::ids_of(vars)), n0, Step::Forget(scalar.id), numeric_steps::num(inv));
        assert(rcp::forget_steps(rcp::ids_of(vars.push(scalar))) =~= rcp::forget_steps(rcp::ids_of(vars)).push(Step::Forget(scalar.id)));
        lemma_named_one_more(mid, registry@, vars, names, scalar, c.name(kind));
    }
    scalar
}

proof fn lemma_named_one_more(mid: RegistryView, later: RegistryView, xs: Seq<Variable>, names: Seq<Seq<char>>, x: Variable, name: Seq<char>)
    requires later.extends(mid), rcp::named_all(mid, xs, names), rcp::is_named(later, x, name),
    ensures rcp::named_all(later, xs.push(x), names.push(name)),
{
    assert forall|i: int| 0 <= i < xs.push(x).len() implies rcp::is_named(later, #[trigger] xs.push(x)[i], names.push(name)[i]) by {
        if i < xs.len() {
            assert(rcp::is_named(mid, xs[i], names[i]));
        }
    }
}

fn kill_and_find_var(inv: &mut NumAbsDomain, kind: DataKind, ii: &Interval, elem_size: &Interval, registry: &mut VariableRegistry, array_map: &mut ArrayMap) -> (r: Option<(u64, u32)>)
    requires old(inv).wf(), old(registry)@.wf(), old(array_map).wf(),
    ensures
        final(inv).wf(),
        final(registry)@.wf(),
        final(registry)@.extends(old(registry)@),
        final(array_map).wf(),
        final(array_map).total() == old(array_map).total(),
        r is Some <==> target(*ii, *elem_size) is Some,
        r matches Some(p) ==> target(*ii, *elem_size) == Some(Cell { offset: p.0, size: p.1 }),
        without_struck(old(array_map), kind, *ii, *elem_size, final(array_map)),
        exists|cells: Seq<Cell>| #[trigger] lists_struck(cells, old(array_map), kind, *ii, *elem_size)
            && killed(numeric_steps::num(old(inv)), old(registry)@, final(registry)@, kind, cells, numeric_steps::num(final(inv))),
{
    let ghost a = numeric_steps::num(inv);
    let ghost older = registry@;
    let (res, cells) = find_and_remove_overlap(kind, ii, elem_size, array_map);
    let ghost mut vars: Seq<Variable> = seq![];
    let ghost mut names: Seq<Seq<char>> = seq![];
    let mut i: usize = 0;
    proof {
        numeric_steps::performs_nothing(a, older, older);
        assert(rcp::forget_steps(rcp::ids_of(vars)) =~= seq![]);
    }
    while i < cells.len()
        invariant
            i <= cells.len(),
            inv.wf(),
            registry@.wf(),
            registry@.extends(older),
            names == kill_names(kind, cells@.take(i as int)),
            rcp::named_all(registry@, vars, names),
            numeric_steps::performs(a, older, registry@, rcp::forget_steps(rcp::ids_of(vars)), numeric_steps::num(inv)),
        decreases cells.len() - i,
    {
        let c: Cell = cells[i];
        let v1 = forget_scalar(inv, kind, c, registry, Ghost(a), Ghost(older), Ghost(vars), Ghost(names));
        proof {
            vars = vars.push(v1);
            names = names.push(c.name(kind));
        }
        if kind == DataKind::Svalues {
            let v2 = forget_scalar(inv, DataKind::Uvalues, c, registry, Ghost(a), Ghost(older), Ghost(vars), Ghost(names));
            proof {
                vars = vars.push(v2);
                names = names.push(c.name(DataKind::Uvalues));
            }
        } else if kind == DataKind::Uvalues {
            let v2 = forget_scalar(inv, DataKind::Svalues, c, registry, Ghost(a), Ghost(older), Ghost(vars), Ghost(names));
            proof {
                vars = vars.push(v2);
                names = names.push(c.name(DataKind::Svalues));
            }
        }
        proof {
            let sofar = cells@.take(i + 1);
            assert(sofar.drop_last() =~= cells@.take(i as int));
            assert(sofar.last() == c);
            assert(names =~= kill_names(kind, sofar));
        }
        i = i + 1;
    }
    assert(cells@.take(cells@.len() as int) =~= cells@);
    assert(killed(a, older, registry@, kind, cells@, numeric_steps::num(inv)));
    res
}

/// Nothing is known of the types of some variables any more, and nothing else has changed.
pub open spec fn types_dropped(s: State, vars: Seq<Variable>, t: State) -> bool {
    &&& forall|w: u64| #[trigger] t.known(w) <==> s.known(w) || vars.contains(Variable { id: w })
    &&& forall|w: u64| #[trigger] t.types_of(w) == (if vars.contains(Variable { id: w }) { TypeSet::full() } else { s.types_of(w) })
    &&& forall|a: u64, b: u64| #[trigger] t.linked(a, b) <==> (a == b && t.known(a))
            || (!vars.contains(Variable { id: a }) && !vars.contains(Variable { id: b }) && s.linked(a, b))
}

/// The types of the listed cells are forgotten.
pub open spec fn types_killed(a: &TypeDomain, newer: RegistryView, cells: Seq<Cell>, b: &TypeDomain) -> bool {
    &&& a.state is Some <==> b.state is Some
    &&& a.state is Some ==> exists|vars: Seq<Variable>| #[trigger] rcp::named_all(newer, vars, kill_names(DataKind::Types, cells))
            && types_dropped(a.s(), vars, b.s())
}

proof fn lemma_types_dropped_next(s: State, vars: Seq<Variable>, t: State, v: Variable, u: State)
    requires types_dropped(s, vars, t), type_domain::forgot(t, v.id, u), t.wf(), u.wf(),
    ensures types_dropped(s, vars.push(v), u),
{
    assert forall|w: u64| #[trigger] u.known(w) <==> s.known(w) || vars.push(v).contains(Variable { id: w }) by {
        lemma_pushed(vars, v, Variable { id: w });
    }
    assert forall|w: u64| #[trigger] u.types_of(w) == (if vars.push(v).contains(Variable { id: w }) { TypeSet::full() } else { s.types_of(w) }) by {
        lemma_pushed(vars, v, Variable { id: w });
    }
    assert forall|a: u64, b: u64| #[trigger] u.linked(a, b) <==> (a == b && u.known(a))
            || (!vars.push(v).contains(Variable { id: a }) && !vars.push(v).contains(Variable { id: b }) && s.linked(a, b)) by {
        lemma_pushed(vars, v, Variable { id: a });
        lemma_pushed(vars, v, Variable { id: b });
        assert(t.linked(a, b) <==> (a == b && t.known(a))
            || (!vars.contains(Variable { id: a }) && !vars.contains(Variable { id: b }) && s.linked(a, b)));
        u.classes(a, b, a);
    }
}

fn kill_and_find_type_var(inv: &mut TypeDomain, ii: &Interval, elem_size: &Interval, registry: &mut VariableRegistry, array_map: &mut ArrayMap) -> (r: Option<(u64, u32)>)
    requires old(inv).wf(), old(registry)@.wf(), old(array_map).wf(),
    ensures
        final(inv).wf(),
        final(registry)@.wf(),
        final(registry)@.extends(old(registry)@),
        final(array_map).wf(),
        final(array_map).total() == old(array_map).total(),
        r is Some <==> target(*ii, *elem_size) is Some,
        r matches Some(p) ==> target(*ii, *elem_size) == Some(Cell { offset: p.0, size: p.1 }),
        without_struck(old(array_map), DataKind::Types, *ii, *elem_size, final(array_map)),
        exists|cells: Seq<Cell>| #[trigger] lists_struck(cells, old(array_map), DataKind::Types, *ii, *elem_size)
            && types_killed(old(inv), final(registry)@, cells, final(inv)),
{
    let ghost older = registry@;
    let ghost inv0 = *inv;
    let (res, cells) = find_and_remove_overlap(DataKind::Types, ii, elem_size, array_map);
    let ghost mut vars: Seq<Variable> = seq![];
    let mut i: usize = 0;
    proof {
        assert(rcp::named_all(registry@, vars, kill_names(DataKind::Types, cells@.take(0))));
        if inv.state is Some {
            assert forall|a: u64, b: u64| #[trigger] inv.s().linked(a, b) <==> (a == b && inv.s().known(a))
                || (!vars.contains(Variable { id: a }) && !vars.contains(Variable { id: b }) && inv.s().linked(a, b)) by { inv.s().classes(a, b, a); }
            assert(types_dropped(inv0.s(), vars, inv.s()));
        }
    }
    while i < cells.len()
        invariant
            i <= cells.len(),
            inv.wf(),
            registry@.wf(),
            registry@.extends(older),
            rcp::named_all(registry@, vars, kill_names(DataKind::Types, cells@.take(i as int))),
            inv0.state is Some <==> inv.state is Some,
            inv0.state is Some ==> types_dropped(inv0.s(), vars, inv.s()),
        decreases cells.len() - i,
    {
        let c: Cell = cells[i];
        let ghost mid = registry@;
        let ghost before = *inv;
        let v = c.get_scalar(DataKind::Types, registry);
        inv.havoc_type_var(v);
        proof {
            registry@.extending_is_transitive(mid, older);
            let sofar = cells@.take(i + 1);
            assert(sofar.drop_last() =~= cells@.take(i as int));
            assert(sofar.last() == c);
            lemma_named_one_more(mid, registry@, vars, kill_names(DataKind::Types, cells@.take(i as int)), v, c.name(DataKind::Types));
            assert(kill_names(DataKind::Types, sofar) =~= kill_names(DataKind::Types, cells@.take(i as int)).push(c.name(DataKind::Types)));
            if inv0.state is Some {
                lemma_types_dropped_next(inv0.s(), vars, before.s(), v, inv.s());
            }
            vars = vars.push(v);
        }
        i = i + 1;
    }
    assert(cells@.take(cells@.len() as int) =~= cells@);
    assert(types_killed(&inv0, registry@, cells@, inv));
    res
}

/// The kinds of plain values.
pub open spec fn is_value_kind(kind: DataKind) -> bool {
    kind == DataKind::Svalues || kind == DataKind::Uvalues
}

/// Two maps hold the same cells.
pub open spec fn same_cells(m: &ArrayMap, n: &ArrayMap) -> bool {
    m.total() == n.total() && forall|k: DataKind, c: Cell| #[trigger] n.has(k, c) <==> m.has(k, c)
}

/// One cell is added, where it starts within the stack.
pub open spec fn with_cell(m: &ArrayMap, kind: DataKind, c: Cell, n: &ArrayMap) -> bool {
    m.total() == n.total()
        && forall|k: DataKind, d: Cell| #[trigger] n.has(k, d) <==> m.has(k, d) || (k == kind && d == c && c.offset < stack_bytes(m.total()))
}

/// No other cell of a kind overlaps a cell.
pub open spec fn is_free(m: &ArrayMap, kind: DataKind, c: Cell) -> bool {
    forall|d: Cell| #[trigger] m.has(kind, d) ==> !overlaps(d, c.offset, c.size)
}

/// An expression for the variable of a cell.
pub open spec fn reads_cell(r: RegistryView, kind: DataKind, c: Cell, e: Option<LinearExpression>) -> bool {
    exists|v: Variable| #[trigger] rcp::is_named(r, v, c.name(kind)) && e is Some && zone_domain::is_variable(&e->Some_0, v.id)
}

/// The value of a cell from the bytes of other cells, where the kind has such a value.
pub open spec fn pieced(n: Num, r: RegistryView, kind: DataKind, c: Cell, big_endian: bool) -> Option<int> {
    if is_value_kind(kind) { byte_read::rebuilt(n, r, c, big_endian) } else { None }
}

/// Whether reading a cell makes it.
pub open spec fn makes_cell(n: Num, r: RegistryView, m: &ArrayMap, kind: DataKind, c: Cell, big_endian: bool) -> bool {
    !m.has(kind, c) && pieced(n, r, kind, c, big_endian) is None && is_free(m, kind, c)
}

/// What is read from a cell: its variable where it exists; a number where other cells hold all of
/// its bytes; its variable where nothing else overlaps it; otherwise nothing.
pub open spec fn loads_as(n: Num, r: RegistryView, m: &ArrayMap, kind: DataKind, c: Cell, big_endian: bool, e: Option<LinearExpression>) -> bool {
    &&& m.has(kind, c) || !is_value_kind(kind) || byte_read::cell_probed(r, c)
    &&& if m.has(kind, c) {
        reads_cell(r, kind, c, e)
    } else {
        match pieced(n, r, kind, c, big_endian) {
            Some(v) => e is Some && finite_assume::is_constant(&e->Some_0, number::wrap_signed(v, 64)),
            None => if is_free(m, kind, c) { reads_cell(r, kind, c, e) } else { e is None },
        }
    }
}

/// An expression or nothing, assigned to a variable.
pub open spec fn assignment(v: u64, e: Option<LinearExpression>) -> Step {
    match e {
        Some(expr) => Step::Assign(v, expr),
        None => Step::Forget(v),
    }
}

/// The two assignments that give a part of a split cell its value.
pub open spec fn part_assigned(a: Num, older: RegistryView, newer: RegistryView, c: Cell, es: Option<LinearExpression>, eu: Option<LinearExpression>, b: Num) -> bool {
    exists|sv: Variable, uv: Variable| #[trigger] rcp::is_named(newer, sv, c.name(DataKind::Svalues)) && #[trigger] rcp::is_named(newer, uv, c.name(DataKind::Uvalues))
        && numeric_steps::performs(a, older, newer, seq![assignment(sv.id, es), assignment(uv.id, eu)], b)
}

/// A part of a split cell becomes a cell, with the value that its bytes have.
pub open spec fn part_split(a: Num, m: &ArrayMap, older: RegistryView, newer: RegistryView, kind: DataKind, c: Cell, big_endian: bool, b: Num, n: &ArrayMap) -> bool {
    &&& exists|es: Option<LinearExpression>, eu: Option<LinearExpression>|
            loads_as(a, newer, m, DataKind::Svalues, c, big_endian, es)
            && loads_as(a, newer, m, DataKind::Uvalues, c, big_endian, eu)
            && #[trigger] part_assigned(a, older, newer, c, es, eu, b)
    &&& m.total() == n.total()
    &&& forall|k: DataKind, d: Cell| #[trigger] n.has(k, d) <==> m.has(k, d) || (d == c && c.offset < stack_bytes(m.total())
            && (k == kind || (is_value_kind(k) && makes_cell(a, newer, m, k, c, big_endian))))
}

/// The part of a cell before a range, and the part behind it.
pub open spec fn left_part(c: Cell, t: Cell) -> Cell {
    Cell { offset: c.offset, size: (t.offset - c.offset) as u32 }
}

pub open spec fn right_part(c: Cell, t: Cell) -> Cell {
    Cell { offset: (t.offset + t.size) as u64, size: (c.offset + c.size - t.offset - t.size) as u32 }
}

/// Splitting off the part before a range, where there is one.
pub open spec fn left_split(a: Num, m: &ArrayMap, older: RegistryView, newer: RegistryView, kind: DataKind, c: Cell, t: Cell, big_endian: bool, b: Num, n: &ArrayMap) -> bool {
    if c.offset < t.offset { part_split(a, m, older, newer, kind, left_part(c, t), big_endian, b, n) } else { a == b && same_cells(m, n) }
}

/// Splitting off the part behind a range, where there is one.
pub open spec fn right_split(a: Num, m: &ArrayMap, older: RegistryView, newer: RegistryView, kind: DataKind, c: Cell, t: Cell, big_endian: bool, b: Num, n: &ArrayMap) -> bool {
    if t.offset + t.size < c.offset + c.size { part_split(a, m, older, newer, kind, right_part(c, t), big_endian, b, n) } else { a == b && same_cells(m, n) }
}

/// A cell of at least eight bytes, all of them numbers.
pub open spec fn is_wide_number(bits: Seq<bool>, c: Cell) -> bool {
    c.size >= 8 && forall|i: int| c.offset <= i < c.offset + c.size && i < bits.len() ==> !(#[trigger] bits[i])
}

/// What becomes of one cell around a range: a wide number with one known value is split.
pub open spec fn cell_split(bits: Seq<bool>, a: Num, m: &ArrayMap, older: RegistryView, newer: RegistryView, kind: DataKind, c: Cell, t: Cell, big_endian: bool, b: Num, n: &ArrayMap) -> bool {
    &&& is_wide_number(bits, c) ==> newer.has(c.name(kind))
    &&& if is_wide_number(bits, c) && byte_read::interval_in(a, newer.var(c.name(kind)).id).singleton_spec() is Some {
        exists|mid: Num, mm: ArrayMap| #[trigger] left_split(a, m, older, newer, kind, c, t, big_endian, mid, &mm)
            && right_split(mid, &mm, older, newer, kind, c, t, big_endian, b, n)
    } else {
        a == b && same_cells(m, n)
    }
}

/// The listed cells are split around a range, in turn.
pub open spec fn splits(bits: Seq<bool>, a: Num, m: &ArrayMap, older: RegistryView, newer: RegistryView, kind: DataKind, cells: Seq<Cell>, t: Cell, big_endian: bool, b: Num, n: &ArrayMap) -> bool {
    exists|path: Seq<(Num, ArrayMap)>| path.len() == cells.len() + 1 && path[0].0 == a && same_cells(m, &path[0].1)
        && path[cells.len() as int] == (b, *n) && #[trigger] is_split_path(bits, path, older, newer, kind, cells, t, big_endian)
}

/// Each state follows from the one before by what becomes of the cell between them.
pub open spec fn is_split_path(bits: Seq<bool>, path: Seq<(Num, ArrayMap)>, older: RegistryView, newer: RegistryView, kind: DataKind, cells: Seq<Cell>, t: Cell, big_endian: bool) -> bool {
    forall|i: int| 0 <= i < cells.len() && i + 1 < path.len() ==> cell_split(bits, path[i].0, &path[i].1, older, newer, kind, #[trigger] cells[i], t, big_endian, path[i + 1].0, &path[i + 1].1)
}

/// The splitting that precedes an access to a range of values.
pub open spec fn split_first(bits: Seq<bool>, a: Num, m: &ArrayMap, older: RegistryView, newer: RegistryView, kind: DataKind, idx: Interval, width: Interval, big_endian: bool, b: Num, n: &ArrayMap) -> bool {
    match target(idx, width) {
        Some(t) if is_value_kind(kind) => exists|cells: Seq<Cell>| #[trigger] lists_struck(cells, m, kind, idx, width)
            && splits(bits, a, m, older, newer, kind, cells, t, big_endian, b, n),
        _ => a == b && same_cells(m, n),
    }
}

/// The struck cells of a kind are removed and their variables forgotten.
pub open spec fn struck_removed(a: Num, m: &ArrayMap, older: RegistryView, newer: RegistryView, kind: DataKind, idx: Interval, width: Interval, b: Num, n: &ArrayMap) -> bool {
    &&& without_struck(m, kind, idx, width, n)
    &&& m.total() == n.total()
    &&& exists|cells: Seq<Cell>| #[trigger] lists_struck(cells, m, kind, idx, width) && killed(a, older, newer, kind, cells, b)
}

/// A range is cleared: values around it are split off, then the cells that it touches go.
pub open spec fn cleared(bits: Seq<bool>, a: Num, m: &ArrayMap, older: RegistryView, newer: RegistryView, kind: DataKind, idx: Interval, width: Interval, big_endian: bool, b: Num, n: &ArrayMap) -> bool {
    exists|mid: Num, mm: ArrayMap, r: RegistryView| #[trigger] split_first(bits, a, m, older, r, kind, idx, width, big_endian, mid, &mm)
        && r.extends(older) && newer.extends(r)
        && #[trigger] struck_removed(mid, &mm, r, newer, kind, idx, width, b, n)
}

/// Where a cleared range is known, no cell of the kind overlaps it but the cell of the range itself.
pub proof fn cleared_range_is_free(bits: Seq<bool>, a: Num, m: &ArrayMap, older: RegistryView, newer: RegistryView, kind: DataKind, idx: Interval, width: Interval, big_endian: bool, b: Num, n: &ArrayMap)
    requires cleared(bits, a, m, older, newer, kind, idx, width, big_endian, b, n), target(idx, width) is Some,
    ensures is_free(n, kind, target(idx, width)->Some_0),
{
    let (mid, mm, r) = choose|mid: Num, mm: ArrayMap, r: RegistryView| #[trigger] split_first(bits, a, m, older, r, kind, idx, width, big_endian, mid, &mm)
        && r.extends(older) && newer.extends(r)
        && #[trigger] struck_removed(mid, &mm, r, newer, kind, idx, width, b, n);
    let t = target(idx, width)->Some_0;
    assert forall|d: Cell| #[trigger] n.has(kind, d) implies !overlaps(d, t.offset, t.size) by {
        assert(mm.has(kind, d) && !struck(&mm, kind, idx, width, d));
    }
}

proof fn lemma_named_later(r: RegistryView, later: RegistryView, v: Variable, name: Seq<char>)
    requires later.extends(r), rcp::is_named(r, v, name),
    ensures rcp::is_named(later, v, name),
{
}

proof fn lemma_loads_later(n: Num, r: RegistryView, later: RegistryView, m: &ArrayMap, kind: DataKind, c: Cell, big_endian: bool, e: Option<LinearExpression>)
    requires r.wf(), later.wf(), later.extends(r), loads_as(n, r, m, kind, c, big_endian, e),
    ensures
        loads_as(n, later, m, kind, c, big_endian, e),
        makes_cell(n, r, m, kind, c, big_endian) == makes_cell(n, later, m, kind, c, big_endian),
{
    if is_value_kind(kind) && !m.has(kind, c) { byte_read::rebuilding_is_stable(r, later, n, c, big_endian); }
    if reads_cell(r, kind, c, e) {
        let v = choose|v: Variable| #[trigger] rcp::is_named(r, v, c.name(kind)) && e is Some && zone_domain::is_variable(&e->Some_0, v.id);
        lemma_named_later(r, later, v, c.name(kind));
    }
}

proof fn lemma_part_later(a: Num, m: &ArrayMap, older: RegistryView, r: RegistryView, later: RegistryView, kind: DataKind, c: Cell, big_endian: bool, b: Num, n: &ArrayMap)
    requires r.wf(), later.wf(), later.extends(r), part_split(a, m, older, r, kind, c, big_endian, b, n),
    ensures part_split(a, m, older, later, kind, c, big_endian, b, n),
{
    let (es, eu) = choose|es: Option<LinearExpression>, eu: Option<LinearExpression>|
        loads_as(a, r, m, DataKind::Svalues, c, big_endian, es)
        && loads_as(a, r, m, DataKind::Uvalues, c, big_endian, eu)
        && #[trigger] part_assigned(a, older, r, c, es, eu, b);
    lemma_loads_later(a, r, later, m, DataKind::Svalues, c, big_endian, es);
    lemma_loads_later(a, r, later, m, DataKind::Uvalues, c, big_endian, eu);
    let (sv, uv) = choose|sv: Variable, uv: Variable| #[trigger] rcp::is_named(r, sv, c.name(DataKind::Svalues)) && #[trigger] rcp::is_named(r, uv, c.name(DataKind::Uvalues))
        && numeric_steps::performs(a, older, r, seq![assignment(sv.id, es), assignment(uv.id, eu)], b);
    lemma_named_later(r, later, sv, c.name(DataKind::Svalues));
    lemma_named_later(r, later, uv, c.name(DataKind::Uvalues));
    numeric_steps::performs_later(a, older, r, later, seq![assignment(sv.id, es), assignment(uv.id, eu)], b);
    assert(part_assigned(a, older, later, c, es, eu, b));
    assert forall|k: DataKind, d: Cell| #[trigger] n.has(k, d) <==> m.has(k, d) || (d == c && c.offset < stack_bytes(m.total())
            && (k == kind || (is_value_kind(k) && makes_cell(a, later, m, k, c, big_endian)))) by {}
}

proof fn lemma_cell_split_later(bits: Seq<bool>, a: Num, m: &ArrayMap, older: RegistryView, r: RegistryView, later: RegistryView, kind: DataKind, c: Cell, t: Cell, big_endian: bool, b: Num, n: &ArrayMap)
    requires r.wf(), later.wf(), later.extends(r), cell_split(bits, a, m, older, r, kind, c, t, big_endian, b, n),
    ensures cell_split(bits, a, m, older, later, kind, c, t, big_endian, b, n),
{
    if is_wide_number(bits, c) {
        later.names_are_stable(r, c.name(kind));
        if byte_read::interval_in(a, r.var(c.name(kind)).id).singleton_spec() is Some {
            let (mid, mm) = choose|mid: Num, mm: ArrayMap| #[trigger] left_split(a, m, older, r, kind, c, t, big_endian, mid, &mm)
                && right_split(mid, &mm, older, r, kind, c, t, big_endian, b, n);
            if c.offset < t.offset { lemma_part_later(a, m, older, r, later, kind, left_part(c, t), big_endian, mid, &mm); }
            if t.offset + t.size < c.offset + c.size { lemma_part_later(mid, &mm, older, r, later, kind, right_part(c, t), big_endian, b, n); }
            assert(left_split(a, m, older, later, kind, c, t, big_endian, mid, &mm));
            assert(right_split(mid, &mm, older, later, kind, c, t, big_endian, b, n));
        }
    }
}

/// The stack: which bytes are numbers, and the cells of each kind.
pub struct ArrayDomain {
    num_bytes: BitsetDomain,
    cells: ArrayMap,
}

impl ArrayDomain {
    /// Byte by byte, whether it may be something else than a number.
    pub closed spec fn bits(&self) -> Seq<bool> {
        self.num_bytes@
    }

    /// The cells.
    pub closed spec fn map(&self) -> ArrayMap {
        self.cells
    }

    /// The bytes are as many as the stack has.
    pub closed spec fn wf(&self) -> bool {
        &&& self.num_bytes.wf()
        &&& self.cells.wf()
        &&& self.num_bytes@.len() == stack_bytes(self.cells.total())
    }

    /// The cells of a well-formed stack are in order, and there are as many bytes as the stack has.
    pub proof fn parts_are_wf(&self)
        requires self.wf(),
        ensures self.map().wf(), self.bits().len() == stack_bytes(self.map().total()), self.bits().len() <= i32::MAX,
    {
    }

    /// A stack of which nothing is known.
    pub fn new(total_stack_size: i32) -> (r: Self)
        ensures
            r.wf(),
            r.bits() == Seq::new(stack_bytes(total_stack_size as int) as nat, |i: int| true),
            r.map().total() == total_stack_size,
            forall|k: DataKind, c: Cell| !(#[trigger] r.map().has(k, c)),
    {
        let r = ArrayDomain { num_bytes: BitsetDomain::new(total_stack_size), cells: ArrayMap::new(total_stack_size) };
        assert forall|k: DataKind, c: Cell| !(#[trigger] r.map().has(k, c)) by { assert(r.map().at(k) is None); }
        r
    }

    /// The size of the stack.
    pub fn total_stack_size(&self) -> (r: i32)
        requires self.wf(),
        ensures r == self.bits().len(),
    {
        self.num_bytes.len() as i32
    }

    /// A stack with no cells.
    pub fn from_bitset(num_bytes: BitsetDomain) -> (r: Self)
        requires num_bytes.wf(),
        ensures
            r.wf(),
            r.bits() == num_bytes@,
            r.map().total() == num_bytes@.len(),
            forall|k: DataKind, c: Cell| !(#[trigger] r.map().has(k, c)),
    {
        let size: i32 = num_bytes.len() as i32;
        let r = ArrayDomain { num_bytes, cells: ArrayMap::new(size) };
        assert forall|k: DataKind, c: Cell| !(#[trigger] r.map().has(k, c)) by { assert(r.map().at(k) is None); }
        r
    }

    pub fn cells(&self) -> (r: &ArrayMap)
        ensures *r == self.map(),
    {
        &self.cells
    }

    pub fn cells_mut(&mut self) -> (r: &mut ArrayMap)
        requires old(self).wf(),
        ensures
            *r == old(self).map(),
            final(self).map() == *final(r),
            final(self).bits() == old(self).bits(),
            final(r).wf() && final(r).total() == r.total() ==> final(self).wf(),
    {
        &mut self.cells
    }

    /// No byte is known to be a number. The cells stay.
    pub fn set_to_top(&mut self)
        requires old(self).wf(),
        ensures final(self).wf(), final(self).map() == old(self).map(), final(self).bits() == Seq::new(old(self).bits().len(), |i: int| true),
    {
        self.num_bytes.set_to_top();
    }

    /// Every byte is a number. The cells stay.
    pub fn set_to_bottom(&mut self)
        requires old(self).wf(),
        ensures final(self).wf(), final(self).map() == old(self).map(), final(self).bits() == Seq::new(old(self).bits().len(), |i: int| false),
    {
        self.num_bytes.set_to_bottom();
    }

    /// A stack is never bottom.
    pub fn is_bottom(&self) -> (r: bool)
        ensures !r,
    {
        self.num_bytes.is_bottom()
    }

    pub fn is_top(&self) -> (r: bool)
        ensures r <==> forall|i: int| 0 <= i < self.bits().len() ==> #[trigger] self.bits()[i],
    {
        assert(self.bits() == self.num_bytes@);
        let r: bool = self.num_bytes.is_top();
        assert forall|i: int| 0 <= i < self.bits().len() && r implies #[trigger] self.bits()[i] by { assert(self.num_bytes@[i]); }
        assert(!r ==> exists|i: int| 0 <= i < self.num_bytes@.len() && !(#[trigger] self.num_bytes@[i]));
        if !r {
            proof {
                let i = choose|i: int| 0 <= i < self.num_bytes@.len() && !(#[trigger] self.num_bytes@[i]);
                assert(!self.bits()[i]);
            }
        }
        r
    }

    pub fn is_included_in(&self, other: &ArrayDomain) -> (r: bool)
        requires self.bits().len() == other.bits().len(),
        ensures r == (forall|i: int| 0 <= i < self.bits().len() && #[trigger] self.bits()[i] ==> other.bits()[i]),
    {
        self.num_bytes.is_included_in(&other.num_bytes)
    }

    /// A copy of the stack.
    pub fn copy(&self) -> (r: Self)
        requires self.wf(),
        ensures r.wf(), r.bits() == self.bits(), same_cells(&self.map(), &r.map()),
    {
        ArrayDomain { num_bytes: self.num_bytes.copy(), cells: self.cells.copy() }
    }

    /// A byte is a number in the join where it is one on both sides; the cells of both stay.
    pub fn join(&self, other: &ArrayDomain) -> (r: ArrayDomain)
        requires self.wf(), other.wf(), self.map().total() == other.map().total(),
        ensures r.wf(), r.bits() == bitset_domain::either_bits(self.bits(), other.bits()), merged(&self.map(), &other.map(), &r.map()),
    {
        let mut cells = self.cells.copy();
        cells.merge_from(&other.cells);
        ArrayDomain { num_bytes: self.num_bytes.join(&other.num_bytes), cells }
    }

    pub fn join_assign(&mut self, other: &ArrayDomain)
        requires old(self).wf(), other.wf(), old(self).map().total() == other.map().total(),
        ensures final(self).wf(), final(self).bits() == bitset_domain::either_bits(old(self).bits(), other.bits()), merged(&old(self).map(), &other.map(), &final(self).map()),
    {
        if self.is_bottom() {
            *self = other.copy();
            return;
        }
        self.num_bytes.join_assign(&other.num_bytes);
        self.cells.merge_from(&other.cells);
    }

    /// A byte is a number in the meet where it is one on either side; the cells of both stay.
    pub fn meet(&self, other: &ArrayDomain) -> (r: ArrayDomain)
        requires self.wf(), other.wf(), self.map().total() == other.map().total(),
        ensures r.wf(), r.bits() == bitset_domain::common_bits(self.bits(), other.bits()), merged(&self.map(), &other.map(), &r.map()),
    {
        let mut cells = self.cells.copy();
        cells.merge_from(&other.cells);
        ArrayDomain { num_bytes: self.num_bytes.meet(&other.num_bytes), cells }
    }

    pub fn widen(&self, other: &ArrayDomain) -> (r: ArrayDomain)
        requires self.wf(), other.wf(), self.map().total() == other.map().total(),
        ensures r.wf(), r.bits() == bitset_domain::either_bits(self.bits(), other.bits()), merged(&self.map(), &other.map(), &r.map()),
    {
        self.join(other)
    }

    pub fn narrow(&self, other: &ArrayDomain) -> (r: ArrayDomain)
        requires self.wf(), other.wf(), self.map().total() == other.map().total(),
        ensures r.wf(), r.bits() == bitset_domain::common_bits(self.bits(), other.bits()), merged(&self.map(), &other.map(), &r.map()),
    {
        self.meet(other)
    }

    /// The runs of numbers as lines of text.
    pub fn to_set(&self) -> (r: StringInvariant)
        requires self.wf(),
        ensures
            r.content() is Some,
            forall|l: Seq<char>| #[trigger] r.has(l) <==> exists|k: int| 0 <= k < bitset_domain::runs_from(self.bits(), 0).len()
                && l == bitset_domain::run_line(#[trigger] bitset_domain::runs_from(self.bits(), 0)[k]),
    {
        let r = self.num_bytes.to_set();
        proof {
            let runs = bitset_domain::runs_from(self.bits(), 0);
            assert(runs == bitset_domain::runs_from(self.num_bytes@, 0));
            assert forall|l: Seq<char>| #[trigger] r.has(l) <==> exists|k: int| 0 <= k < runs.len() && l == bitset_domain::run_line(#[trigger] runs[k]) by {
                if r.has(l) {
                    let k = choose|k: int| 0 <= k < runs.len() && l == bitset_domain::run_line(#[trigger] bitset_domain::runs_from(self.num_bytes@, 0)[k]);
                    assert(l == bitset_domain::run_line(runs[k]));
                }
                if exists|k: int| 0 <= k < runs.len() && l == bitset_domain::run_line(#[trigger] runs[k]) {
                    let k = choose|k: int| 0 <= k < runs.len() && l == bitset_domain::run_line(#[trigger] runs[k]);
                    assert(l == bitset_domain::run_line(bitset_domain::runs_from(self.num_bytes@, 0)[k]));
                }
            }
        }
        r
    }

    /// The runs of numbers.
    pub fn to_string(&self) -> (r: String)
        requires self.wf(),
        ensures r@ == bitset_domain::shown_runs(bitset_domain::runs_from(self.bits(), 0), bitset_domain::runs_from(self.bits(), 0).len()) + "}"@,
    {
        self.num_bytes.to_string()
    }

    /// Whether every byte that an access may touch is a number; not so where it touches none.
    pub fn all_num_width(&self, index: &Interval, width: &Interval) -> (r: bool)
        requires self.wf(),
        ensures r == all_numbers(self.bits(), touched(*index, *width)),
    {
        let (min_lb, max_ub) = as_numbytes_range(index, width, self.total_stack_size());
        if min_lb >= max_ub {
            return false;
        }
        self.num_bytes.all_num(min_lb, max_ub)
    }

    /// Whether every byte from one interval to another is a number; not so where there is none.
    pub fn all_num_lb_ub(&self, lb: &Interval, ub: &Interval) -> (r: bool)
        requires self.wf(),
        ensures r == all_numbers(self.bits(), lb.join_spec(*ub)),
    {
        let (min_lb, max_ub) = clamped_bounds(&lb.join(ub), self.total_stack_size());
        if min_lb >= max_ub {
            return false;
        }
        self.num_bytes.all_num(min_lb, max_ub)
    }

    /// The least number of numeric bytes in a row from an offset on.
    pub fn min_all_num_size(&self, inv: &NumAbsDomain, offset: Variable, registry: &VariableRegistry) -> (r: i32)
        requires self.wf(), inv.wf(),
        ensures r == least_numbers(self.bits(), inv.interval(offset.id)),
    {
        let interval = inv.eval_interval_var(offset, registry);
        match (interval.lb().number(), interval.ub().number()) {
            (Some(l), Some(u)) => match (l.to_i64(), u.to_i64()) {
                (Some(lb), Some(ub)) => {
                    if lb >= i32::MIN as i64 && ub <= i32::MAX as i64 {
                        let run: i32 = if lb >= 0 && lb <= i32::MAX as i64 { self.num_bytes.all_num_width(lb as usize) } else { 0 };
                        let slack: i128 = run as i128 - (ub as i128 - lb as i128);
                        if slack > 0 && slack <= i32::MAX as i128 { slack as i32 } else if slack > 0 { i32::MAX } else { 0 }
                    } else {
                        0
                    }
                }
                _ => 0,
            },
            _ => 0,
        }
    }

    /// Marks a range as numbers, and makes its cell.
    pub fn initialize_numbers(&mut self, lb: i32, width: i32)
        requires old(self).wf(),
        ensures
            final(self).wf(),
            lb < 0 ==> final(self).bits() == old(self).bits() && same_cells(&old(self).map(), &final(self).map()),
            lb >= 0 ==> final(self).bits() == bitset_domain::filled(old(self).bits(), lb as int, lb + bitset_domain::clipped(lb as int, width as int, old(self).bits().len() as int), false)
                && with_cell(&old(self).map(), DataKind::Svalues, Cell { offset: lb as u64, size: width as u32 }, &final(self).map()),
    {
        if lb >= 0 {
            self.num_bytes.reset(lb as usize, width);
            self.add_cell(DataKind::Svalues, lb as u64, width as u32);
        }
    }

    /// The cell of a range, made where it starts within the stack.
    fn add_cell(&mut self, kind: DataKind, offset: u64, size: u32) -> (r: Cell)
        requires old(self).wf(),
        ensures
            final(self).wf(),
            final(self).bits() == old(self).bits(),
            r == (Cell { offset, size }),
            with_cell(&old(self).map(), kind, r, &final(self).map()),
    {
        let ghost m0 = self.cells;
        let om = self.cells.entry_or_default(kind);
        let ghost o0 = om.cells();
        assert forall|c: Cell| #[trigger] om.has(c) <==> m0.has(kind, c) by {}
        let c = om.mk_cell(offset, size);
        let ghost o1 = *om;
        assert forall|k: DataKind, d: Cell| #[trigger] self.cells.has(k, d) <==> m0.has(k, d) || (k == kind && d == c && c.offset < stack_bytes(m0.total())) by {
            if k == kind { assert(o1.has(d) <==> o0.contains(d) || (d == c && offset < stack_bytes(m0.total()))); }
        }
        c
    }

    fn has_cell(&self, kind: DataKind, c: Cell) -> (r: bool)
        requires self.wf(),
        ensures r == self.map().has(kind, c),
    {
        match self.cells.get(&kind) {
            Some(om) => om.get_cell(c.offset, c.size).is_some(),
            None => false,
        }
    }

    fn cell_is_free(&self, kind: DataKind, c: Cell) -> (r: bool)
        requires self.wf(),
        ensures r == is_free(&self.map(), kind, c),
    {
        match self.cells.get(&kind) {
            Some(om) => {
                let found = om.get_overlap_cells(c.offset, c.size);
                proof {
                    if found.len() > 0 {
                        assert(found@.contains(found@[0]));
                        assert(om.has(found@[0]) && overlaps(found@[0], c.offset, c.size));
                        assert(self.map().has(kind, found@[0]));
                    } else {
                        assert forall|d: Cell| #[trigger] self.map().has(kind, d) implies !overlaps(d, c.offset, c.size) by {
                            assert(om.has(d));
                            assert(!found@.contains(d));
                        }
                    }
                }
                found.len() == 0
            }
            None => true,
        }
    }

    /// What is read from a cell.
    fn load_cell(&mut self, inv: &NumAbsDomain, kind: DataKind, c: Cell, registry: &mut VariableRegistry, big_endian: bool) -> (r: Option<LinearExpression>)
        requires old(self).wf(), inv.wf(), old(registry)@.wf(),
        ensures
            final(self).wf(),
            final(self).bits() == old(self).bits(),
            final(registry)@.wf(),
            final(registry)@.extends(old(registry)@),
            loads_as(numeric_steps::num(inv), final(registry)@, &old(self).map(), kind, c, big_endian, r),
            makes_cell(numeric_steps::num(inv), final(registry)@, &old(self).map(), kind, c, big_endian) ==> with_cell(&old(self).map(), kind, c, &final(self).map()),
            !makes_cell(numeric_steps::num(inv), final(registry)@, &old(self).map(), kind, c, big_endian) ==> same_cells(&old(self).map(), &final(self).map()),
            r matches Some(e) ==> zone_domain::knows_terms(final(registry)@, e.terms@),
    {
        let ghost older = registry@;
        let ghost n = numeric_steps::num(inv);
        if self.has_cell(kind, c) {
            let v = c.get_scalar(kind, registry);
            let e = LinearExpression::from_variable(v);
            assert(zone_domain::is_variable(&e, v.id));
            return Some(e);
        }
        if kind == DataKind::Svalues || kind == DataKind::Uvalues {
            if let Some(value) = byte_read::reconstruct_value_from_bytes(inv, c, registry, big_endian) {
                let e = LinearExpression::from_number(Number::of(value as i128).cast_to_signed_width(64));
                return Some(e);
            }
        }
        let ghost mid = registry@;
        if self.cell_is_free(kind, c) {
            self.add_cell(kind, c.offset, c.size);
            let v = c.get_scalar(kind, registry);
            let e = LinearExpression::from_variable(v);
            proof {
                assert(zone_domain::is_variable(&e, v.id));
                registry@.extending_is_transitive(mid, older);
                if is_value_kind(kind) { byte_read::rebuilding_is_stable(mid, registry@, n, c, big_endian); }
                assert(reads_cell(registry@, kind, c, Some(e)));
            }
            return Some(e);
        }
        None
    }

    /// Reads a value at an index. Where the index is not known, nothing is.
    pub fn load(&mut self, inv: &NumAbsDomain, kind: DataKind, i: &Interval, width: i32, registry: &mut VariableRegistry, big_endian: bool) -> (r: Option<LinearExpression>)
        requires old(self).wf(), inv.wf(), old(registry)@.wf(), width >= 0,
        ensures
            final(self).wf(),
            final(self).bits() == old(self).bits(),
            final(registry)@.wf(),
            final(registry)@.extends(old(registry)@),
            r matches Some(e) ==> zone_domain::knows_terms(final(registry)@, e.terms@),
            match known_offset(*i) {
                None => r is None && same_cells(&old(self).map(), &final(self).map()) && final(registry)@ == old(registry)@,
                Some(o) => {
                    let c = Cell { offset: o, size: width as u32 };
                    let made = makes_cell(numeric_steps::num(inv), final(registry)@, &old(self).map(), kind, c, big_endian);
                    loads_as(numeric_steps::num(inv), final(registry)@, &old(self).map(), kind, c, big_endian, r)
                        && (made ==> with_cell(&old(self).map(), kind, c, &final(self).map()))
                        && (!made ==> same_cells(&old(self).map(), &final(self).map()))
                },
            },
    {
        match i.singleton() {
            Some(n) => {
                if n.to_i64().is_none() {
                    return None;
                }
                proof { lemma_low_bits(n); }
                let offset: u64 = offset_of_number(n);
                self.load_cell(inv, kind, Cell::new(offset, width as u32), registry, big_endian)
            }
            None => None,
        }
    }

    /// Reads a type at an index: a number where all bytes are numbers, and the type of an
    /// eight-byte cell where none is.
    pub fn load_type(&mut self, i: &Interval, width: i32, registry: &mut VariableRegistry) -> (r: Option<LinearExpression>)
        requires old(self).wf(), old(registry)@.wf(), width >= 0,
        ensures
            final(self).wf(),
            final(self).bits() == old(self).bits(),
            final(registry)@.wf(),
            final(registry)@.extends(old(registry)@),
            r matches Some(e) ==> zone_domain::knows_terms(final(registry)@, e.terms@),
            match loaded_type(old(self).bits(), &old(self).map(), *i, width as int) {
                LoadedType::Number => r is Some && finite_assume::is_constant(&r->Some_0, TypeEncoding::TNum.code()) && same_cells(&old(self).map(), &final(self).map()),
                LoadedType::Cell(c) => reads_cell(final(registry)@, DataKind::Types, c, r) && with_cell(&old(self).map(), DataKind::Types, c, &final(self).map()),
                LoadedType::Nothing => r is None && same_cells(&old(self).map(), &final(self).map()),
            },
    {
        match i.singleton() {
            Some(n) => {
                if n.to_i64().is_none() {
                    return None;
                }
                proof { lemma_low_bits(n); }
                let offset: u64 = offset_of_number(n);
                let (only_num, only_non_num) = self.num_bytes.uniformity(position_of(offset), width);
                let c = Cell::new(offset, width as u32);
                if only_num {
                    return Some(LinearExpression::from_i64(TypeEncoding::TNum.to_i32() as i64));
                }
                if !only_non_num || width != 8 {
                    return None;
                }
                if self.has_cell(DataKind::Types, c) {
                    proof { self.cells.cells_are_inside(DataKind::Types, c); }
                    let v = c.get_scalar(DataKind::Types, registry);
                    let e = LinearExpression::from_variable(v);
                    assert(zone_domain::is_variable(&e, v.id));
                    return Some(e);
                }
                if self.cell_is_free(DataKind::Types, c) {
                    self.add_cell(DataKind::Types, c.offset, c.size);
                    let v = c.get_scalar(DataKind::Types, registry);
                    let e = LinearExpression::from_variable(v);
                    assert(zone_domain::is_variable(&e, v.id));
                    return Some(e);
                }
                None
            }
            None => {
                if let (Some(l), Some(u)) = (i.lb().number(), i.ub().number()) {
                    if let (Some(lb), Some(ub)) = (l.to_i64(), u.to_i64()) {
                        let full_width: i128 = ub as i128 - lb as i128 + width as i128;
                        if lb >= 0 && full_width >= 0 && lb <= u32::MAX as i64 && full_width <= u32::MAX as i128 {
                            let (only_num, _rest) = self.num_bytes.uniformity(position_of(lb as u64), width_of(full_width as u32));
                            if only_num {
                                return Some(LinearExpression::from_i64(TypeEncoding::TNum.to_i32() as i64));
                            }
                        }
                    }
                }
                None
            }
        }
    }

    /// Makes a part of a cell a cell of its own.
    fn split_cell(&mut self, inv: &mut NumAbsDomain, kind: DataKind, c: Cell, registry: &mut VariableRegistry, big_endian: bool)
        requires old(self).wf(), old(inv).wf(), old(registry)@.wf(), is_value_kind(kind),
        ensures
            final(self).wf(),
            final(self).bits() == old(self).bits(),
            final(inv).wf(),
            final(registry)@.wf(),
            final(registry)@.extends(old(registry)@),
            part_split(numeric_steps::num(old(inv)), &old(self).map(), old(registry)@, final(registry)@, kind, c, big_endian, numeric_steps::num(final(inv)), &final(self).map()),
    {
        let ghost m0 = self.map();
        let ghost a = numeric_steps::num(inv);
        let ghost r0 = registry@;
        let svalue = self.load_cell(inv, DataKind::Svalues, c, registry, big_endian);
        let ghost m1 = self.map();
        let ghost r1 = registry@;
        let uvalue = self.load_cell(inv, DataKind::Uvalues, c, registry, big_endian);
        let ghost m2 = self.map();
        let ghost r2 = registry@;
        self.add_cell(kind, c.offset, c.size);
        let sv = c.get_scalar(DataKind::Svalues, registry);
        let ghost r3 = registry@;
        proof {
            r3.extending_is_transitive(r2, r1);
            assert forall|d: Cell| #[trigger] m1.has(DataKind::Uvalues, d) <==> m0.has(DataKind::Uvalues, d) by {}
            lemma_other_kind(a, r2, &m0, &m1, DataKind::Uvalues, c, big_endian, uvalue);
        }
        inv.assign_or_havoc(sv, &svalue, registry);
        let ghost mid = numeric_steps::num(inv);
        let uv = c.get_scalar(DataKind::Uvalues, registry);
        let ghost r4 = registry@;
        proof {
            r4.extending_is_transitive(r3, r2);
        }
        inv.assign_or_havoc(uv, &uvalue, registry);
        proof {
            let b = numeric_steps::num(inv);
            r4.extending_is_transitive(r2, r1);
            r4.extending_is_transitive(r1, r0);
            r3.extending_is_transitive(r1, r0);
            lemma_loads_later(a, r1, r4, &m0, DataKind::Svalues, c, big_endian, svalue);
            lemma_loads_later(a, r2, r4, &m0, DataKind::Uvalues, c, big_endian, uvalue);
            lemma_assignment(a, r3, sv.id, svalue, mid);
            lemma_assignment(mid, r4, uv.id, uvalue, b);
            numeric_steps::performs_nothing(a, r0, r3);
            numeric_steps::performs_one(a, r0, r3, seq![], a, assignment(sv.id, svalue), mid);
            numeric_steps::performs_later(a, r0, r3, r4, seq![].push(assignment(sv.id, svalue)), mid);
            numeric_steps::performs_one(a, r0, r4, seq![].push(assignment(sv.id, svalue)), mid, assignment(uv.id, uvalue), b);
            assert(seq![].push(assignment(sv.id, svalue)).push(assignment(uv.id, uvalue)) =~= seq![assignment(sv.id, svalue), assignment(uv.id, uvalue)]);
            lemma_named_later(r3, r4, sv, c.name(DataKind::Svalues));
            assert(part_assigned(a, r0, r4, c, svalue, uvalue, b));
            assert forall|k: DataKind, d: Cell| #[trigger] self.map().has(k, d) <==> m0.has(k, d) || (d == c && c.offset < stack_bytes(m0.total())
                && (k == kind || (is_value_kind(k) && makes_cell(a, r4, &m0, k, c, big_endian)))) by {
                assert(m2.has(k, d) <==> m1.has(k, d) || (makes_cell(a, r2, &m1, DataKind::Uvalues, c, big_endian) && k == DataKind::Uvalues && d == c && c.offset < stack_bytes(m0.total())));
                assert(m1.has(k, d) <==> m0.has(k, d) || (makes_cell(a, r1, &m0, DataKind::Svalues, c, big_endian) && k == DataKind::Svalues && d == c && c.offset < stack_bytes(m0.total())));
            }
        }
    }

    /// Splits the wide numbers around a range that is about to be written.
    pub fn split_number_var(&mut self, inv: &mut NumAbsDomain, kind: DataKind, ii: &Interval, elem_size: &Interval, registry: &mut VariableRegistry, big_endian: bool)
        requires old(self).wf(), old(inv).wf(), old(registry)@.wf(), is_value_kind(kind),
        ensures
            final(self).wf(),
            final(self).bits() == old(self).bits(),
            final(inv).wf(),
            final(registry)@.wf(),
            final(registry)@.extends(old(registry)@),
            split_first(old(self).bits(), numeric_steps::num(old(inv)), &old(self).map(), old(registry)@, final(registry)@, kind, *ii, *elem_size, big_endian,
                numeric_steps::num(final(inv)), &final(self).map()),
    {
        let ghost bits = self.bits();
        let ghost a = numeric_steps::num(inv);
        let ghost m0 = self.map();
        let ghost r0 = registry@;
        let (n, nb) = match (ii.singleton(), elem_size.singleton()) {
            (Some(n), Some(nb)) => (n, nb),
            _ => { return; }
        };
        proof { lemma_low_bits(n); lemma_low_bits(nb); }
        let offset: u64 = offset_of_number(n);
        let size: u32 = size_of_number(nb);
        let ghost t = Cell { offset, size };
        let cells = {
            let om = self.cells.entry_or_default(kind);
            om.get_overlap_cells(offset, size)
        };
        proof {
            assert forall|c: Cell| #[trigger] cells@.contains(c) <==> struck(&m0, kind, *ii, *elem_size, c) by {}
            assert(lists_struck(cells@, &m0, kind, *ii, *elem_size));
        }
        let ghost mut path: Seq<(Num, ArrayMap)> = seq![(a, self.map())];
        assert(same_cells(&m0, &self.map())) by {
            assert forall|k: DataKind, c: Cell| #[trigger] self.map().has(k, c) <==> m0.has(k, c) by {}
        }
        let mut i: usize = 0;
        while i < cells.len()
            invariant
                i <= cells.len(),
                is_value_kind(kind),
                t == (Cell { offset, size }),
                self.wf(),
                self.bits() == bits,
                inv.wf(),
                registry@.wf(),
                registry@.extends(r0),
                path.len() == i + 1,
                path[0].0 == a,
                same_cells(&m0, &path[0].1),
                path[i as int] == (numeric_steps::num(inv), self.map()),
                forall|c: Cell| #[trigger] cells@.contains(c) ==> overlaps(c, offset, size) && c.offset < stack_bytes(m0.total()),
                bits.len() == stack_bytes(m0.total()),
                bits.len() <= i32::MAX,
                forall|j: int| 0 <= j < i ==> cell_split(bits, path[j].0, &path[j].1, r0, registry@, kind, #[trigger] cells@[j], t, big_endian, path[j + 1].0, &path[j + 1].1),
            decreases cells.len() - i,
        {
            let c: Cell = cells[i];
            assert(cells@.contains(c));
            let ghost n0 = numeric_steps::num(inv);
            let ghost mm = self.map();
            let ghost g0 = registry@;
            self.split_around(inv, kind, c, offset, size, registry, big_endian);
            proof {
                let g1 = registry@;
                g1.extending_is_transitive(g0, r0);
                let old_path = path;
                path = path.push((numeric_steps::num(inv), self.map()));
                assert forall|j: int| 0 <= j < i + 1 implies cell_split(bits, path[j].0, &path[j].1, r0, g1, kind, #[trigger] cells@[j], t, big_endian, path[j + 1].0, &path[j + 1].1) by {
                    if j < i {
                        assert(path[j] == old_path[j] && path[j + 1] == old_path[j + 1]);
                        lemma_cell_split_later(bits, path[j].0, &path[j].1, r0, g0, g1, kind, cells@[j], t, big_endian, path[j + 1].0, &path[j + 1].1);
                    } else {
                        lemma_cell_split_earlier(bits, n0, &mm, r0, g0, g1, kind, c, t, big_endian, path[j + 1].0, &path[j + 1].1);
                    }
                }
            }
            i = i + 1;
        }
        proof {
            assert(is_split_path(bits, path, r0, registry@, kind, cells@, t, big_endian));
            assert(splits(bits, a, &m0, r0, registry@, kind, cells@, t, big_endian, numeric_steps::num(inv), &self.map()));
        }
    }

    /// Splits one cell around a range.
    fn split_around(&mut self, inv: &mut NumAbsDomain, kind: DataKind, c: Cell, offset: u64, size: u32, registry: &mut VariableRegistry, big_endian: bool)
        requires
            old(self).wf(),
            old(inv).wf(),
            old(registry)@.wf(),
            is_value_kind(kind),
            overlaps(c, offset, size),
            c.offset < old(self).bits().len(),
        ensures
            final(self).wf(),
            final(self).bits() == old(self).bits(),
            final(inv).wf(),
            final(registry)@.wf(),
            final(registry)@.extends(old(registry)@),
            cell_split(old(self).bits(), numeric_steps::num(old(inv)), &old(self).map(), old(registry)@, final(registry)@, kind, c, Cell { offset, size }, big_endian,
                numeric_steps::num(final(inv)), &final(self).map()),
    {
        let ghost bits = self.bits();
        let ghost a = numeric_steps::num(inv);
        let ghost m0 = self.map();
        let ghost r0 = registry@;
        let ghost t = Cell { offset, size };
        let start: i32 = c.offset as i32;
        let end: u64 = c.offset + c.size as u64;
        let end_clamped: i32 = if end <= i32::MAX as u64 { end as i32 } else { i32::MAX };
        if c.size < 8 || !self.num_bytes.all_num(start, end_clamped) {
            proof {
                if c.size >= 8 {
                    let i = choose|i: int| start <= i < end_clamped && 0 <= i < bits.len() && #[trigger] bits[i];
                    assert(c.offset <= i < c.offset + c.size && bits[i]);
                }
                assert(!is_wide_number(bits, c));
            }
            return;
        }
        proof {
            assert forall|i: int| c.offset <= i < c.offset + c.size && i < bits.len() implies !(#[trigger] bits[i]) by {}
            assert(is_wide_number(bits, c));
        }
        let scalar = c.get_scalar(kind, registry);
        let ghost r1 = registry@;
        proof { r1.var_is_unique(c.name(kind), scalar.id as int); }
        if !inv.eval_interval_var(scalar, registry).is_singleton() {
            return;
        }
        if c.offset < offset {
            self.split_cell(inv, kind, Cell::new(c.offset, (offset - c.offset) as u32), registry, big_endian);
        }
        let ghost mid = numeric_steps::num(inv);
        let ghost mm = self.map();
        let ghost r2 = registry@;
        let stop: u128 = offset as u128 + size as u128;
        if stop < end as u128 {
            self.split_cell(inv, kind, Cell::new(stop as u64, (end - stop as u64) as u32), registry, big_endian);
        }
        proof {
            let r3 = registry@;
            r2.extending_is_transitive(r1, r0);
            r3.extending_is_transitive(r2, r1);
            r3.extending_is_transitive(r1, r0);
            r3.names_are_stable(r1, c.name(kind));
            if c.offset < offset {
                lemma_part_earlier(a, &m0, r0, r1, r2, kind, left_part(c, t), big_endian, mid, &mm);
                lemma_part_later(a, &m0, r0, r2, r3, kind, left_part(c, t), big_endian, mid, &mm);
            }
            if stop < end {
                lemma_part_earlier(mid, &mm, r0, r2, r3, kind, right_part(c, t), big_endian, numeric_steps::num(inv), &self.map());
            }
            assert(left_split(a, &m0, r0, r3, kind, c, t, big_endian, mid, &mm));
            assert(right_split(mid, &mm, r0, r3, kind, c, t, big_endian, numeric_steps::num(inv), &self.map()));
        }
    }

    /// Clears a range; its cell where the range is known.
    fn split_and_find_var(&mut self, inv: &mut NumAbsDomain, kind: DataKind, idx: &Interval, elem_size: &Interval, registry: &mut VariableRegistry, big_endian: bool) -> (r: Option<(u64, u32)>)
        requires old(self).wf(), old(inv).wf(), old(registry)@.wf(),
        ensures
            final(self).wf(),
            final(self).bits() == old(self).bits(),
            final(inv).wf(),
            final(registry)@.wf(),
            final(registry)@.extends(old(registry)@),
            r is Some <==> target(*idx, *elem_size) is Some,
            r matches Some(p) ==> target(*idx, *elem_size) == Some(Cell { offset: p.0, size: p.1 }),
            cleared(old(self).bits(), numeric_steps::num(old(inv)), &old(self).map(), old(registry)@, final(registry)@, kind, *idx, *elem_size, big_endian,
                numeric_steps::num(final(inv)), &final(self).map()),
    {
        let ghost r0 = registry@;
        if kind == DataKind::Svalues || kind == DataKind::Uvalues {
            self.split_number_var(inv, kind, idx, elem_size, registry, big_endian);
        }
        let ghost mid = numeric_steps::num(inv);
        let ghost mm = self.map();
        let ghost r1 = registry@;
        let r = kill_and_find_var(inv, kind, idx, elem_size, registry, &mut self.cells);
        proof {
            registry@.extending_is_transitive(r1, r0);
            assert(split_first(old(self).bits(), numeric_steps::num(old(inv)), &old(self).map(), r0, r1, kind, *idx, *elem_size, big_endian, mid, &mm));
            assert(struck_removed(mid, &mm, r1, registry@, kind, *idx, *elem_size, numeric_steps::num(inv), &self.map()));
        }
        r
    }

    /// Clears a range for a value; the variable of its cell where the range is known.
    pub fn store(&mut self, inv: &mut NumAbsDomain, kind: DataKind, idx: &Interval, elem_size: &Interval, registry: &mut VariableRegistry, big_endian: bool) -> (r: Option<Variable>)
        requires old(self).wf(), old(inv).wf(), old(registry)@.wf(),
        ensures
            final(self).wf(),
            final(self).bits() == old(self).bits(),
            final(inv).wf(),
            final(registry)@.wf(),
            final(registry)@.extends(old(registry)@),
            stored(old(self).bits(), numeric_steps::num(old(inv)), &old(self).map(), old(registry)@, final(registry)@, kind, *idx, *elem_size, big_endian,
                numeric_steps::num(final(inv)), &final(self).map(), r),
    {
        let ghost r0 = registry@;
        let ghost a = numeric_steps::num(inv);
        let ghost m0 = self.map();
        match self.split_and_find_var(inv, kind, idx, elem_size, registry, big_endian) {
            Some((offset, size)) => {
                let ghost m1 = self.map();
                let ghost r1 = registry@;
                let c = self.add_cell(kind, offset, size);
                let v = c.get_scalar(kind, registry);
                proof {
                    registry@.extending_is_transitive(r1, r0);
                    lemma_cleared_later(self.bits(), a, &m0, r0, r1, registry@, kind, *idx, *elem_size, big_endian, numeric_steps::num(inv), &m1);
                }
                Some(v)
            }
            None => None,
        }
    }

    /// Clears a range of values.
    pub fn havoc(&mut self, inv: &mut NumAbsDomain, kind: DataKind, idx: &Interval, elem_size: &Interval, registry: &mut VariableRegistry, big_endian: bool)
        requires old(self).wf(), old(inv).wf(), old(registry)@.wf(),
        ensures
            final(self).wf(),
            final(self).bits() == old(self).bits(),
            final(inv).wf(),
            final(registry)@.wf(),
            final(registry)@.extends(old(registry)@),
            cleared(old(self).bits(), numeric_steps::num(old(inv)), &old(self).map(), old(registry)@, final(registry)@, kind, *idx, *elem_size, big_endian,
                numeric_steps::num(final(inv)), &final(self).map()),
    {
        self.split_and_find_var(inv, kind, idx, elem_size, registry, big_endian);
    }

    /// Clears a range for a type; the variable of its cell where the range is known.
    pub fn store_type(&mut self, inv: &mut TypeDomain, idx: &Interval, width: &Interval, is_num: bool, registry: &mut VariableRegistry) -> (r: Option<Variable>)
        requires old(self).wf(), old(inv).wf(), old(registry)@.wf(),
        ensures
            final(self).wf(),
            final(inv).wf(),
            final(registry)@.wf(),
            final(registry)@.extends(old(registry)@),
            final(self).bits() == bits_after_type(old(self).bits(), *idx, *width, is_num),
            exists|cells: Seq<Cell>| #[trigger] lists_struck(cells, &old(self).map(), DataKind::Types, *idx, *width)
                && types_killed(old(inv), final(registry)@, cells, final(inv)),
            match target(*idx, *width) {
                Some(t) => r is Some && rcp::is_named(final(registry)@, r->Some_0, t.name(DataKind::Types))
                    && exists|m1: ArrayMap| #[trigger] without_struck(&old(self).map(), DataKind::Types, *idx, *width, &m1) && with_cell(&m1, DataKind::Types, t, &final(self).map()),
                None => r is None && without_struck(&old(self).map(), DataKind::Types, *idx, *width, &final(self).map()),
            },
            final(self).map().total() == old(self).map().total(),
    {
        let ghost r0 = registry@;
        let ghost m0 = self.map();
        let ghost inv0 = *inv;
        match kill_and_find_type_var(inv, idx, width, registry, &mut self.cells) {
            Some((offset, size)) => {
                let ghost m1 = self.map();
                let ghost r1 = registry@;
                if is_num {
                    self.num_bytes.reset(position_of(offset), width_of(size));
                } else {
                    self.num_bytes.havoc(position_of(offset), width_of(size));
                }
                proof {
                    assert(self.num_bytes@ =~= bits_after_type(old(self).bits(), *idx, *width, is_num));
                }
                let c = self.add_cell(DataKind::Types, offset, size);
                let v = c.get_scalar(DataKind::Types, registry);
                proof {
                    registry@.extending_is_transitive(r1, r0);
                    let cells = choose|cells: Seq<Cell>| #[trigger] lists_struck(cells, &m0, DataKind::Types, *idx, *width) && types_killed(&inv0, r1, cells, inv);
                    lemma_types_killed_later(&inv0, r1, registry@, cells, inv);
                    assert(without_struck(&m0, DataKind::Types, *idx, *width, &m1));
                }
                Some(v)
            }
            None => {
                if !is_num {
                    let (lb, ub) = as_numbytes_range(idx, width, self.total_stack_size());
                    if 0 <= lb && lb < ub {
                        self.num_bytes.havoc(lb as usize, ub - lb);
                    }
                }
                assert(self.num_bytes@ =~= bits_after_type(old(self).bits(), *idx, *width, is_num));
                None
            }
        }
    }

    /// Clears a range of types. The bytes of a known range may then be anything.
    pub fn havoc_type(&mut self, inv: &mut TypeDomain, idx: &Interval, elem_size: &Interval, registry: &mut VariableRegistry)
        requires old(self).wf(), old(inv).wf(), old(registry)@.wf(),
        ensures
            final(self).wf(),
            final(inv).wf(),
            final(registry)@.wf(),
            final(registry)@.extends(old(registry)@),
            final(self).map().total() == old(self).map().total(),
            final(self).bits() == (match target(*idx, *elem_size) {
                Some(t) => bitset_domain::filled(old(self).bits(), t.offset as int, t.offset + bitset_domain::clipped(t.offset as int, number::wrap_signed(t.size as int, 32), old(self).bits().len() as int), true),
                None => old(self).bits(),
            }),
            exists|cells: Seq<Cell>| #[trigger] lists_struck(cells, &old(self).map(), DataKind::Types, *idx, *elem_size)
                && types_killed(old(inv), final(registry)@, cells, final(inv)),
            without_struck(&old(self).map(), DataKind::Types, *idx, *elem_size, &final(self).map()),
    {
        let ghost m0 = self.map();
        let ghost inv0 = *inv;
        let found = kill_and_find_type_var(inv, idx, elem_size, registry, &mut self.cells);
        let ghost cells = choose|cells: Seq<Cell>| #[trigger] lists_struck(cells, &m0, DataKind::Types, *idx, *elem_size) && types_killed(&inv0, registry@, cells, inv);
        assert(lists_struck(cells, &old(self).map(), DataKind::Types, *idx, *elem_size) && types_killed(old(inv), registry@, cells, inv));
        if let Some((offset, size)) = found {
            self.num_bytes.havoc(position_of(offset), width_of(size));
            proof {
                let t = Cell { offset, size };
                assert(self.num_bytes@ =~= bitset_domain::filled(old(self).bits(), t.offset as int, t.offset + bitset_domain::clipped(t.offset as int, number::wrap_signed(t.size as int, 32), old(self).bits().len() as int), true));
            }
        }
    }

    /// Marks a range of known place and width as numbers, where it lies within the stack.
    pub fn store_numbers(&mut self, idx: &Interval, width: &Interval)
        requires old(self).wf(),
        ensures
            final(self).wf(),
            final(self).map() == old(self).map(),
            final(self).bits() == numbers_stored(old(self).bits(), *idx, *width),
    {
        if self.is_bottom() {
            return;
        }
        let (n, w) = match (idx.singleton(), width.singleton()) {
            (Some(n), Some(w)) => (n, w),
            _ => { return; }
        };
        let start: i64 = match n.to_i64() { Some(k) => k, None => 0 };
        let count: i64 = match w.to_i64() { Some(k) => k, None => 0 };
        if start as i128 + count as i128 > self.num_bytes.len() as i128 {
            return;
        }
        if start >= 0 {
            proof { lemma_wrap32(count as int); }
            let narrow: i64 = Number::of(count as i128).cast_to_signed_width(32).narrow_to_i64();
            self.num_bytes.reset(position_of(start as u64), narrow as i32);
        }
        assert(self.num_bytes@ =~= numbers_stored(old(self).bits(), *idx, *width));
    }
}

/// The cells of both maps.
pub open spec fn merged(a: &ArrayMap, b: &ArrayMap, r: &ArrayMap) -> bool {
    r.total() == a.total() && forall|k: DataKind, c: Cell| #[trigger] r.has(k, c) <==> a.has(k, c) || b.has(k, c)
}

/// Every byte of a range is a number, and there is one.
pub open spec fn all_numbers(bits: Seq<bool>, range: Interval) -> bool {
    &&& first_byte(range) < last_byte(range, bits.len() as int)
    &&& forall|i: int| first_byte(range) <= i < last_byte(range, bits.len() as int) && 0 <= i < bits.len() ==> !(#[trigger] bits[i])
}

/// The number of numeric bytes in a row that there are from every offset of an interval on.
pub open spec fn least_numbers(bits: Seq<bool>, iv: Interval) -> int {
    match (iv.lb, iv.ub) {
        (ExtendedNumber::Finite(l), ExtendedNumber::Finite(u)) => if i32::MIN <= l@ && l@ <= i64::MAX && u@ <= i32::MAX && i64::MIN <= u@ {
            let run = if 0 <= l@ < bits.len() { bitset_domain::run_end(bits, l@) - l@ } else { 0 };
            let slack = run - (u@ - l@);
            if slack > i32::MAX { i32::MAX as int } else if slack > 0 { slack } else { 0 }
        } else {
            0
        },
        _ => 0,
    }
}

/// Some bytes from an offset on are numbers, as far as they lie on the stack.
pub open spec fn numeric_from(bits: Seq<bool>, from: int, n: int) -> bool {
    forall|k: int| from <= k < from + n && 0 <= k < bits.len() ==> !(#[trigger] bits[k])
}

/// The bytes that are counted from every offset of an interval on are numbers.
pub proof fn counted_bytes_are_numbers(bits: Seq<bool>, iv: Interval, x: int)
    requires iv.has(x),
    ensures numeric_from(bits, x, least_numbers(bits, iv)), least_numbers(bits, iv) >= 0,
{
    if let (ExtendedNumber::Finite(l), ExtendedNumber::Finite(u)) = (iv.lb, iv.ub) {
        assert(l@ <= x <= u@);
        if 0 <= l@ < bits.len() { bitset_domain::lemma_run_end(bits, l@); }
    }
}

/// The offset of an index that is known and fits a signed 64-bit integer.
pub open spec fn known_offset(i: Interval) -> Option<u64> {
    match i.singleton_spec() {
        Some(n) => if i64::MIN <= n@ <= i64::MAX { Some(low_bits(n, 64) as u64) } else { None },
        None => None,
    }
}

/// What a type is read from.
pub enum LoadedType {
    Number,
    Cell(Cell),
    Nothing,
}

/// Whether the bytes of a range within the stack are all numbers.
pub open spec fn run_of_numbers(bits: Seq<bool>, lb: int, width: int) -> bool {
    forall|i: int| lb <= i < lb + bitset_domain::clipped(lb, width, bits.len() as int) ==> !(#[trigger] bits[i])
}

/// What the type of a range is read from.
pub open spec fn loaded_type(bits: Seq<bool>, m: &ArrayMap, i: Interval, width: int) -> LoadedType {
    match i.singleton_spec() {
        Some(n) => match known_offset(i) {
            None => LoadedType::Nothing,
            Some(o) => {
                let c = Cell { offset: o, size: width as u32 };
                if run_of_numbers(bits, o as int, width) {
                    LoadedType::Number
                } else if width == 8
                    && (forall|i: int| o <= i < o + bitset_domain::clipped(o as int, width, bits.len() as int) ==> #[trigger] bits[i])
                    && (m.has(DataKind::Types, c) || is_free(m, DataKind::Types, c)) {
                    LoadedType::Cell(c)
                } else {
                    LoadedType::Nothing
                }
            },
        },
        None => match (i.lb, i.ub) {
            (ExtendedNumber::Finite(l), ExtendedNumber::Finite(u)) =>
                if 0 <= l@ <= u32::MAX && i64::MIN <= u@ <= i64::MAX && 0 <= u@ - l@ + width <= u32::MAX
                    && run_of_numbers(bits, l@, number::wrap_signed(u@ - l@ + width, 32)) {
                    LoadedType::Number
                } else {
                    LoadedType::Nothing
                },
            _ => LoadedType::Nothing,
        },
    }
}

/// The bytes after a type is stored.
pub open spec fn bits_after_type(bits: Seq<bool>, idx: Interval, width: Interval, is_num: bool) -> Seq<bool> {
    match target(idx, width) {
        Some(t) => bitset_domain::filled(bits, t.offset as int, t.offset + bitset_domain::clipped(t.offset as int, number::wrap_signed(t.size as int, 32), bits.len() as int), !is_num),
        None => {
            let lb = first_byte(touched(idx, width));
            let ub = last_byte(touched(idx, width), bits.len() as int);
            if !is_num && 0 <= lb && lb < ub { bitset_domain::filled(bits, lb, ub, true) } else { bits }
        },
    }
}

/// The bytes after numbers are stored.
pub open spec fn numbers_stored(bits: Seq<bool>, idx: Interval, width: Interval) -> Seq<bool> {
    match (idx.singleton_spec(), width.singleton_spec()) {
        (Some(n), Some(w)) => {
            let start = if i64::MIN <= n@ <= i64::MAX { n@ } else { 0 };
            let count = if i64::MIN <= w@ <= i64::MAX { w@ } else { 0 };
            if 0 <= start && start + count <= bits.len() {
                bitset_domain::filled(bits, start, start + bitset_domain::clipped(start, number::wrap_signed(count, 32), bits.len() as int), false)
            } else {
                bits
            }
        },
        _ => bits,
    }
}

/// What a store does: the range is cleared, and where it is known, its cell is made and its
/// variable returned.
pub open spec fn stored(bits: Seq<bool>, a: Num, m: &ArrayMap, older: RegistryView, newer: RegistryView, kind: DataKind, idx: Interval, width: Interval, big_endian: bool, b: Num, n: &ArrayMap, r: Option<Variable>) -> bool {
    match target(idx, width) {
        Some(t) => r is Some && rcp::is_named(newer, r->Some_0, t.name(kind))
            && exists|m1: ArrayMap| #[trigger] cleared(bits, a, m, older, newer, kind, idx, width, big_endian, b, &m1) && with_cell(&m1, kind, t, n),
        None => r is None && cleared(bits, a, m, older, newer, kind, idx, width, big_endian, b, n),
    }
}

/// After a store at a known place, the cell of the place is there and no other overlaps it, so
/// that reading the place gives the variable that the store returned.
pub proof fn store_then_load(bits: Seq<bool>, a: Num, m: &ArrayMap, older: RegistryView, newer: RegistryView, kind: DataKind, idx: Interval, width: Interval, big_endian: bool, b: Num, n: &ArrayMap, r: Option<Variable>,
    later: Num, registry: RegistryView, e: Option<LinearExpression>)
    requires
        stored(bits, a, m, older, newer, kind, idx, width, big_endian, b, n, r),
        target(idx, width) matches Some(t) && t.offset < stack_bytes(n.total()),
        newer.wf(),
        registry.wf(),
        registry.extends(newer),
        loads_as(later, registry, n, kind, target(idx, width)->Some_0, big_endian, e),
    ensures
        n.has(kind, target(idx, width)->Some_0),
        is_free(n, kind, target(idx, width)->Some_0),
        e is Some && zone_domain::is_variable(&e->Some_0, r->Some_0.id),
{
    let t = target(idx, width)->Some_0;
    let m1 = choose|m1: ArrayMap| #[trigger] cleared(bits, a, m, older, newer, kind, idx, width, big_endian, b, &m1) && with_cell(&m1, kind, t, n);
    cleared_range_is_free(bits, a, m, older, newer, kind, idx, width, big_endian, b, &m1);
    assert(n.has(kind, t));
    assert forall|d: Cell| #[trigger] n.has(kind, d) implies !overlaps(d, t.offset, t.size) by {
        if d != t { assert(m1.has(kind, d)); }
    }
    let v = choose|v: Variable| #[trigger] rcp::is_named(registry, v, t.name(kind)) && e is Some && zone_domain::is_variable(&e->Some_0, v.id);
    let w = r->Some_0;
    lemma_named_later(newer, registry, w, t.name(kind));
    registry.var_is_unique(t.name(kind), v.id as int);
    registry.var_is_unique(t.name(kind), w.id as int);
}

proof fn lemma_cleared_later(bits: Seq<bool>, a: Num, m: &ArrayMap, older: RegistryView, newer: RegistryView, later: RegistryView, kind: DataKind, idx: Interval, width: Interval, big_endian: bool, b: Num, n: &ArrayMap)
    requires cleared(bits, a, m, older, newer, kind, idx, width, big_endian, b, n), later.extends(newer),
    ensures cleared(bits, a, m, older, later, kind, idx, width, big_endian, b, n),
{
    let (mid, mm, r) = choose|mid: Num, mm: ArrayMap, r: RegistryView| #[trigger] split_first(bits, a, m, older, r, kind, idx, width, big_endian, mid, &mm)
        && r.extends(older) && newer.extends(r)
        && #[trigger] struck_removed(mid, &mm, r, newer, kind, idx, width, b, n);
    later.extending_is_transitive(newer, r);
    let cells = choose|cells: Seq<Cell>| #[trigger] lists_struck(cells, &mm, kind, idx, width) && killed(mid, r, newer, kind, cells, b);
    let vars = choose|vars: Seq<Variable>| #[trigger] rcp::named_all(newer, vars, kill_names(kind, cells))
        && numeric_steps::performs(mid, r, newer, rcp::forget_steps(rcp::ids_of(vars)), b);
    lemma_names_later(newer, later, vars, kill_names(kind, cells));
    numeric_steps::performs_later(mid, r, newer, later, rcp::forget_steps(rcp::ids_of(vars)), b);
    assert(killed(mid, r, later, kind, cells, b));
    assert(struck_removed(mid, &mm, r, later, kind, idx, width, b, n));
}

proof fn lemma_names_later(r: RegistryView, later: RegistryView, vars: Seq<Variable>, names: Seq<Seq<char>>)
    requires later.extends(r), rcp::named_all(r, vars, names),
    ensures rcp::named_all(later, vars, names),
{
    assert forall|i: int| 0 <= i < vars.len() implies rcp::is_named(later, #[trigger] vars[i], names[i]) by { assert(rcp::is_named(r, vars[i], names[i])); }
}

proof fn lemma_types_killed_later(a: &TypeDomain, r: RegistryView, later: RegistryView, cells: Seq<Cell>, b: &TypeDomain)
    requires types_killed(a, r, cells, b), later.extends(r),
    ensures types_killed(a, later, cells, b),
{
    if a.state is Some {
        let vars = choose|vars: Seq<Variable>| #[trigger] rcp::named_all(r, vars, kill_names(DataKind::Types, cells)) && types_dropped(a.s(), vars, b.s());
        lemma_names_later(r, later, vars, kill_names(DataKind::Types, cells));
    }
}

proof fn lemma_assignment(a: Num, r: RegistryView, v: u64, e: Option<LinearExpression>, b: Num)
    requires
        a is Some <==> b is Some,
        a is Some ==> match e {
            Some(expr) => crate::zone_model::assigned(a->Some_0, v, &expr, zone_domain::min_only_of(r), b->Some_0),
            None => b->Some_0 == crate::zone_model::zwithout(a->Some_0, crate::zone_model::node(v)),
        },
    ensures numeric_steps::step(a, r, assignment(v, e), b),
{
    match e {
        Some(expr) => { numeric_steps::step_assign(a, r, v, expr, b); }
        None => { numeric_steps::step_forget(a, r, v, b); }
    }
}

proof fn lemma_other_kind(n: Num, r: RegistryView, m0: &ArrayMap, m1: &ArrayMap, kind: DataKind, c: Cell, big_endian: bool, e: Option<LinearExpression>)
    requires
        loads_as(n, r, m1, kind, c, big_endian, e),
        forall|d: Cell| #[trigger] m1.has(kind, d) <==> m0.has(kind, d),
    ensures
        loads_as(n, r, m0, kind, c, big_endian, e),
        makes_cell(n, r, m1, kind, c, big_endian) == makes_cell(n, r, m0, kind, c, big_endian),
{
    assert(is_free(m1, kind, c) == is_free(m0, kind, c)) by {
        if is_free(m1, kind, c) {
            assert forall|d: Cell| #[trigger] m0.has(kind, d) implies !overlaps(d, c.offset, c.size) by { assert(m1.has(kind, d)); }
        }
        if is_free(m0, kind, c) {
            assert forall|d: Cell| #[trigger] m1.has(kind, d) implies !overlaps(d, c.offset, c.size) by { assert(m0.has(kind, d)); }
        }
    }
    assert(m1.has(kind, c) <==> m0.has(kind, c));
}

proof fn lemma_performs_earlier(a: Num, older: RegistryView, r: RegistryView, newer: RegistryView, ops: Seq<Step>, b: Num)
    requires r.extends(older), numeric_steps::performs(a, r, newer, ops, b),
    ensures numeric_steps::performs(a, older, newer, ops, b),
{
    let path = choose|path: Seq<Num>| path.len() == ops.len() + 1 && path[0] == a && path[ops.len() as int] == b && #[trigger] numeric_steps::is_path(path, r, newer, ops);
    assert forall|i: int| 0 <= i < ops.len() implies #[trigger] numeric_steps::step_between(path[i], older, newer, ops[i], path[i + 1]) by {
        assert(numeric_steps::step_between(path[i], r, newer, ops[i], path[i + 1]));
        let q = choose|q: RegistryView| q.extends(r) && newer.extends(q) && #[trigger] numeric_steps::step(path[i], q, ops[i], path[i + 1]);
        q.extending_is_transitive(r, older);
    }
    assert(numeric_steps::is_path(path, older, newer, ops));
}

proof fn lemma_part_earlier(a: Num, m: &ArrayMap, older: RegistryView, r: RegistryView, newer: RegistryView, kind: DataKind, c: Cell, big_endian: bool, b: Num, n: &ArrayMap)
    requires r.extends(older), part_split(a, m, r, newer, kind, c, big_endian, b, n),
    ensures part_split(a, m, older, newer, kind, c, big_endian, b, n),
{
    let (es, eu) = choose|es: Option<LinearExpression>, eu: Option<LinearExpression>|
        loads_as(a, newer, m, DataKind::Svalues, c, big_endian, es)
        && loads_as(a, newer, m, DataKind::Uvalues, c, big_endian, eu)
        && #[trigger] part_assigned(a, r, newer, c, es, eu, b);
    let (sv, uv) = choose|sv: Variable, uv: Variable| #[trigger] rcp::is_named(newer, sv, c.name(DataKind::Svalues)) && #[trigger] rcp::is_named(newer, uv, c.name(DataKind::Uvalues))
        && numeric_steps::performs(a, r, newer, seq![assignment(sv.id, es), assignment(uv.id, eu)], b);
    lemma_performs_earlier(a, older, r, newer, seq![assignment(sv.id, es), assignment(uv.id, eu)], b);
    assert(part_assigned(a, older, newer, c, es, eu, b));
}

proof fn lemma_cell_split_earlier(bits: Seq<bool>, a: Num, m: &ArrayMap, older: RegistryView, r: RegistryView, newer: RegistryView, kind: DataKind, c: Cell, t: Cell, big_endian: bool, b: Num, n: &ArrayMap)
    requires r.extends(older), cell_split(bits, a, m, r, newer, kind, c, t, big_endian, b, n),
    ensures cell_split(bits, a, m, older, newer, kind, c, t, big_endian, b, n),
{
    if is_wide_number(bits, c) && byte_read::interval_in(a, newer.var(c.name(kind)).id).singleton_spec() is Some {
        let (mid, mm) = choose|mid: Num, mm: ArrayMap| #[trigger] left_split(a, m, r, newer, kind, c, t, big_endian, mid, &mm)
            && right_split(mid, &mm, r, newer, kind, c, t, big_endian, b, n);
        if c.offset < t.offset { lemma_part_earlier(a, m, older, r, newer, kind, left_part(c, t), big_endian, mid, &mm); }
        if t.offset + t.size < c.offset + c.size { lemma_part_earlier(mid, &mm, older, r, newer, kind, right_part(c, t), big_endian, b, n); }
        assert(left_split(a, m, older, newer, kind, c, t, big_endian, mid, &mm));
        assert(right_split(mid, &mm, older, newer, kind, c, t, big_endian, b, n));
    }
}

}
