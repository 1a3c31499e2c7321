//! Nodes bucketed by map cell, so that a range check looks at nearby nodes
//! only. Which cell a place lies in, and how wide a window a range spans, is
//! geometry; the buckets and the window walk are here.
use std::collections::HashMap;

use vstd::prelude::*;

verus! {

broadcast use vstd::std_specs::hash::group_hash_axioms;

/// A cell, by column and row.
#[derive(Debug, Clone, Copy, PartialEq, Eq, Structural)]
pub struct Cell {
    pub x: i64,
    pub y: i64,
}

/// A block of cells: the columns one by one, since they may wrap around, and a
/// run of rows.
#[derive(Debug)]
pub struct Window {
    pub columns: Vec<i64>,
    pub first_row: i64,
    pub last_row: i64,
}

/// How many rows a run holds.
pub open spec fn height(first_row: i64, last_row: i64) -> nat {
    if first_row <= last_row {
        (last_row - first_row + 1) as nat
    } else {
        0
    }
}

spec fn slot_of(c: Cell) -> u128 {
    ((c.x + 0x8000_0000_0000_0000) * 0x1_0000_0000_0000_0000 + (c.y
        + 0x8000_0000_0000_0000)) as u128
}

proof fn lemma_slots_differ()
    ensures
        forall|c: Cell, d: Cell|
            #![trigger slot_of(c), slot_of(d)]
            slot_of(c) == slot_of(d) ==> c == d,
{
    assert forall|c: Cell, d: Cell|
        #![trigger slot_of(c), slot_of(d)]
        slot_of(c) == slot_of(d) implies c == d by {
        let cx = c.x + 0x8000_0000_0000_0000;
        let cy = c.y + 0x8000_0000_0000_0000;
        let dx = d.x + 0x8000_0000_0000_0000;
        let dy = d.y + 0x8000_0000_0000_0000;
        assert(cx * 0x1_0000_0000_0000_0000 + cy == dx * 0x1_0000_0000_0000_0000 + dy);
        assert(cx == dx);
    }
}

impl Cell {
    fn slot(self) -> (r: u128)
        ensures
            r == slot_of(self),
    {
        let x: u128 = (self.x as i128 + 0x8000_0000_0000_0000) as u128;
        let y: u128 = (self.y as i128 + 0x8000_0000_0000_0000) as u128;
        x * 0x1_0000_0000_0000_0000 + y
    }
}

/// Node indices by cell.
pub struct SpatialGrid {
    cells: HashMap<u128, Vec<usize>>,
}

fn slots_of(cells: &HashMap<u128, Vec<usize>>) -> (r: Vec<u128>)
    ensures
        r@.to_set() == cells@.dom(),
        r@.no_duplicates(),
{
    let mut r: Vec<u128> = Vec::new();
    for id in it: cells.keys()
        invariant
            it.seq().unref().to_set() == cells@.dom(),
            it.seq().no_duplicates(),
            r@ =~= it.seq().unref().take(it.index() as int),
            it.index() == it.seq().len() ==> r@.to_set() == cells@.dom(),
    {
        r.push(*id);
        assert(it.index() + 1 == it.seq().len() ==> r@ =~= it.seq().unref());
    }
    r
}

impl SpatialGrid {
    /// What a cell holds, in the order it was put there.
    pub closed spec fn bucket(self, c: Cell) -> Seq<usize> {
        if self.cells@.contains_key(slot_of(c)) {
            self.cells@[slot_of(c)]@
        } else {
            Seq::empty()
        }
    }

    /// What the first `k` rows of a column hold, row by row.
    pub open spec fn column(self, x: i64, first_row: int, k: nat) -> Seq<usize>
        decreases k,
    {
        if k == 0 {
            Seq::empty()
        } else {
            self.column(x, first_row, (k - 1) as nat) + self.bucket(
                Cell { x, y: (first_row + k - 1) as i64 },
            )
        }
    }

    /// What the first `k` columns of a window hold, column by column.
    pub open spec fn block(
        self,
        columns: Seq<i64>,
        first_row: i64,
        last_row: i64,
        k: nat,
    ) -> Seq<usize>
        decreases k,
    {
        if k == 0 {
            Seq::empty()
        } else {
            self.block(columns, first_row, last_row, (k - 1) as nat) + self.column(
                columns[k - 1],
                first_row as int,
                height(first_row, last_row),
            )
        }
    }

    /// An empty grid.
    pub fn new() -> (r: SpatialGrid)
        ensures
            forall|c: Cell| #[trigger] r.bucket(c) == Seq::<usize>::empty(),
    {
        SpatialGrid { cells: HashMap::new() }
    }

    /// Empties every cell.
    pub fn clear(&mut self)
        ensures
            forall|c: Cell| #[trigger] final(self).bucket(c) == Seq::<usize>::empty(),
    {
        self.cells.clear();
    }

    /// Empties every cell, and keeps the buckets for the next filling.
    pub fn soft_clear(&mut self)
        ensures
            forall|c: Cell| #[trigger] final(self).bucket(c) == Seq::<usize>::empty(),
    {
        let slots: Vec<u128> = slots_of(&self.cells);
        let ghost before = self.cells@;
        let mut k: usize = 0;
        while k < slots.len()
            invariant
                k <= slots@.len(),
                self.cells@.dom() == before.dom(),
                slots@.to_set() == before.dom(),
                forall|j: int| 0 <= j < k ==> self.cells@[#[trigger] slots@[j]]@.len() == 0,
            decreases slots@.len() - k,
        {
            let s: u128 = slots[k];
            assert(slots@.to_set().contains(slots@[k as int]));
            let ghost here = self.cells@;
            if let Some(mut bucket) = self.cells.remove(&s) {
                bucket.clear();
                self.cells.insert(s, bucket);
            }
            assert(self.cells@.dom() =~= before.dom());
            k += 1;
        }
        assert forall|c: Cell| #[trigger] self.bucket(c) == Seq::<usize>::empty() by {
            if self.cells@.contains_key(slot_of(c)) {
                assert(slots@.to_set().contains(slot_of(c)));
                let j = choose|j: int| 0 <= j < slots@.len() && slots@[j] == slot_of(c);
                assert(self.cells@[slots@[j]]@.len() == 0);
                assert(self.cells@[slot_of(c)]@ =~= Seq::<usize>::empty());
            }
        }
    }

    /// Puts a node into a cell.
    pub fn insert(&mut self, index: usize, cell: Cell)
        ensures
            forall|c: Cell| #[trigger]
                final(self).bucket(c) == (if c == cell {
                    old(self).bucket(c).push(index)
                } else {
                    old(self).bucket(c)
                }),
    {
        let s: u128 = cell.slot();
        let ghost before = *self;
        let mut bucket: Vec<usize> = match self.cells.remove(&s) {
            Some(b) => b,
            None => Vec::new(),
        };
        assert(bucket@ =~= before.bucket(cell));
        bucket.push(index);
        self.cells.insert(s, bucket);
        assert forall|c: Cell| #[trigger] self.bucket(c) == (if c == cell {
            before.bucket(c).push(index)
        } else {
            before.bucket(c)
        }) by {
            lemma_slots_differ();
            assert(slot_of(c) == slot_of(cell) ==> c == cell);
        }
    }

    /// Everyone in a window, column by column and row by row. A caller still
    /// needs its own range check afterwards.
    pub fn neighbors(&self, window: &Window) -> (r: Vec<usize>)
        ensures
            r@ == self.block(
                window.columns@,
                window.first_row,
                window.last_row,
                window.columns@.len(),
            ),
    {
        let mut r: Vec<usize> = Vec::new();
        let mut i: usize = 0;
        while i < window.columns.len()
            invariant
                i <= window.columns@.len(),
                r@ == self.block(window.columns@, window.first_row, window.last_row, i as nat),
            decreases window.columns@.len() - i,
        {
            let x: i64 = window.columns[i];
            let ghost start = r@;
            if window.first_row <= window.last_row {
                let mut y: i64 = window.first_row;
                let ghost rows: nat = 0;
                self.copy_bucket(Cell { x, y }, &mut r);
                assert(self.column(x, window.first_row as int, 0) =~= Seq::<usize>::empty());
                assert(r@ =~= start + self.column(x, window.first_row as int, 1));
                while y < window.last_row
                    invariant
                        window.first_row <= y <= window.last_row,
                        r@ == start + self.column(
                            x,
                            window.first_row as int,
                            (y - window.first_row + 1) as nat,
                        ),
                    decreases window.last_row - y,
                {
                    y += 1;
                    let ghost here = r@;
                    self.copy_bucket(Cell { x, y }, &mut r);
                    assert(r@ =~= start + self.column(
                        x,
                        window.first_row as int,
                        (y - window.first_row + 1) as nat,
                    ));
                }
            } else {
                assert(r@ =~= start + self.column(x, window.first_row as int, 0));
            }
            i += 1;
        }
        r
    }

    fn copy_bucket(&self, c: Cell, out: &mut Vec<usize>)
        ensures
            final(out)@ == old(out)@ + self.bucket(c),
    {
        let ghost before = out@;
        match self.cells.get(&c.slot()) {
            Some(bucket) => {
                out.extend_from_slice(bucket.as_slice());
                assert(out@ =~= before + bucket@);
            },
            None => {
                assert(out@ =~= before + self.bucket(c));
            },
        }
    }
}

proof fn lemma_column_members(g: SpatialGrid, x: i64, first_row: int, k: nat, index: usize)
    requires
        i64::MIN <= first_row,
        first_row + k <= i64::MAX + 1,
    ensures
        g.column(x, first_row, k).contains(index) <==> exists|y: i64|
            first_row <= y < first_row + k && (#[trigger] g.bucket(Cell { x, y })).contains(index),
    decreases k,
{
    if k > 0 {
        lemma_column_members(g, x, first_row, (k - 1) as nat, index);
        let top = (first_row + k - 1) as i64;
        let before = g.column(x, first_row, (k - 1) as nat);
        let last = g.bucket(Cell { x, y: top });
        lemma_joined_contains(before, last, index);
        if g.column(x, first_row, k).contains(index) {
            if last.contains(index) {
                assert(g.bucket(Cell { x, y: top }).contains(index));
            } else {
                let y = choose|y: i64|
                    first_row <= y < first_row + k - 1 && (#[trigger] g.bucket(
                        Cell { x, y },
                    )).contains(index);
                assert(g.bucket(Cell { x, y }).contains(index));
            }
        }
    }
}

proof fn lemma_joined_contains(a: Seq<usize>, b: Seq<usize>, x: usize)
    ensures
        (a + b).contains(x) <==> a.contains(x) || b.contains(x),
{
    if a.contains(x) {
        let i = a.index_of(x);
        assert((a + b)[i] == x);
    }
    if b.contains(x) {
        let i = b.index_of(x);
        assert((a + b)[a.len() + i] == x);
    }
    if (a + b).contains(x) {
        let i = (a + b).index_of(x);
        if i < a.len() {
            assert(a[i] == x);
        } else {
            assert(b[i - a.len()] == x);
        }
    }
}

/// A window shows exactly the nodes in its cells.
pub proof fn a_window_shows_its_cells(
    g: SpatialGrid,
    columns: Seq<i64>,
    first_row: i64,
    last_row: i64,
    k: nat,
    index: usize,
)
    requires
        k <= columns.len(),
    ensures
        g.block(columns, first_row, last_row, k).contains(index) <==> exists|c: Cell|
            columns.take(k as int).contains(c.x) && first_row <= c.y <= last_row
                && (#[trigger] g.bucket(c)).contains(index),
    decreases k,
{
    if k > 0 {
        a_window_shows_its_cells(g, columns, first_row, last_row, (k - 1) as nat, index);
        let rows = height(first_row, last_row);
        let x = columns[k - 1];
        let before = g.block(columns, first_row, last_row, (k - 1) as nat);
        let last = g.column(x, first_row as int, rows);
        lemma_column_members(g, x, first_row as int, rows, index);
        lemma_joined_contains(before, last, index);
        let now = columns.take(k as int);
        let earlier = columns.take(k - 1);
        assert(now[k - 1] == x);
        assert forall|v: i64| now.contains(v) <==> earlier.contains(v) || v == x by {
            if earlier.contains(v) {
                let i = earlier.index_of(v);
                assert(now[i] == v);
            }
            if now.contains(v) {
                let i = now.index_of(v);
                if i < k - 1 {
                    assert(earlier[i] == v);
                }
            }
        }
        if g.block(columns, first_row, last_row, k).contains(index) {
            if last.contains(index) {
                let y = choose|y: i64|
                    first_row <= y < first_row + rows && (#[trigger] g.bucket(
                        Cell { x, y },
                    )).contains(index);
                let c = Cell { x, y };
                assert(now.contains(c.x) && g.bucket(c).contains(index));
            } else {
                let c = choose|c: Cell|
                    earlier.contains(c.x) && first_row <= c.y <= last_row
                        && (#[trigger] g.bucket(c)).contains(index);
                assert(now.contains(c.x) && g.bucket(c).contains(index));
            }
        }
        if exists|c: Cell|
            now.contains(c.x) && first_row <= c.y <= last_row && (#[trigger] g.bucket(c)).contains(
                index,
            ) {
            let c = choose|c: Cell|
                now.contains(c.x) && first_row <= c.y <= last_row
                    && (#[trigger] g.bucket(c)).contains(index);
            if c.x == x {
                assert(g.bucket(Cell { x, y: c.y }).contains(index));
            } else {
                assert(earlier.contains(c.x));
            }
        }
    }
}

} // verus!
