//! Board coordinates and the orders in which a board's groups are walked.
//!
//! Every walker is a small state machine whose view is the sequence of slots
//! it has yet to yield; `next` pops the head of that sequence.

use vstd::prelude::*;

verus! {

/// A board coordinate: `(row, column)`, both counted from zero.
pub type Slot = (usize, usize);

/// Line `i` of the square area of edge `edge` whose top-left corner is `begin`.
pub open spec fn area_row(begin: Slot, edge: usize, i: usize) -> Seq<Slot> {
    Seq::new(edge as nat, |j: int| ((begin.0 + i) as usize, (begin.1 + j) as usize))
}

/// Lines `i..edge` of the square area at `begin`, line by line.
pub open spec fn area_rows(begin: Slot, edge: usize, i: usize) -> Seq<Slot>
    decreases edge - i,
{
    if i >= edge {
        Seq::empty()
    } else {
        area_row(begin, edge, i) + area_rows(begin, edge, (i + 1) as usize)
    }
}

/// What is left of the area at `begin` when the walk stands at line `i`, cell `j`.
pub open spec fn area_rest(begin: Slot, edge: usize, i: usize, j: usize) -> Seq<Slot> {
    if i < edge {
        (if j < edge {
            area_row(begin, edge, i).skip(j as int)
        } else {
            Seq::empty()
        }) + area_rows(begin, edge, (i + 1) as usize)
    } else {
        Seq::empty()
    }
}

/// All slots of a board of edge `size`, row by row.
pub open spec fn slots_of_board(size: usize) -> Seq<Slot> {
    area_rows((0, 0), size, 0)
}

/// The slots of row `row`, left to right.
pub open spec fn slots_of_row(size: usize, row: usize) -> Seq<Slot> {
    Seq::new(size as nat, |j: int| (row, j as usize))
}

/// The slots of column `column`, top to bottom.
pub open spec fn slots_of_column(size: usize, column: usize) -> Seq<Slot> {
    Seq::new(size as nat, |i: int| (i as usize, column))
}

/// The corner of the block that holds `slot`.
pub open spec fn block_begin(block_size: usize, slot: Slot) -> Slot {
    ((slot.0 - slot.0 % block_size) as usize, (slot.1 - slot.1 % block_size) as usize)
}

/// The slots of the block that holds `slot`, row by row.
pub open spec fn slots_of_block(block_size: usize, slot: Slot) -> Seq<Slot> {
    area_rows(block_begin(block_size, slot), block_size, 0)
}

/// The main diagonal from position `i` on.
pub open spec fn major_rest(size: usize, i: usize) -> Seq<Slot> {
    if i < size {
        Seq::new((size - i) as nat, |k: int| ((i + k) as usize, (i + k) as usize))
    } else {
        Seq::empty()
    }
}

/// The anti-diagonal from row `i` on; with `skip_centre` the slot that also
/// lies on the main diagonal is left out.
pub open spec fn minor_rest(size: usize, i: usize, skip_centre: bool) -> Seq<Slot>
    decreases size - i,
{
    if i >= size {
        Seq::empty()
    } else if skip_centre && i == size - 1 - i {
        minor_rest(size, (i + 1) as usize, skip_centre)
    } else {
        seq![(i, (size - 1 - i) as usize)] + minor_rest(size, (i + 1) as usize, skip_centre)
    }
}

/// The slots of the diagonals on which `slot` lies: the main diagonal first,
/// then the anti-diagonal, no slot twice.
pub open spec fn slots_of_diagonals(size: usize, slot: Slot) -> Seq<Slot> {
    let on_major = slot.0 == slot.1;
    let on_minor = slot.0 == size - slot.1 - 1;
    if on_major && on_minor {
        major_rest(size, 0) + minor_rest(size, 0, true)
    } else if on_major {
        major_rest(size, 0)
    } else if on_minor {
        minor_rest(size, 0, false)
    } else {
        Seq::empty()
    }
}

/// One step of a walk over an area: the head of what is left is the slot at
/// the walk's position, and the tail is what is left one cell further.
pub proof fn lemma_area_rest_step(begin: Slot, edge: usize, i: usize, j: usize)
    requires
        i < edge,
        j < edge,
    ensures
        area_rest(begin, edge, i, j).len() > 0,
        area_rest(begin, edge, i, j)[0] == ((begin.0 + i) as usize, (begin.1 + j) as usize),
        area_rest(begin, edge, i, j).skip(1) == area_rest(begin, edge, i, (j + 1) as usize),
{
    let row = area_row(begin, edge, i);
    let below = area_rows(begin, edge, (i + 1) as usize);
    assert(area_rest(begin, edge, i, j).skip(1) =~= area_rest(
        begin,
        edge,
        i,
        (j + 1) as usize,
    ));
}

/// A walk that stands behind the last cell of a line has the lines below left.
pub proof fn lemma_area_rest_wrap(begin: Slot, edge: usize, i: usize, j: usize)
    requires
        i < edge,
        j >= edge,
    ensures
        area_rest(begin, edge, i, j) == area_rest(begin, edge, (i + 1) as usize, 0),
{
    let next: usize = (i + 1) as usize;
    if next < edge {
        assert(area_row(begin, edge, next).skip(0) =~= area_row(begin, edge, next));
        assert(area_rows(begin, edge, next) == area_row(begin, edge, next) + area_rows(
            begin,
            edge,
            (next + 1) as usize,
        ));
    }
    assert(area_rest(begin, edge, i, j) =~= area_rest(begin, edge, next, 0));
}

/// Which slots an area holds.
pub proof fn lemma_area_rows_contains(begin: Slot, edge: usize, i: usize, s: Slot)
    requires
        begin.0 + edge <= usize::MAX,
        begin.1 + edge <= usize::MAX,
    ensures
        area_rows(begin, edge, i).contains(s) <==> (begin.0 + i <= s.0 < begin.0 + edge && begin.1
            <= s.1 < begin.1 + edge),
    decreases edge - i,
{
    if i < edge {
        let row = area_row(begin, edge, i);
        let below = area_rows(begin, edge, (i + 1) as usize);
        lemma_area_rows_contains(begin, edge, (i + 1) as usize, s);
        if s.0 == begin.0 + i && begin.1 <= s.1 < begin.1 + edge {
            assert(row[s.1 - begin.1] == s);
            assert((row + below)[s.1 - begin.1] == s);
        }
        if row.contains(s) {
            let k = choose|k: int| 0 <= k < row.len() && row[k] == s;
            assert(s.0 == begin.0 + i);
        }
        if below.contains(s) {
            let k = choose|k: int| 0 <= k < below.len() && below[k] == s;
            assert((row + below)[row.len() + k] == s);
        }
        if (row + below).contains(s) {
            let k = choose|k: int| 0 <= k < (row + below).len() && (row + below)[k] == s;
            if k < row.len() {
                assert(row[k] == s);
            } else {
                assert(below[k - row.len()] == s);
            }
        }
    }
}

/// No slot occurs twice in an area.
pub proof fn lemma_area_rows_no_duplicates(begin: Slot, edge: usize, i: usize)
    requires
        begin.0 + edge <= usize::MAX,
        begin.1 + edge <= usize::MAX,
    ensures
        area_rows(begin, edge, i).no_duplicates(),
    decreases edge - i,
{
    if i < edge {
        let row = area_row(begin, edge, i);
        let below = area_rows(begin, edge, (i + 1) as usize);
        lemma_area_rows_no_duplicates(begin, edge, (i + 1) as usize);
        assert forall|a: int, b: int| 0 <= a < row.len() && 0 <= b < below.len() implies row[a]
            != below[b] by {
            lemma_area_rows_contains(begin, edge, (i + 1) as usize, below[b]);
        }
        vstd::seq_lib::lemma_no_dup_in_concat(row, below);
    }
}

/// Walks all slots of a board, row by row.
pub struct SlotIterator {
    size: usize,
    i: usize,
    j: usize,
}

impl SlotIterator {
    /// The slots still to come, in the order in which they come.
    pub closed spec fn view(&self) -> Seq<Slot> {
        area_rest((0, 0), self.size, self.i, self.j)
    }

    pub(crate) fn new(size: usize) -> (r: Self)
        ensures
            r@ == slots_of_board(size),
    {
        let r = SlotIterator { size, i: 0, j: 0 };
        proof {
            if size > 0 {
                assert(area_row((0, 0), size, 0).skip(0) =~= area_row((0, 0), size, 0));
            }
            assert(r@ =~= slots_of_board(size));
        }
        r
    }

    /// Yields the next slot, or `None` when the board is walked through.
    pub fn next(&mut self) -> (r: Option<Slot>)
        ensures
            old(self)@.len() == 0 ==> r is None && final(self)@.len() == 0,
            old(self)@.len() > 0 ==> r == Some(old(self)@[0]) && final(self)@ == old(self)@.skip(1),
    {
        if self.i < self.size {
            if self.j < self.size {
                proof {
                    lemma_area_rest_step((0, 0), self.size, self.i, self.j);
                }
                let result = Some((self.i, self.j));
                self.j += 1;
                result
            } else {
                proof {
                    lemma_area_rest_wrap((0, 0), self.size, self.i, self.j);
                }
                self.j = 0;
                self.i += 1;
                if self.i < self.size {
                    proof {
                        lemma_area_rest_step((0, 0), self.size, self.i, self.j);
                    }
                    let result = Some((self.i, self.j));
                    self.j += 1;
                    result
                } else {
                    None
                }
            }
        } else {
            None
        }
    }

    /// Runs the walk to its end and returns the slots it yields.
    pub fn collect(self) -> (r: Vec<Slot>)
        ensures
            r@ == self@,
    {
        let mut it = self;
        let mut out: Vec<Slot> = Vec::new();
        loop
            invariant
                out@ + it@ == self@,
            ensures
                out@ == self@,
            decreases it@.len(),
        {
            match it.next() {
                Some(slot) => {
                    out.push(slot);
                },
                None => {
                    break ;
                },
            }
        }
        out
    }
}

/// Walks one row, left to right.
pub struct RowSlotIterator {
    size: usize,
    row: usize,
    j: usize,
}

impl RowSlotIterator {
    /// The slots still to come, in the order in which they come.
    pub closed spec fn view(&self) -> Seq<Slot> {
        if self.j < self.size {
            slots_of_row(self.size, self.row).skip(self.j as int)
        } else {
            Seq::empty()
        }
    }

    pub(crate) fn new(size: usize, row: usize) -> (r: Self)
        ensures
            r@ == slots_of_row(size, row),
    {
        let r = RowSlotIterator { size, row, j: 0 };
        assert(r@ =~= slots_of_row(size, row));
        r
    }

    /// Yields the next slot of the row, or `None` behind its last one.
    pub fn next(&mut self) -> (r: Option<Slot>)
        ensures
            old(self)@.len() == 0 ==> r is None && final(self)@.len() == 0,
            old(self)@.len() > 0 ==> r == Some(old(self)@[0]) && final(self)@ == old(self)@.skip(1),
    {
        if self.j < self.size {
            let result = Some((self.row, self.j));
            self.j += 1;
            assert(self@ =~= old(self)@.skip(1));
            result
        } else {
            None
        }
    }

    /// Runs the walk to its end and returns the slots it yields.
    pub fn collect(self) -> (r: Vec<Slot>)
        ensures
            r@ == self@,
    {
        let mut it = self;
        let mut out: Vec<Slot> = Vec::new();
        loop
            invariant
                out@ + it@ == self@,
            ensures
                out@ == self@,
            decreases it@.len(),
        {
            match it.next() {
                Some(slot) => {
                    out.push(slot);
                },
                None => {
                    break ;
                },
            }
        }
        out
    }
}

/// Walks one column, top to bottom.
pub struct ColumnSlotIterator {
    size: usize,
    i: usize,
    column: usize,
}

impl ColumnSlotIterator {
    /// The slots still to come, in the order in which they come.
    pub closed spec fn view(&self) -> Seq<Slot> {
        if self.i < self.size {
            slots_of_column(self.size, self.column).skip(self.i as int)
        } else {
            Seq::empty()
        }
    }

    pub(crate) fn new(size: usize, column: usize) -> (r: Self)
        ensures
            r@ == slots_of_column(size, column),
    {
        let r = ColumnSlotIterator { size, i: 0, column };
        assert(r@ =~= slots_of_column(size, column));
        r
    }

    /// Yields the next slot of the column, or `None` below its last one.
    pub fn next(&mut self) -> (r: Option<Slot>)
        ensures
            old(self)@.len() == 0 ==> r is None && final(self)@.len() == 0,
            old(self)@.len() > 0 ==> r == Some(old(self)@[0]) && final(self)@ == old(self)@.skip(1),
    {
        if self.i < self.size {
            let result = Some((self.i, self.column));
            self.i += 1;
            assert(self@ =~= old(self)@.skip(1));
            result
        } else {
            None
        }
    }

    /// Runs the walk to its end and returns the slots it yields.
    pub fn collect(self) -> (r: Vec<Slot>)
        ensures
            r@ == self@,
    {
        let mut it = self;
        let mut out: Vec<Slot> = Vec::new();
        loop
            invariant
                out@ + it@ == self@,
            ensures
                out@ == self@,
            decreases it@.len(),
        {
            match it.next() {
                Some(slot) => {
                    out.push(slot);
                },
                None => {
                    break ;
                },
            }
        }
        out
    }
}

/// Walks one block, row by row.
pub struct BlockSlotIterator {
    block_size: usize,
    begin: Slot,
    i: usize,
    j: usize,
}

impl BlockSlotIterator {
    /// The block lies within the range of coordinates.
    #[verifier::type_invariant]
    spec fn fits(&self) -> bool {
        self.begin.0 + self.block_size <= usize::MAX && self.begin.1 + self.block_size
            <= usize::MAX
    }

    /// The slots still to come, in the order in which they come.
    pub closed spec fn view(&self) -> Seq<Slot> {
        area_rest(self.begin, self.block_size, self.i, self.j)
    }

    pub(crate) fn new(block_size: usize, begin: Slot) -> (r: Self)
        requires
            begin.0 + block_size <= usize::MAX,
            begin.1 + block_size <= usize::MAX,
        ensures
            r@ == area_rows(begin, block_size, 0),
    {
        let r = BlockSlotIterator { block_size, begin, i: 0, j: 0 };
        proof {
            if block_size > 0 {
                assert(area_row(begin, block_size, 0).skip(0) =~= area_row(begin, block_size, 0));
            }
            assert(r@ =~= area_rows(begin, block_size, 0));
        }
        r
    }

    /// Yields the next slot of the block, or `None` behind its last one.
    pub fn next(&mut self) -> (r: Option<Slot>)
        ensures
            old(self)@.len() == 0 ==> r is None && final(self)@.len() == 0,
            old(self)@.len() > 0 ==> r == Some(old(self)@[0]) && final(self)@ == old(self)@.skip(1),
    {
        proof {
            use_type_invariant(&*self);
        }
        if self.i < self.block_size {
            if self.j < self.block_size {
                proof {
                    lemma_area_rest_step(self.begin, self.block_size, self.i, self.j);
                }
                let result = Some((self.i + self.begin.0, self.j + self.begin.1));
                self.j += 1;
                result
            } else {
                proof {
                    lemma_area_rest_wrap(self.begin, self.block_size, self.i, self.j);
                }
                self.j = 0;
                self.i += 1;
                if self.i < self.block_size {
                    proof {
                        lemma_area_rest_step(self.begin, self.block_size, self.i, self.j);
                    }
                    let result = Some((self.i + self.begin.0, self.j + self.begin.1));
                    self.j += 1;
                    result
                } else {
                    None
                }
            }
        } else {
            None
        }
    }

    /// Runs the walk to its end and returns the slots it yields.
    pub fn collect(self) -> (r: Vec<Slot>)
        ensures
            r@ == self@,
    {
        let mut it = self;
        let mut out: Vec<Slot> = Vec::new();
        loop
            invariant
                out@ + it@ == self@,
            ensures
                out@ == self@,
            decreases it@.len(),
        {
            match it.next() {
                Some(slot) => {
                    out.push(slot);
                },
                None => {
                    break ;
                },
            }
        }
        out
    }
}

/// Walks the diagonals through a slot: both, the main one, the anti-diagonal,
/// or none where the slot lies on neither.
pub enum DiagonalSlotIterator {
    Both { size: usize, major: bool, i: usize },
    Major { size: usize, i: usize },
    Minor { size: usize, i: usize },
    Nothing,
}

impl DiagonalSlotIterator {
    /// The slots still to come, in the order in which they come.
    pub open spec fn view(&self) -> Seq<Slot> {
        match *self {
            DiagonalSlotIterator::Both { size, major, i } => {
                if major {
                    major_rest(size, i) + minor_rest(size, 0, true)
                } else {
                    minor_rest(size, i, true)
                }
            },
            DiagonalSlotIterator::Major { size, i } => major_rest(size, i),
            DiagonalSlotIterator::Minor { size, i } => minor_rest(size, i, false),
            DiagonalSlotIterator::Nothing => Seq::empty(),
        }
    }

    /// Yields the next slot of the walk, or `None` at its end.
    ///
    /// A walk over both diagonals yields the main diagonal first and then the
    /// anti-diagonal without the slot in which the two cross.
    pub fn next(&mut self) -> (r: Option<Slot>)
        ensures
            old(self)@.len() == 0 ==> r is None && final(self)@.len() == 0,
            old(self)@.len() > 0 ==> r == Some(old(self)@[0]) && final(self)@ == old(self)@.skip(1),
    {
        match self {
            Self::Both { size, major, i } => {
                if *major {
                    if *i < *size {
                        let result = Some((*i, *i));
                        *i += 1;
                        proof {
                            lemma_major_rest_step(*size, (*i - 1) as usize);
                            let rest = minor_rest(*size, 0, true);
                            assert((major_rest(*size, (*i - 1) as usize) + rest).skip(1)
                                =~= major_rest(*size, *i) + rest);
                        }
                        return result;
                    } else {
                        *major = false;
                        *i = 0;
                        assert(old(self)@ =~= minor_rest(*size, 0, true));
                    }
                }
                assert(old(self)@ == minor_rest(*size, *i, true));
                if *i < *size && *i == *size - 1 - *i {
                    *i += 1;
                }
                assert(old(self)@ == minor_rest(*size, *i, true));
                if *i < *size {
                    proof {
                        lemma_minor_rest_step(*size, *i, true);
                    }
                    let result = Some((*i, *size - *i - 1));
                    *i += 1;
                    result
                } else {
                    None
                }
            },
            Self::Major { size, i } => {
                if *i < *size {
                    let result = Some((*i, *i));
                    *i += 1;
                    proof {
                        lemma_major_rest_step(*size, (*i - 1) as usize);
                    }
                    result
                } else {
                    None
                }
            },
            Self::Minor { size, i } => {
                if *i < *size {
                    proof {
                        lemma_minor_rest_step(*size, *i, false);
                    }
                    let result = Some((*i, *size - *i - 1));
                    *i += 1;
                    result
                } else {
                    None
                }
            },
            Self::Nothing => None,
        }
    }

    /// Runs the walk to its end and returns the slots it yields.
    pub fn collect(self) -> (r: Vec<Slot>)
        ensures
            r@ == self@,
    {
        let mut it = self;
        let mut out: Vec<Slot> = Vec::new();
        loop
            invariant
                out@ + it@ == self@,
            ensures
                out@ == self@,
            decreases it@.len(),
        {
            match it.next() {
                Some(slot) => {
                    out.push(slot);
                },
                None => {
                    break ;
                },
            }
        }
        out
    }
}

/// The main diagonal from `i` on starts with `(i, i)` and goes on from `i + 1`.
pub proof fn lemma_major_rest_step(size: usize, i: usize)
    requires
        i < size,
    ensures
        major_rest(size, i).len() > 0,
        major_rest(size, i)[0] == (i, i),
        major_rest(size, i).skip(1) == major_rest(size, (i + 1) as usize),
{
    assert(major_rest(size, i).skip(1) =~= major_rest(size, (i + 1) as usize));
}

/// Off the crossing, the anti-diagonal from row `i` on starts with the slot of
/// row `i` and goes on from row `i + 1`.
pub proof fn lemma_minor_rest_step(size: usize, i: usize, skip_centre: bool)
    requires
        i < size,
        !(skip_centre && i == size - 1 - i),
    ensures
        minor_rest(size, i, skip_centre).len() > 0,
        minor_rest(size, i, skip_centre)[0] == (i, (size - 1 - i) as usize),
        minor_rest(size, i, skip_centre).skip(1) == minor_rest(
            size,
            (i + 1) as usize,
            skip_centre,
        ),
{
    assert(minor_rest(size, i, skip_centre).skip(1) =~= minor_rest(
        size,
        (i + 1) as usize,
        skip_centre,
    ));
}

/// Every slot of an anti-diagonal lies on the board.
pub proof fn lemma_minor_rest_in_range(size: usize, i: usize, skip_centre: bool)
    ensures
        forall|k: int|
            0 <= k < minor_rest(size, i, skip_centre).len() ==> (#[trigger] minor_rest(
                size,
                i,
                skip_centre,
            )[k]).0 < size && minor_rest(size, i, skip_centre)[k].1 < size,
    decreases size - i,
{
    if i < size {
        lemma_minor_rest_in_range(size, (i + 1) as usize, skip_centre);
        let rest = minor_rest(size, (i + 1) as usize, skip_centre);
        let all = minor_rest(size, i, skip_centre);
        assert forall|k: int| 0 <= k < all.len() implies (#[trigger] all[k]).0 < size && all[k].1
            < size by {
            if skip_centre && i == size - 1 - i {
                assert(all[k] == rest[k]);
            } else if k > 0 {
                assert(all[k] == rest[k - 1]);
            }
        }
    }
}

/// Every slot of the diagonals through a slot lies on the board.
pub proof fn lemma_diagonals_in_range(size: usize, slot: Slot)
    ensures
        forall|k: int|
            0 <= k < slots_of_diagonals(size, slot).len() ==> (#[trigger] slots_of_diagonals(
                size,
                slot,
            )[k]).0 < size && slots_of_diagonals(size, slot)[k].1 < size,
{
    lemma_minor_rest_in_range(size, 0, true);
    lemma_minor_rest_in_range(size, 0, false);
}

/// An area of edge `edge` has `edge` lines of `edge` slots.
pub proof fn lemma_area_rows_len(begin: Slot, edge: usize, i: usize)
    requires
        i <= edge,
    ensures
        area_rows(begin, edge, i).len() == (edge - i) * edge,
    decreases edge - i,
{
    if i < edge {
        lemma_area_rows_len(begin, edge, (i + 1) as usize);
        assert((edge - i) * edge == (edge - (i + 1)) * edge + edge) by (nonlinear_arith);
    } else {
        assert((edge - i) * edge == 0) by (nonlinear_arith)
            requires
                edge - i == 0,
        ;
    }
}

} // verus!
