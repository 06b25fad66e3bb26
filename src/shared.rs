use vstd::prelude::*;

verus! {

/// How far past the cursor the owning side of a split may reach.
pub const LOOKAHEAD: usize = 3;

/// What the owning side of a split holds: the whole row, and the cursor below
/// which cells have been handed to the borrowing side.
pub struct Window<T> {
    pub cells: Seq<T>,
    pub cursor: nat,
}

/// The producing side of a row shared by two workers.
///
/// It holds the row and a cursor. It writes only at or past the cursor, a few
/// cells ahead; every cell before the cursor is final and belongs to the
/// borrowing side, which receives copies of it.
pub struct OwnedSplit<T> {
    cells: Vec<T>,
    cursor: usize,
}

/// The consuming side of a row shared by two workers: the prefix of the row
/// that the owning side has released so far, which this side may read and
/// write freely.
pub struct BorrowedSplit<T> {
    cells: Vec<T>,
}

/// The row a worker works on: all of it from the start, or the released
/// prefix of a split.
pub enum BorrowedSlice<T> {
    Owned(Vec<T>),
    Shared(BorrowedSplit<T>),
}

/// Partitions access to `row`: the owning side holds it with nothing
/// released, the borrowing side holds an empty prefix.
pub fn split<T>(row: Vec<T>) -> (r: (OwnedSplit<T>, BorrowedSplit<T>))
    ensures
        r.0@.cells == row@,
        r.0@.cursor == 0,
        r.1@ == Seq::<T>::empty(),
{
    (OwnedSplit { cells: row, cursor: 0 }, BorrowedSplit { cells: Vec::new() })
}

impl<T> View for OwnedSplit<T> {
    type V = Window<T>;

    closed spec fn view(&self) -> Window<T> {
        Window { cells: self.cells@, cursor: self.cursor as nat }
    }
}

impl<T> OwnedSplit<T> {
    #[verifier::type_invariant]
    spec fn inv(&self) -> bool {
        self.cursor <= self.cells.len()
    }

    pub fn len(&self) -> (n: usize)
        ensures
            n == self@.cells.len(),
            self@.cursor <= n,
    {
        proof {
            use_type_invariant(self);
        }
        self.cells.len()
    }

    /// How many cells have been released.
    pub fn lent(&self) -> (n: usize)
        ensures
            n == self@.cursor,
            n <= self@.cells.len(),
    {
        proof {
            use_type_invariant(self);
        }
        self.cursor
    }

    /// The cell `i` places past the cursor.
    pub fn index(&self, i: usize) -> (v: &T)
        requires
            i < LOOKAHEAD,
            self@.cursor + i < self@.cells.len(),
        ensures
            *v == self@.cells[self@.cursor + i],
    {
        proof {
            use_type_invariant(self);
        }
        &self.cells[self.cursor + i]
    }

    /// The cell `i` places past the cursor, to be written.
    pub fn index_mut(&mut self, i: usize) -> (v: &mut T)
        requires
            i < LOOKAHEAD,
            old(self)@.cursor + i < old(self)@.cells.len(),
        ensures
            *v == old(self)@.cells[old(self)@.cursor + i],
            final(self)@.cursor == old(self)@.cursor,
            final(self)@.cells == old(self)@.cells.update(
                old(self)@.cursor + i,
                *final(v),
            ),
    {
        proof {
            use_type_invariant(&*self);
        }
        let k = self.cursor + i;
        &mut self.cells[k]
    }

    /// Releases the next `amount` cells to the borrowing side.
    pub fn lend(&mut self, amount: usize)
        requires
            old(self)@.cursor + amount <= old(self)@.cells.len(),
        ensures
            final(self)@.cells == old(self)@.cells,
            final(self)@.cursor == old(self)@.cursor + amount,
    {
        proof {
            use_type_invariant(&*self);
        }
        self.cursor = self.cursor + amount;
    }

    /// Releases every cell that is left.
    pub fn lend_all(&mut self)
        ensures
            final(self)@.cells == old(self)@.cells,
            final(self)@.cursor == old(self)@.cells.len(),
    {
        self.cursor = self.cells.len();
    }
}

impl<T: Copy> OwnedSplit<T> {
    /// Copies of the released cells from index `from` up to the cursor.
    pub fn released_since(&self, from: usize) -> (v: Vec<T>)
        requires
            from <= self@.cursor,
        ensures
            v@ == self@.cells.subrange(from as int, self@.cursor as int),
    {
        proof {
            use_type_invariant(self);
        }
        let mut v: Vec<T> = Vec::new();
        let mut i: usize = from;
        while i < self.cursor
            invariant
                from <= i <= self.cursor <= self.cells@.len(),
                v@ == self.cells@.subrange(from as int, i as int),
            decreases self.cursor - i,
        {
            v.push(self.cells[i]);
            proof {
                assert(self.cells@.subrange(from as int, i + 1) =~= self.cells@.subrange(
                    from as int,
                    i as int,
                ).push(self.cells@[i as int]));
            }
            i += 1;
        }
        v
    }
}

impl<T> View for BorrowedSplit<T> {
    type V = Seq<T>;

    closed spec fn view(&self) -> Seq<T> {
        self.cells@
    }
}

impl<T> BorrowedSplit<T> {
    /// How many cells this side holds.
    pub fn len(&self) -> (n: usize)
        ensures
            n == self@.len(),
    {
        self.cells.len()
    }

    pub fn index(&self, i: usize) -> (v: &T)
        requires
            i < self@.len(),
        ensures
            *v == self@[i as int],
    {
        &self.cells[i]
    }

    pub fn index_mut(&mut self, i: usize) -> (v: &mut T)
        requires
            i < old(self)@.len(),
        ensures
            *v == old(self)@[i as int],
            final(self)@ == old(self)@.update(i as int, *final(v)),
    {
        &mut self.cells[i]
    }

    /// Appends cells that the owning side has released.
    pub fn extend(&mut self, cells: Vec<T>)
        ensures
            final(self)@ == old(self)@ + cells@,
    {
        let mut cells = cells;
        self.cells.append(&mut cells);
    }

    /// The cells held, in order.
    pub fn into_vec(self) -> (v: Vec<T>)
        ensures
            v@ == self@,
    {
        self.cells
    }
}

impl<T: Copy> BorrowedSplit<T> {
    /// Takes over the cells that `owner` has released since the last call.
    pub fn receive(&mut self, owner: &OwnedSplit<T>)
        requires
            old(self)@.len() <= owner@.cursor,
            owner@.cursor <= owner@.cells.len(),
        ensures
            final(self)@ == old(self)@ + owner@.cells.subrange(
                old(self)@.len() as int,
                owner@.cursor as int,
            ),
            final(self)@.len() == owner@.cursor,
    {
        proof {
            use_type_invariant(owner);
        }
        let n = self.cells.len();
        let fresh = owner.released_since(n);
        self.extend(fresh);
    }
}

impl<T> View for BorrowedSlice<T> {
    type V = Seq<T>;

    open spec fn view(&self) -> Seq<T> {
        match self {
            BorrowedSlice::Owned(v) => v@,
            BorrowedSlice::Shared(s) => s@,
        }
    }
}

impl<T> BorrowedSlice<T> {
    /// How many cells are available.
    pub fn len(&self) -> (n: usize)
        ensures
            n == self@.len(),
    {
        match self {
            BorrowedSlice::Owned(v) => v.len(),
            BorrowedSlice::Shared(s) => s.len(),
        }
    }

    pub fn index(&self, i: usize) -> (v: &T)
        requires
            i < self@.len(),
        ensures
            *v == self@[i as int],
    {
        match self {
            BorrowedSlice::Owned(v) => &v[i],
            BorrowedSlice::Shared(s) => s.index(i),
        }
    }

    pub fn index_mut(&mut self, i: usize) -> (v: &mut T)
        requires
            i < old(self)@.len(),
        ensures
            *v == old(self)@[i as int],
            final(self)@ == old(self)@.update(i as int, *final(v)),
            (*final(self) is Owned) <==> (*old(self) is Owned),
    {
        match self {
            BorrowedSlice::Owned(v) => &mut v[i],
            BorrowedSlice::Shared(s) => s.index_mut(i),
        }
    }

    pub fn from_vec(v: Vec<T>) -> (s: BorrowedSlice<T>)
        ensures
            s == BorrowedSlice::Owned(v),
    {
        BorrowedSlice::Owned(v)
    }

    pub fn from_split(b: BorrowedSplit<T>) -> (s: BorrowedSlice<T>)
        ensures
            s == BorrowedSlice::Shared(b),
    {
        BorrowedSlice::Shared(b)
    }

    /// The cells held, in order.
    pub fn into_vec(self) -> (v: Vec<T>)
        ensures
            v@ == self@,
    {
        match self {
            BorrowedSlice::Owned(v) => v,
            BorrowedSlice::Shared(s) => s.into_vec(),
        }
    }
}

} // verus!
