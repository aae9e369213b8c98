use vstd::arithmetic::div_mod::lemma_fundamental_div_mod_converse_mod;
use vstd::prelude::*;

verus! {

/// The number of cells of a tape made without an explicit capacity.
pub const DEFAULT_MEM_SIZE: usize = 30_000;

/// Where the pointer stands after one move to the left on a tape of `capacity` cells.
pub open spec fn left_of(pointer: int, capacity: int) -> int {
    (pointer + capacity - 1) % capacity
}

/// Where the pointer stands after one move to the right on a tape of `capacity` cells.
pub open spec fn right_of(pointer: int, capacity: int) -> int {
    (pointer + 1) % capacity
}

/// One move to the left steps back by one cell, and from the first cell goes to the last.
pub proof fn lemma_left_of(pointer: int, capacity: int)
    requires
        0 <= pointer < capacity,
    ensures
        left_of(pointer, capacity) == if pointer == 0 {
            capacity - 1
        } else {
            pointer - 1
        },
{
    if pointer == 0 {
        lemma_fundamental_div_mod_converse_mod(pointer + capacity - 1, capacity, 0, capacity - 1);
    } else {
        lemma_fundamental_div_mod_converse_mod(pointer + capacity - 1, capacity, 1, pointer - 1);
    }
}

/// One move to the right steps forward by one cell, and from the last cell goes to the first.
pub proof fn lemma_right_of(pointer: int, capacity: int)
    requires
        0 <= pointer < capacity,
    ensures
        right_of(pointer, capacity) == if pointer == capacity - 1 {
            0
        } else {
            pointer + 1
        },
{
    if pointer == capacity - 1 {
        lemma_fundamental_div_mod_converse_mod(pointer + 1, capacity, 1, 0);
    } else {
        lemma_fundamental_div_mod_converse_mod(pointer + 1, capacity, 0, pointer + 1);
    }
}

/// Where the pointer stands after `n` moves to the left.
pub open spec fn left_times(pointer: int, capacity: int, n: nat) -> int
    decreases n,
{
    if n == 0 {
        pointer
    } else {
        left_of(left_times(pointer, capacity, (n - 1) as nat), capacity)
    }
}

/// Moving left `n` times, no more than the tape has cells, steps back by `n` cells round
/// the tape.
proof fn lemma_left_times(pointer: int, capacity: int, n: nat)
    requires
        0 <= pointer < capacity,
        n <= capacity,
    ensures
        left_times(pointer, capacity, n) == if n <= pointer {
            pointer - n
        } else {
            pointer + capacity - n
        },
    decreases n,
{
    if n > 0 {
        lemma_left_times(pointer, capacity, (n - 1) as nat);
        lemma_left_of(left_times(pointer, capacity, (n - 1) as nat), capacity);
    }
}

/// The tape is a circle: as many moves to the left as it has cells lead back to the cell
/// they started from, and one move to the right from the last cell leads to the first.
pub proof fn lemma_pointer_wraps(pointer: int, capacity: int)
    requires
        0 <= pointer < capacity,
    ensures
        left_times(pointer, capacity, capacity as nat) == pointer,
        right_of(capacity - 1, capacity) == 0,
{
    lemma_left_times(pointer, capacity, capacity as nat);
    lemma_right_of(capacity - 1, capacity);
}

/// A circular tape of byte cells and the pointer into it.
#[derive(Debug)]
pub struct Memory {
    mem: Vec<u8>,
    capacity: usize,
    pointer: usize,
}

impl Memory {
    /// Holds of every tape: it has a cell, and the pointer names one.
    #[verifier::type_invariant]
    pub closed spec fn well_formed(self) -> bool {
        &&& self.capacity == self.mem.len()
        &&& self.pointer < self.capacity
    }

    /// The cells, first to last.
    pub closed spec fn tape(&self) -> Seq<u8> {
        self.mem@
    }

    /// The index of the current cell.
    pub closed spec fn pointer(&self) -> int {
        self.pointer as int
    }

    /// The pointer of a well-formed tape names one of its cells.
    pub proof fn lemma_pointer_in_range(self)
        requires
            self.well_formed(),
        ensures
            0 <= self.pointer() < self.tape().len(),
    {
    }

    /// A zeroed tape of the default capacity, the pointer on its first cell.
    pub fn new() -> (r: Self)
        ensures
            r.tape() == Seq::new(DEFAULT_MEM_SIZE as nat, |i: int| 0u8),
            r.pointer() == 0,
    {
        Self::with_size(DEFAULT_MEM_SIZE)
    }

    /// A zeroed tape of `capacity` cells, the pointer on its first cell.
    pub fn with_size(capacity: usize) -> (r: Self)
        requires
            capacity > 0,
        ensures
            r.tape() == Seq::new(capacity as nat, |i: int| 0u8),
            r.pointer() == 0,
    {
        let r = Self { mem: vec![0u8; capacity], capacity, pointer: 0 };
        r
    }

    /// Makes the tape as new: every cell zero, the pointer on the first cell.
    pub fn reset(&mut self)
        ensures
            final(self).tape() == Seq::new(old(self).tape().len(), |i: int| 0u8),
            final(self).pointer() == 0,
    {
        proof {
            use_type_invariant(&*self);
        }
        self.pointer = 0;
        self.mem = vec![0u8; self.capacity];
        assert(self.tape() =~= Seq::new(old(self).tape().len(), |i: int| 0u8));
    }

    /// The value of the current cell.
    pub fn get(&self) -> (v: &u8)
        ensures
            *v == self.tape()[self.pointer()],
    {
        proof {
            use_type_invariant(self);
        }
        &self.mem[self.pointer]
    }

    /// The current cell, to be written.
    pub fn get_mut(&mut self) -> (v: &mut u8)
        ensures
            *v == old(self).tape()[old(self).pointer()],
            final(self).tape() == old(self).tape().update(old(self).pointer(), *final(v)),
            final(self).pointer() == old(self).pointer(),
    {
        proof {
            use_type_invariant(&*self);
        }
        &mut self.mem[self.pointer]
    }

    /// Moves the pointer one cell to the left, from the first cell to the last.
    pub fn left(&mut self)
        ensures
            final(self).pointer() == left_of(old(self).pointer(), old(self).tape().len() as int),
            final(self).tape() == old(self).tape(),
    {
        proof {
            use_type_invariant(&*self);
            lemma_left_of(self.pointer as int, self.capacity as int);
        }
        if self.pointer == 0 {
            self.pointer = self.capacity - 1;
        } else {
            self.pointer = self.pointer - 1;
        }
    }

    /// Moves the pointer one cell to the right, from the last cell to the first.
    pub fn right(&mut self)
        ensures
            final(self).pointer() == right_of(old(self).pointer(), old(self).tape().len() as int),
            final(self).tape() == old(self).tape(),
    {
        proof {
            use_type_invariant(&*self);
            lemma_right_of(self.pointer as int, self.capacity as int);
        }
        if self.pointer == self.capacity - 1 {
            self.pointer = 0;
        } else {
            self.pointer = self.pointer + 1;
        }
    }
}

} // verus!
