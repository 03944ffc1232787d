//! A growable byte store with zero as the default cell value, used by
//! the programs the transpiler emits.

use vstd::prelude::*;

verus! {

/// A byte store that reads as all zeros beyond what has been written:
/// reading any index yields zero until that index is written, and
/// writing grows the store as needed.
#[derive(Debug)]
pub struct Storage {
    data: Vec<u8>,
}

impl View for Storage {
    type V = Seq<u8>;

    /// The bytes written so far; everything beyond reads as zero.
    closed spec fn view(&self) -> Seq<u8> {
        self.data@
    }
}

impl Default for Storage {
    /// An empty store: every cell reads as zero.
    fn default() -> (r: Storage)
        ensures
            r@ == Seq::<u8>::empty(),
    {
        Storage { data: Vec::new() }
    }
}

impl Storage {
    /// The byte at `index`: zero where nothing was written yet.
    pub fn get(&self, index: usize) -> (r: u8)
        ensures
            r == if index < self@.len() {
                self@[index as int]
            } else {
                0u8
            },
    {
        if index >= self.data.len() {
            0
        } else {
            self.data[index]
        }
    }

    /// Write the byte at `index`, growing the store with zeros so that
    /// the index exists.
    pub fn set(&mut self, index: usize, value: u8)
        requires
            index < usize::MAX,
        ensures
            final(self)@.len() as int == if index < old(self)@.len() {
                old(self)@.len() as int
            } else {
                index as int + 1
            },
            forall|j: int|
                0 <= j < final(self)@.len() ==> final(self)@[j] == (if j == index {
                    value
                } else if j < old(self)@.len() {
                    old(self)@[j]
                } else {
                    0u8
                }),
    {
        if index + 1 > self.data.len() {
            self.data.resize(index + 1, 0);
        }
        self.data.set(index, value);
    }
}

} // verus!
