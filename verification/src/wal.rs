//! The write-ahead log: an append-only numbered list of operations. Numbers
//! are contiguous; truncation drops a durably applied prefix.

use vstd::prelude::*;

use crate::types::CollectionUpdateOperations;

verus! {

/// One logged operation.
pub struct WalEntry {
    pub op_num: u64,
    pub operation: CollectionUpdateOperations,
}

/// The in-memory image of the log; the durable bytes live outside.
pub struct Wal {
    pub first_op_num: u64,
    pub entries: Vec<WalEntry>,
}

impl Wal {
    /// Operation numbers start at 1 and are contiguous.
    pub open spec fn wf(self) -> bool {
        &&& self.first_op_num >= 1
        &&& self.first_op_num + self.entries@.len() <= 0xffff_ffff_ffff_ffff
        &&& forall|k: int|
            0 <= k < self.entries@.len() ==> (#[trigger] self.entries@[k]).op_num
                == self.first_op_num + k
    }

    /// The number the next write will get.
    pub open spec fn head(self) -> int {
        self.first_op_num + self.entries@.len()
    }

    pub fn new() -> (r: Wal)
        ensures
            r.wf(),
            r.first_op_num == 1,
            r.entries@.len() == 0,
    {
        Wal { first_op_num: 1, entries: Vec::new() }
    }

    /// Appends an operation and assigns it the next number.
    pub fn write(&mut self, operation: CollectionUpdateOperations) -> (op_num: u64)
        requires
            old(self).wf(),
            old(self).head() < 0xffff_ffff_ffff_ffff,
        ensures
            final(self).wf(),
            op_num == old(self).head(),
            final(self).first_op_num == old(self).first_op_num,
            final(self).entries@ == old(self).entries@.push(WalEntry { op_num, operation }),
    {
        let op_num = self.first_op_num + self.entries.len() as u64;
        self.entries.push(WalEntry { op_num, operation });
        op_num
    }

    /// Drops every entry numbered below `upto`; only a durably applied
    /// prefix may be dropped, which the caller guarantees.
    pub fn truncate_until(&mut self, upto: u64) -> (dropped: usize)
        requires
            old(self).wf(),
        ensures
            final(self).wf(),
            final(self).head() == old(self).head(),
            final(self).entries@ == old(self).entries@.skip(dropped as int),
            dropped == if upto <= old(self).first_op_num {
                0int
            } else if upto as int >= old(self).head() {
                old(self).entries@.len() as int
            } else {
                upto - old(self).first_op_num
            },
            forall|k: int|
                0 <= k < final(self).entries@.len() ==> (#[trigger] final(self).entries@[k]).op_num
                    >= upto || upto <= old(self).first_op_num,
    {
        let dropped: usize = if upto <= self.first_op_num {
            0
        } else if upto as u64 >= self.first_op_num + self.entries.len() as u64 {
            self.entries.len()
        } else {
            (upto - self.first_op_num) as usize
        };
        let tail = self.entries.split_off(dropped);
        self.entries = tail;
        self.first_op_num = self.first_op_num + dropped as u64;
        proof {
            assert(self.entries@ =~= old(self).entries@.skip(dropped as int));
        }
        dropped
    }
}

} // verus!
