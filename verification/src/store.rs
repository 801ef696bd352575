//! The cell store: what was written to it, and what each cell holds.

use vstd::prelude::*;
use crate::key::Key;

verus! {

/// One operation on the store, as contracts see it: the number of the key
/// and the bytes written there, or `None` where the cell was cleared.
pub ghost struct Op {
    pub key: nat,
    pub data: Option<Seq<u8>>,
}

/// What the cell at `key` holds after the operations `ops`, given in the
/// order in which they were issued: the bytes of the last write to `key`, or
/// `None` if `key` was never written or was cleared after its last write.
pub open spec fn cell_of(ops: Seq<Op>, key: nat) -> Option<Seq<u8>>
    decreases ops.len(),
{
    if ops.len() == 0 {
        None
    } else if ops.last().key == key {
        ops.last().data
    } else {
        cell_of(ops.drop_last(), key)
    }
}

/// Operations on other keys do not change what a cell holds.
pub proof fn lemma_cell_of_untouched(before: Seq<Op>, after: Seq<Op>, key: nat)
    requires
        forall|i: int| 0 <= i < after.len() ==> (#[trigger] after[i]).key != key,
    ensures
        cell_of(before + after, key) == cell_of(before, key),
    decreases after.len(),
{
    if after.len() == 0 {
        assert(before + after =~= before);
    } else {
        let all = before + after;
        assert(all.last() == after.last());
        assert(all.drop_last() =~= before + after.drop_last());
        lemma_cell_of_untouched(before, after.drop_last(), key);
    }
}

/// One recorded operation on the store.
#[derive(Debug)]
pub struct StoreOp {
    /// The cell that the operation addresses.
    pub key: Key,
    /// The bytes written, or `None` for a clear.
    pub data: Option<Vec<u8>>,
}

impl View for StoreOp {
    type V = Op;

    open spec fn view(&self) -> Op {
        Op {
            key: self.key@,
            data: match self.data {
                Some(bytes) => Some(bytes@),
                None => None,
            },
        }
    }
}

/// A fresh vector with the same bytes.
pub fn copy_bytes(bytes: &Vec<u8>) -> (copy: Vec<u8>)
    ensures
        copy@ == bytes@,
{
    let mut copy: Vec<u8> = Vec::new();
    let mut i: usize = 0;
    while i < bytes.len()
        invariant
            i <= bytes.len(),
            copy@ == bytes@.take(i as int),
        decreases bytes.len() - i,
    {
        copy.push(bytes[i]);
        proof {
            assert(bytes@.take(i + 1) =~= bytes@.take(i as int).push(bytes@[i as int]));
        }
        i += 1;
    }
    proof {
        assert(bytes@.take(bytes.len() as int) =~= bytes@);
    }
    copy
}

/// A key/value store of cells that keeps every operation issued to it.
///
/// Its view is the sequence of operations, oldest first; `cell_of` says
/// what a cell holds after them.
#[derive(Debug)]
pub struct Store {
    ops: Vec<StoreOp>,
}

impl View for Store {
    type V = Seq<Op>;

    closed spec fn view(&self) -> Seq<Op> {
        Seq::new(self.ops@.len(), |i: int| self.ops@[i]@)
    }
}

impl Store {
    /// What the cell at `key` holds.
    pub open spec fn cell(&self, key: nat) -> Option<Seq<u8>> {
        cell_of(self@, key)
    }

    /// A store on which nothing was done yet: every cell is absent.
    pub fn new() -> (store: Store)
        ensures
            store@ == Seq::<Op>::empty(),
    {
        let store = Store { ops: Vec::new() };
        proof {
            assert(store@ =~= Seq::<Op>::empty());
        }
        store
    }

    /// The bytes of the cell at `key`, or `None` if the cell is absent.
    pub fn pull(&self, key: &Key) -> (bytes: Option<Vec<u8>>)
        ensures
            match bytes {
                Some(b) => self.cell(key@) == Some(b@),
                None => self.cell(key@).is_none(),
            },
    {
        let mut i: usize = self.ops.len();
        proof {
            assert(self@.take(i as int) =~= self@);
        }
        while i > 0
            invariant
                i <= self.ops.len(),
                self@.len() == self.ops@.len(),
                cell_of(self@, key@) == cell_of(self@.take(i as int), key@),
            decreases i,
        {
            let ghost prefix = self@.take(i as int);
            let op = &self.ops[i - 1];
            proof {
                assert(prefix.last() == op@);
                assert(prefix.drop_last() =~= self@.take(i - 1));
            }
            if op.key.same(key) {
                return match &op.data {
                    Some(bytes) => Some(copy_bytes(bytes)),
                    None => None,
                };
            }
            i -= 1;
        }
        None
    }

    /// Writes `bytes` to the cell at `key`.
    pub fn push(&mut self, key: Key, bytes: Vec<u8>)
        ensures
            final(self)@ == old(self)@.push(Op { key: key@, data: Some(bytes@) }),
    {
        self.ops.push(StoreOp { key, data: Some(bytes) });
        proof {
            assert(self@ =~= old(self)@.push(Op { key: key@, data: Some(bytes@) }));
        }
    }

    /// Clears the cell at `key`: it is absent afterwards.
    pub fn clear(&mut self, key: Key)
        ensures
            final(self)@ == old(self)@.push(Op { key: key@, data: None }),
    {
        self.ops.push(StoreOp { key, data: None });
        proof {
            assert(self@ =~= old(self)@.push(Op { key: key@, data: None }));
        }
    }

    /// The number of operations issued so far.
    pub fn op_count(&self) -> (n: usize)
        ensures
            n == self@.len(),
    {
        self.ops.len()
    }

    /// The `index`-th operation issued, counting from zero.
    pub fn op(&self, index: usize) -> (op: &StoreOp)
        requires
            index < self@.len(),
        ensures
            op@ == self@[index as int],
    {
        &self.ops[index]
    }
}

} // verus!
