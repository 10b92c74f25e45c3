use vstd::prelude::*;

use crate::linear_list::{LinearList, LinearListError, LinearListResult};

verus! {

/// The number of items a `Stack` can hold.
pub const MEMORY_SIZE: usize = 10;

/// A positional list over a fixed number of contiguous slots.
///
/// Slots `0..length` hold the items; the remaining slots are empty.
pub struct Stack<T> {
    length: usize,
    memory: Vec<Option<T>>,
}

impl<T> Stack<T> {
    /// Exchanges the contents of two slots.
    fn swap_slots(&mut self, i: usize, j: usize)
        requires
            i < old(self).memory.len(),
            j < old(self).memory.len(),
        ensures
            final(self).length == old(self).length,
            final(self).memory@ == old(self).memory@.update(i as int, old(self).memory@[j as int]).update(
                j as int,
                old(self).memory@[i as int],
            ),
    {
        if i == j {
            return;
        }
        let mut slot: Option<T> = None;
        self.memory.set_and_swap(i, &mut slot);
        self.memory.set_and_swap(j, &mut slot);
        self.memory.set_and_swap(i, &mut slot);
    }
}

impl<T> Default for Stack<T> {
    fn default() -> (r: Self)
        ensures
            r.wf(),
            r.items() == Seq::<T>::empty(),
    {
        <Self as LinearList>::new()
    }
}

impl<T> LinearList for Stack<T> {
    type Item = T;

    closed spec fn items(&self) -> Seq<T> {
        Seq::new(self.length as nat, |k: int| self.memory@[k].unwrap())
    }

    closed spec fn wf(&self) -> bool {
        &&& self.memory.len() == MEMORY_SIZE
        &&& self.length <= MEMORY_SIZE
        &&& forall|k: int| 0 <= k < self.length ==> self.memory@[k] is Some
        &&& forall|k: int| self.length <= k < MEMORY_SIZE ==> self.memory@[k] is None
    }

    open spec fn capacity() -> nat {
        MEMORY_SIZE as nat
    }

    proof fn lemma_wf_within_capacity(&self) {
    }

    fn new() -> (r: Self) {
        let mut memory: Vec<Option<T>> = Vec::with_capacity(MEMORY_SIZE);
        let mut i: usize = 0;
        while i < MEMORY_SIZE
            invariant
                i <= MEMORY_SIZE,
                memory.len() == i,
                forall|k: int| 0 <= k < i ==> memory@[k] is None,
            decreases MEMORY_SIZE - i,
        {
            memory.push(None);
            i += 1;
        }
        let r = Stack { length: 0, memory };
        assert(r.items() =~= Seq::<T>::empty());
        r
    }

    fn length(&self) -> (n: usize) {
        self.length
    }

    fn get(&self, pos: usize) -> (r: Option<&T>) {
        if pos < self.length {
            match &self.memory[pos] {
                Some(item) => Some(item),
                None => None,
            }
        } else {
            None
        }
    }

    fn get_mut(&mut self, pos: usize) -> (r: Option<&mut T>) {
        if pos < self.length {
            match &mut self.memory[pos] {
                Some(item) => Some(item),
                None => None,
            }
        } else {
            None
        }
    }

    fn swap(&mut self, i: usize, j: usize) {
        let ghost before = self.items();
        self.swap_slots(i, j);
        assert(self.items() =~= before.update(i as int, before[j as int]).update(
            j as int,
            before[i as int],
        ));
    }

    fn insert_before(&mut self, pos: usize, item: T) -> (r: LinearListResult<()>) {
        if pos > self.length {
            return Err(LinearListError::OutOfRange);
        }
        if self.length == MEMORY_SIZE {
            return Err(LinearListError::MemoryOverflow);
        }
        let ghost before = self.items();
        let ghost slots = self.memory@;
        let len = self.length;
        let mut i: usize = len;
        // The empty slot at `len` travels down to `pos`, moving each item one slot up.
        while i > pos
            invariant
                pos <= i <= len < MEMORY_SIZE,
                self.length == len,
                self.memory.len() == MEMORY_SIZE,
                slots.len() == MEMORY_SIZE,
                forall|k: int| 0 <= k < len ==> slots[k] is Some,
                forall|k: int| len <= k < MEMORY_SIZE ==> slots[k] is None,
                self.memory@[i as int] is None,
                forall|k: int| 0 <= k < i ==> self.memory@[k] == slots[k],
                forall|k: int| i < k <= len ==> self.memory@[k] == slots[k - 1],
                forall|k: int| len < k < MEMORY_SIZE ==> self.memory@[k] == slots[k],
            decreases i,
        {
            self.swap_slots(i - 1, i);
            i -= 1;
        }
        let ghost shifted = self.memory@;
        self.memory.set(pos, Some(item));
        self.length = len + 1;
        assert forall|k: int| 0 <= k < MEMORY_SIZE implies (self.memory@[k] is Some <==> k <= len) by {
            if k != pos {
                assert(self.memory@[k] == shifted[k]);
                if k < pos {
                    assert(shifted[k] == slots[k]);
                    assert(slots[k] is Some);
                } else if k <= len {
                    assert(shifted[k] == slots[k - 1]);
                    assert(slots[k - 1] is Some);
                } else {
                    assert(shifted[k] == slots[k]);
                    assert(slots[k] is None);
                }
            }
        }
        assert(self.items() =~= before.insert(pos as int, item));
        Ok(())
    }

    fn delete(&mut self, pos: usize) -> (r: LinearListResult<T>) {
        if pos >= self.length {
            return Err(LinearListError::OutOfRange);
        }
        let ghost before = self.items();
        let ghost slots = self.memory@;
        let len = self.length;
        let mut i: usize = pos;
        // The item at `pos` travels up to the last occupied slot.
        while i + 1 < len
            invariant
                pos <= i < len <= MEMORY_SIZE,
                self.length == len,
                self.memory.len() == MEMORY_SIZE,
                slots.len() == MEMORY_SIZE,
                forall|k: int| 0 <= k < len ==> slots[k] is Some,
                forall|k: int| len <= k < MEMORY_SIZE ==> slots[k] is None,
                self.memory@[i as int] == slots[pos as int],
                forall|k: int| 0 <= k < pos ==> self.memory@[k] == slots[k],
                forall|k: int| pos <= k < i ==> self.memory@[k] == slots[k + 1],
                forall|k: int| i < k < MEMORY_SIZE ==> self.memory@[k] == slots[k],
            decreases len - i,
        {
            self.swap_slots(i, i + 1);
            i += 1;
        }
        let ghost shifted = self.memory@;
        let mut slot: Option<T> = None;
        self.memory.set_and_swap(len - 1, &mut slot);
        self.length = len - 1;
        assert forall|k: int| 0 <= k < MEMORY_SIZE implies (self.memory@[k] is Some <==> k < len
            - 1) by {
            if k != len - 1 {
                assert(self.memory@[k] == shifted[k]);
                if k < pos {
                    assert(shifted[k] == slots[k]);
                    assert(slots[k] is Some);
                } else if k < len - 1 {
                    assert(shifted[k] == slots[k + 1]);
                    assert(slots[k + 1] is Some);
                } else {
                    assert(shifted[k] == slots[k]);
                    assert(slots[k] is None);
                }
            }
        }
        assert(self.items() =~= before.remove(pos as int));
        match slot {
            Some(item) => Ok(item),
            None => Err(LinearListError::OutOfRange),
        }
    }
}

} // verus!
