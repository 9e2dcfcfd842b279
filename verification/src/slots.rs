//! Id tables: a process's open files, mutexes, semaphores and condition
//! variables each live in a table of slots, and a new object takes the lowest
//! free id.
use vstd::prelude::*;

verus! {

/// `id` is the lowest free slot of `s`, or its length when every slot is taken.
pub open spec fn is_first_free<T>(s: Seq<Option<T>>, id: int) -> bool {
    &&& 0 <= id <= s.len()
    &&& forall|i: int| 0 <= i < id ==> #[trigger] s[i] is Some
    &&& id < s.len() ==> s[id] is None
}

/// The table with `x` stored at `id`, appended when `id` is the length.
pub open spec fn with_slot<T>(s: Seq<Option<T>>, id: int, x: T) -> Seq<Option<T>> {
    if id < s.len() {
        s.update(id, Some(x))
    } else {
        s.push(Some(x))
    }
}

/// Only one id is the lowest free one.
pub proof fn lemma_first_free_unique<T>(s: Seq<Option<T>>, a: int, b: int)
    requires
        is_first_free(s, a),
        is_first_free(s, b),
    ensures
        a == b,
{
    if a < b {
        assert(s[a] is Some);
    } else if b < a {
        assert(s[b] is Some);
    }
}

/// Stores `x` in the lowest free slot of `table`, appending a slot when none
/// is free, and returns the slot's id.
pub fn alloc_slot<T>(table: &mut Vec<Option<T>>, x: T) -> (id: usize)
    ensures
        is_first_free(old(table)@, id as int),
        final(table)@ == with_slot(old(table)@, id as int, x),
{
    let mut i: usize = 0;
    while i < table.len()
        invariant
            i <= table.len(),
            table@ == old(table)@,
            forall|a: int| 0 <= a < i ==> #[trigger] table@[a] is Some,
        decreases table.len() - i,
    {
        if table[i].is_none() {
            table.set(i, Some(x));
            return i;
        }
        i = i + 1;
    }
    table.push(Some(x));
    i
}

} // verus!
