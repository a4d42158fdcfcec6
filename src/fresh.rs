use vstd::prelude::*;
use std::collections::HashMap;

verus! {

broadcast use vstd::std_specs::hash::group_hash_axioms;

/// The number of distinct `u32` values.
pub const ID_SPACE: u64 = 0x1_0000_0000;

/// `c` advanced by `j`, wrapping like an atomic `u32` counter.
pub open spec fn wrap_add(c: u32, j: int) -> u32 {
    ((c as int + j) % (ID_SPACE as int)) as u32
}

/// `r` is the first key at or after `start` (counting with wraparound) that
/// `dom` lacks, and `next` is the counter left one past it.
pub open spec fn first_free(dom: Set<u32>, start: u32, r: u32, next: u32) -> bool {
    &&& !dom.contains(r)
    &&& exists|n: int|
        0 <= n < ID_SPACE as int && r == #[trigger] wrap_add(start, n) && next == wrap_add(start, n + 1)
            && forall|j: int| 0 <= j < n ==> dom.contains(#[trigger] wrap_add(start, j))
}

/// Draws keys from the counter `start`, one after another, until one is not
/// a key of `m`; returns it with the counter after it.
pub fn fresh_key<V>(m: &HashMap<u32, V>, start: u32) -> (r: (u32, u32))
    requires
        m@.len() < ID_SPACE,
    ensures
        first_free(m@.dom(), start, r.0, r.1),
{
    let mut n: u64 = 0;
    let ghost mut tried: Set<u32> = Set::empty();
    loop
        invariant
            m@.len() < ID_SPACE,
            n <= m@.len(),
            tried.finite(),
            tried.len() == n,
            tried.subset_of(m@.dom()),
            forall|x: u32| tried.contains(x) ==> exists|j: int| 0 <= j < n && x == #[trigger] wrap_add(start, j),
            forall|j: int| 0 <= j < n ==> m@.dom().contains(#[trigger] wrap_add(start, j)),
        decreases m@.len() - n,
    {
        let id: u32 = ((start as u64 + n) % ID_SPACE) as u32;
        assert(id == wrap_add(start, n as int));
        if !m.contains_key(&id) {
            let next: u32 = ((start as u64 + n + 1) % ID_SPACE) as u32;
            assert(first_free(m@.dom(), start, id, next)) by {
                assert(next == wrap_add(start, n + 1));
            }
            return (id, next);
        }
        proof {
            assert(!tried.contains(id)) by {
                if tried.contains(id) {
                    let j = choose|j: int| 0 <= j < n && id == wrap_add(start, j);
                    assert(false) by (nonlinear_arith)
                        requires
                            0 <= j < n,
                            n < ID_SPACE,
                            (start as int + j) % (ID_SPACE as int) == (start as int + n) % (
                            ID_SPACE as int),
                            0 <= start < ID_SPACE,
                    ;
                }
            }
            tried = tried.insert(id);
            vstd::set_lib::lemma_len_subset(tried, m@.dom());
        }
        n = n + 1;
    }
}

} // verus!
