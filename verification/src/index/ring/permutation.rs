//! Permutations that can be applied both ways.

use vstd::prelude::*;

verus! {

/// `forward` lists each of the positions `0..n` once.
pub open spec fn is_bijection(forward: Seq<usize>) -> bool {
    &&& forall|i: int| #![trigger forward[i]] 0 <= i < forward.len() ==> forward[i] < forward.len()
    &&& forall|i: int, j: int| 0 <= i < j < forward.len() ==> forward[i] != forward[j]
}

/// A permutation that lists each position once reaches each position.
pub proof fn lemma_reaches_all(forward: Seq<usize>, target: int)
    requires
        is_bijection(forward),
        0 <= target < forward.len(),
    ensures
        exists|i: int| #![trigger forward[i]] 0 <= i < forward.len() && forward[i] == target,
{
    let n = forward.len() as int;
    let list = forward.map_values(|x: usize| x as int);
    let hit = list.to_set();
    let all = vstd::set_lib::set_int_range(0, n);
    assert(list.no_duplicates()) by {
        assert forall|i: int, j: int|
            0 <= i < list.len() && 0 <= j < list.len() && i != j implies list[i] != list[j] by {
            if i < j {
                assert(forward[i] != forward[j]);
            } else {
                assert(forward[j] != forward[i]);
            }
        }
    }
    list.unique_seq_to_set();
    vstd::seq_lib::seq_to_set_is_finite(list);
    vstd::set_lib::lemma_int_range(0, n);
    assert(hit.subset_of(all)) by {
        assert forall|x: int| hit.contains(x) implies all.contains(x) by {
            let i = choose|i: int| 0 <= i < list.len() && list[i] == x;
            assert(forward[i] == x);
        }
    }
    vstd::set_lib::lemma_subset_equality(hit, all);
    assert(hit.contains(target));
    let i = choose|i: int| 0 <= i < list.len() && list[i] == target;
    assert(forward[i] == target);
}

/// A permutation, kept with its inverse.
#[derive(Debug)]
pub struct SuccinctPermutation {
    forward: Vec<usize>,
    inverse: Vec<usize>,
}

impl SuccinctPermutation {
    /// Where each position goes.
    pub closed spec fn targets(&self) -> Seq<usize> {
        self.forward@
    }

    #[verifier::type_invariant]
    spec fn well_formed(&self) -> bool {
        &&& is_bijection(self.forward@)
        &&& self.inverse@.len() == self.forward@.len()
        &&& forall|j: int| #![trigger self.inverse@[j]]
            0 <= j < self.inverse@.len() ==> self.inverse@[j] < self.forward@.len()
                && self.forward@[self.inverse@[j] as int] == j
    }

    /// Creates a permutation from the list of targets, in which each position
    /// occurs once.
    #[must_use]
    pub fn new(forward: &[usize]) -> (r: Self)
        requires
            is_bijection(forward@),
        ensures
            r.targets() == forward@,
    {
        let n: usize = forward.len();
        let mut copy: Vec<usize> = Vec::new();
        let mut inverse: Vec<usize> = vec![0usize; n];
        let mut i: usize = 0;
        while i < n
            invariant
                i <= n == forward@.len(),
                is_bijection(forward@),
                copy@ == forward@.take(i as int),
                inverse@.len() == n,
                forall|k: int| #![trigger forward@[k]]
                    0 <= k < i ==> inverse@[forward@[k] as int] == k,
            decreases n - i,
        {
            let target: usize = forward[i];
            copy.push(target);
            inverse.set(target, i);
            i = i + 1;
            assert(copy@ =~= forward@.take(i as int));
        }
        assert(copy@ =~= forward@);
        proof {
            assert forall|j: int| #![trigger inverse@[j]] 0 <= j < n implies inverse@[j] < n
                && forward@[inverse@[j] as int] == j by {
                lemma_reaches_all(forward@, j);
                let k = choose|k: int| #![trigger forward@[k]]
                    0 <= k < forward@.len() && forward@[k] == j;
                assert(inverse@[forward@[k] as int] == k);
            }
        }
        Self { forward: copy, inverse }
    }

    /// The number of positions.
    #[must_use]
    pub fn len(&self) -> (r: usize)
        ensures
            r == self.targets().len(),
            is_bijection(self.targets()),
    {
        proof {
            use_type_invariant(self);
        }
        self.forward.len()
    }

    /// Whether there are no positions.
    #[must_use]
    pub fn is_empty(&self) -> (r: bool)
        ensures
            r == (self.targets().len() == 0),
    {
        self.forward.len() == 0
    }

    /// Where a position goes, or `None` past the end.
    #[must_use]
    pub fn apply(&self, i: usize) -> (r: Option<usize>)
        ensures
            r == (if i < self.targets().len() {
                Some(self.targets()[i as int])
            } else {
                None
            }),
    {
        if i < self.forward.len() {
            Some(self.forward[i])
        } else {
            None
        }
    }

    /// The position that goes to `i`, or `None` past the end.
    #[must_use]
    pub fn apply_inverse(&self, i: usize) -> (r: Option<usize>)
        ensures
            match r {
                Some(k) => k < self.targets().len() && self.targets()[k as int] == i && i
                    < self.targets().len(),
                None => i >= self.targets().len(),
            },
    {
        proof {
            use_type_invariant(self);
        }
        if i < self.inverse.len() {
            Some(self.inverse[i])
        } else {
            None
        }
    }
}

/// Each position has exactly one origin, so that applying a permutation and then
/// its inverse leads back.
pub proof fn law_inverse_is_unique(targets: Seq<usize>, i: int, k: int)
    requires
        is_bijection(targets),
        0 <= i < targets.len(),
        0 <= k < targets.len(),
        targets[k] == targets[i],
    ensures
        k == i,
{
    if k < i {
        assert(targets[k] != targets[i]);
    } else if i < k {
        assert(targets[i] != targets[k]);
    }
}

} // verus!
