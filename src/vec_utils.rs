use vstd::multiset::Multiset;
use vstd::prelude::*;
use vstd::seq_lib::{
    group_to_multiset_ensures, lemma_multiset_commutative, to_multiset_build, to_multiset_contains, to_multiset_remove,
};

use crate::error::UtilsError;

verus! {

/// `k` is the position of the first `x` in `s`.
pub open spec fn is_first_index<T>(s: Seq<T>, x: T, k: int) -> bool {
    &&& 0 <= k < s.len()
    &&& s[k] == x
    &&& forall|j: int| 0 <= j < k ==> s[j] != x
}

/// Where `x` first stands in `v`, if anywhere.
fn position_of(v: &Vec<u64>, x: u64) -> (r: Option<usize>)
    ensures
        r matches Some(k) ==> is_first_index(v@, x, k as int),
        r is None ==> !v@.contains(x),
{
    let mut i: usize = 0;
    while i < v.len()
        invariant
            i <= v@.len(),
            forall|j: int| 0 <= j < i ==> v@[j] != x,
        decreases v@.len() - i,
    {
        if v[i] == x {
            return Some(i);
        }
        i += 1;
    }
    None
}

/// Comparison of collections regardless of order.
pub trait EqUtils<T>: Sized {
    /// The items of the collection, in order.
    spec fn items(&self) -> Seq<T>;

    /// Whether the two collections hold the same items, each as many times,
    /// in any order.
    fn eq_unorder(&self, other: &Self) -> (r: bool)
        ensures
            r == (self.items().to_multiset() == other.items().to_multiset()),
    ;
}

impl EqUtils<u64> for Vec<u64> {
    open spec fn items(&self) -> Seq<u64> {
        self@
    }

    fn eq_unorder(&self, other: &Self) -> (r: bool) {
        broadcast use group_to_multiset_ensures, lemma_multiset_commutative;

        if self.len() != other.len() {
            assert(self@.to_multiset().len() != other@.to_multiset().len());
            return false;
        }
        let mut rest: Vec<u64> = Vec::new();
        let mut j: usize = 0;
        while j < other.len()
            invariant
                j <= other@.len(),
                rest@ == other@.subrange(0, j as int),
            decreases other@.len() - j,
        {
            rest.push(other[j]);
            j += 1;
        }
        assert(rest@ =~= other@);
        let mut i: usize = 0;
        assert(self@.subrange(0, 0) =~= Seq::<u64>::empty());
        while i < self.len()
            invariant
                i <= self@.len() == other@.len(),
                rest@.len() == other@.len() - i,
                self@.subrange(0, i as int).to_multiset().add(rest@.to_multiset())
                    == other@.to_multiset(),
            decreases self@.len() - i,
        {
            let x = self[i];
            let ghost done = self@.subrange(0, i as int);
            assert(self@.subrange(0, i + 1) =~= done.push(x));
            match position_of(&rest, x) {
                None => {
                    proof {
                        let tail = self@.subrange(i as int, self@.len() as int);
                        assert(self@ =~= done + tail);
                        assert(tail[0] == x);
                        assert(tail.contains(x));
                        to_multiset_contains(tail, x);
                        to_multiset_contains(rest@, x);
                        lemma_multiset_commutative(done, tail);
                        assert((done + tail).to_multiset() == self@.to_multiset());
                        assert(self@.to_multiset().count(x) > other@.to_multiset().count(x));
                    }
                    return false;
                },
                Some(k) => {
                    let ghost before = rest@;
                    rest.remove(k);
                    proof {
                        assert(before[k as int] == x);
                        assert(before.contains(x));
                        to_multiset_contains(before, x);
                        assert(rest@ == before.remove(k as int));
                        to_multiset_remove(before, k as int);
                        to_multiset_build(done, x);
                        assert(done.push(x).to_multiset() =~= done.to_multiset().insert(x));
                    }
                    assert(done.push(x).to_multiset().add(rest@.to_multiset()) =~= done.to_multiset().add(
                        before.to_multiset(),
                    ));
                },
            }
            i += 1;
        }
        assert(self@.subrange(0, i as int) =~= self@);
        assert(rest@.to_multiset() =~= Multiset::empty());
        assert(self@.to_multiset() =~= other@.to_multiset());
        true
    }
}

/// Search and removal by value in a list whose positions count from 1.
pub trait VecMapperUtils<T>: Sized {
    /// The items of the collection, in order; positions count from 1.
    spec fn items(&self) -> Seq<T>;

    /// The position, counted from 1, of the first occurrence of `item`.
    fn find_index(&self, item: &T) -> (r: Option<usize>)
        ensures
            r matches Some(k) ==> k >= 1 && is_first_index(self.items(), *item, k - 1),
            r is None ==> !self.items().contains(*item),
    ;

    /// Whether `item` occurs in the collection.
    fn has_item(&self, item: &T) -> (r: bool)
        ensures
            r == self.items().contains(*item),
    ;

    /// Removes the first occurrence of `item`; the last item takes its place.
    fn remove_item(&mut self, item: &T) -> (r: Result<(), UtilsError>)
        ensures
            old(self).items().contains(*item) <==> r is Ok,
            r is Err ==> r == Err::<(), UtilsError>(UtilsError::ItemNotFound) && final(self).items()
                == old(self).items(),
            r is Ok ==> exists|k: int|
                is_first_index(old(self).items(), *item, k) && final(self).items() == old(
                    self,
                ).items().update(k, old(self).items().last()).drop_last(),
    ;
}

impl VecMapperUtils<u64> for Vec<u64> {
    open spec fn items(&self) -> Seq<u64> {
        self@
    }

    fn find_index(&self, item: &u64) -> (r: Option<usize>) {
        match position_of(self, *item) {
            Some(k) => {
                assert(k < self.len());
                Some(k + 1)
            },
            None => None,
        }
    }

    fn has_item(&self, item: &u64) -> (r: bool) {
        self.find_index(item).is_some()
    }

    fn remove_item(&mut self, item: &u64) -> (r: Result<(), UtilsError>) {
        match self.find_index(item) {
            Some(index) => {
                self.swap_remove(index - 1);
                Ok(())
            },
            None => Err(UtilsError::ItemNotFound),
        }
    }
}

} // verus!
