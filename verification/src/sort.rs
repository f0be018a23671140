//! A verified merge sort, used to order histogram counts and traced contours.

use vstd::prelude::*;

verus! {

broadcast use vstd::seq_lib::group_to_multiset_ensures;

/// A key type with a total preorder that the merge sort orders by.
pub trait SortKey: Copy + Sized {
    /// `self` may stand before `other`.
    spec fn precedes(self, other: Self) -> bool;

    /// Executable comparison.
    fn le(&self, other: &Self) -> (r: bool)
        ensures
            r == self.precedes(*other),
    ;

    /// Any two keys are comparable.
    proof fn lemma_total(a: Self, b: Self)
        ensures
            a.precedes(b) || b.precedes(a),
    ;

    /// The order is transitive.
    proof fn lemma_trans(a: Self, b: Self, c: Self)
        requires
            a.precedes(b),
            b.precedes(c),
        ensures
            a.precedes(c),
    ;
}

/// Every earlier element may stand before every later one.
pub open spec fn sorted_by_key<T: SortKey>(s: Seq<T>) -> bool {
    forall|i: int, j: int| 0 <= i < j < s.len() ==> #[trigger] s[i].precedes(#[trigger] s[j])
}

/// Counts are ordered largest first.
impl SortKey for u32 {
    open spec fn precedes(self, other: Self) -> bool {
        self >= other
    }

    fn le(&self, other: &Self) -> (r: bool) {
        *self >= *other
    }

    proof fn lemma_total(a: Self, b: Self) {
    }

    proof fn lemma_trans(a: Self, b: Self, c: Self) {
    }
}

/// A four-part key ordered lexicographically, smallest first.
#[derive(Clone, Copy, Debug)]
pub struct LexKey {
    /// Most significant part.
    pub k0: u64,
    /// Second part.
    pub k1: u64,
    /// Third part.
    pub k2: u64,
    /// Least significant part.
    pub k3: u64,
}

impl SortKey for LexKey {
    open spec fn precedes(self, other: Self) -> bool {
        self.k0 < other.k0 || (self.k0 == other.k0 && (self.k1 < other.k1 || (self.k1 == other.k1
            && (self.k2 < other.k2 || (self.k2 == other.k2 && self.k3 <= other.k3)))))
    }

    fn le(&self, other: &Self) -> (r: bool) {
        self.k0 < other.k0 || (self.k0 == other.k0 && (self.k1 < other.k1 || (self.k1 == other.k1
            && (self.k2 < other.k2 || (self.k2 == other.k2 && self.k3 <= other.k3)))))
    }

    proof fn lemma_total(a: Self, b: Self) {
    }

    proof fn lemma_trans(a: Self, b: Self, c: Self) {
    }
}

fn copy_range<T: SortKey>(v: &Vec<T>, lo: usize, hi: usize) -> (r: Vec<T>)
    requires
        lo <= hi <= v.len(),
    ensures
        r@ == v@.subrange(lo as int, hi as int),
{
    let mut r: Vec<T> = Vec::new();
    let mut i = lo;
    while i < hi
        invariant
            lo <= i <= hi <= v.len(),
            r@ == v@.subrange(lo as int, i as int),
        decreases hi - i,
    {
        r.push(v[i]);
        i += 1;
    }
    r
}

fn merge<T: SortKey>(left: Vec<T>, right: Vec<T>) -> (r: Vec<T>)
    requires
        sorted_by_key(left@),
        sorted_by_key(right@),
    ensures
        sorted_by_key(r@),
        r@.to_multiset() == left@.to_multiset().add(right@.to_multiset()),
        r@.len() == left@.len() + right@.len(),
{
    let mut r: Vec<T> = Vec::new();
    let mut i: usize = 0;
    let mut j: usize = 0;
    proof {
        vstd::seq_lib::lemma_multiset_commutative(left@, right@);
        assert(left@.subrange(0, 0) =~= Seq::<T>::empty());
        assert(right@.subrange(0, 0) =~= Seq::<T>::empty());
        assert(left@.subrange(0, left@.len() as int) =~= left@);
        assert(right@.subrange(0, right@.len() as int) =~= right@);
    }
    while i < left.len() || j < right.len()
        invariant
            i <= left.len(),
            j <= right.len(),
            sorted_by_key(left@),
            sorted_by_key(right@),
            sorted_by_key(r@),
            r@.len() == i + j,
            r@.to_multiset() == left@.subrange(0, i as int).to_multiset().add(
                right@.subrange(0, j as int).to_multiset(),
            ),
            r@.len() > 0 && i < left.len() ==> r@.last().precedes(left@[i as int]),
            r@.len() > 0 && j < right.len() ==> r@.last().precedes(right@[j as int]),
        decreases left.len() + right.len() - i - j,
    {
        let take_left = if i < left.len() && j < right.len() {
            left[i].le(&right[j])
        } else {
            i < left.len()
        };
        let ghost old_r = r@;
        if take_left {
            let x = left[i];
            proof {
                if j < right.len() {
                    if !(i < left.len() && j < right.len()) {
                    } else {
                        assert(x.precedes(right@[j as int]));
                    }
                }
                assert forall|a: int, b: int| 0 <= a < b < old_r.len() + 1 implies #[trigger] old_r.push(
                    x,
                )[a].precedes(#[trigger] old_r.push(x)[b]) by {
                    if b == old_r.len() && a < b {
                        if a < old_r.len() - 1 {
                            T::lemma_trans(old_r[a], old_r.last(), x);
                        }
                    }
                }
                assert(left@.subrange(0, i + 1) =~= left@.subrange(0, i as int).push(x));
                if i + 1 < left.len() {
                    assert(x.precedes(left@[i + 1]));
                }
            }
            r.push(x);
            i += 1;
        } else {
            let y = right[j];
            proof {
                if i < left.len() {
                    T::lemma_total(left@[i as int], y);
                }
                assert forall|a: int, b: int| 0 <= a < b < old_r.len() + 1 implies #[trigger] old_r.push(
                    y,
                )[a].precedes(#[trigger] old_r.push(y)[b]) by {
                    if b == old_r.len() && a < b {
                        if a < old_r.len() - 1 {
                            T::lemma_trans(old_r[a], old_r.last(), y);
                        }
                    }
                }
                assert(right@.subrange(0, j + 1) =~= right@.subrange(0, j as int).push(y));
                if j + 1 < right.len() {
                    assert(y.precedes(right@[j + 1]));
                }
            }
            r.push(y);
            j += 1;
        }
    }
    proof {
        assert(left@.subrange(0, i as int) =~= left@);
        assert(right@.subrange(0, j as int) =~= right@);
    }
    r
}

/// Sort `v` by its key order; the result is a sorted permutation of `v`.
pub fn merge_sort<T: SortKey>(v: Vec<T>) -> (r: Vec<T>)
    ensures
        sorted_by_key(r@),
        r@.to_multiset() == v@.to_multiset(),
        r@.len() == v@.len(),
    decreases v@.len(),
{
    let n = v.len();
    if n <= 1 {
        return v;
    }
    let mid = n / 2;
    let left = copy_range(&v, 0, mid);
    let right = copy_range(&v, mid, n);
    proof {
        assert(v@ =~= left@ + right@);
        vstd::seq_lib::lemma_multiset_commutative(left@, right@);
    }
    let sl = merge_sort(left);
    let sr = merge_sort(right);
    merge(sl, sr)
}

} // verus!
