//! Verified merge sort by a total preorder on keys.
use vstd::prelude::*;
use vstd::seq_lib::lemma_multiset_commutative;

verus! {

broadcast use vstd::seq_lib::group_to_multiset_ensures;

/// A total preorder used to sort values by key.
pub trait KeyOrder: Sized + Copy {
    /// `self` sorts no later than `other`.
    spec fn sorts_before(self, other: Self) -> bool;

    /// Any two values are comparable.
    proof fn lemma_total(a: Self, b: Self)
        ensures
            a.sorts_before(b) || b.sorts_before(a),
    ;

    /// The order is transitive.
    proof fn lemma_trans(a: Self, b: Self, c: Self)
        requires
            a.sorts_before(b),
            b.sorts_before(c),
        ensures
            a.sorts_before(c),
    ;

    /// The order is antisymmetric.
    proof fn lemma_antisym(a: Self, b: Self)
        requires
            a.sorts_before(b),
            b.sorts_before(a),
        ensures
            a == b,
    ;

    /// Executable comparison.
    fn key_le(&self, other: &Self) -> (r: bool)
        ensures
            r == self.sorts_before(*other),
    ;

    /// Executable equality.
    fn same(&self, other: &Self) -> (r: bool)
        ensures
            r == (*self == *other),
    ;
}

/// `s` is sorted by the key order.
pub open spec fn sorted_by_key<T: KeyOrder>(s: Seq<T>) -> bool {
    forall|i: int, j: int| 0 <= i < j < s.len() ==> (#[trigger] s[i]).sorts_before(#[trigger] s[j])
}

fn copy_range<T: Copy>(v: &Vec<T>, lo: usize, hi: usize) -> (r: Vec<T>)
    requires
        lo <= hi <= v@.len(),
    ensures
        r@ == v@.subrange(lo as int, hi as int),
{
    let mut r: Vec<T> = Vec::with_capacity(hi - lo);
    let mut i = lo;
    while i < hi
        invariant
            lo <= i <= hi,
            hi <= v@.len(),
            r@ == v@.subrange(lo as int, i as int),
        decreases hi - i,
    {
        r.push(v[i]);
        proof {
            assert(v@.subrange(lo as int, i as int + 1) =~= v@.subrange(lo as int, i as int).push(
                v@[i as int],
            ));
        }
        i += 1;
    }
    r
}

proof fn lemma_push_sorted<T: KeyOrder>(r: Seq<T>, x: T)
    requires
        sorted_by_key(r),
        r.len() > 0 ==> r.last().sorts_before(x),
    ensures
        sorted_by_key(r.push(x)),
{
    let s = r.push(x);
    assert forall|i: int, j: int| 0 <= i < j < s.len() implies (#[trigger] s[i]).sorts_before(
        #[trigger] s[j],
    ) by {
        if j == s.len() - 1 {
            if i < r.len() - 1 {
                T::lemma_trans(r[i], r.last(), x);
            }
        } else {
            assert(s[i] == r[i] && s[j] == r[j]);
        }
    }
}

fn merge<T: KeyOrder>(a: &Vec<T>, b: &Vec<T>) -> (r: Vec<T>)
    requires
        sorted_by_key(a@),
        sorted_by_key(b@),
    ensures
        sorted_by_key(r@),
        r@.to_multiset() == a@.to_multiset().add(b@.to_multiset()),
        r@.len() == a@.len() + b@.len(),
{
    let mut r: Vec<T> = Vec::new();
    let mut i: usize = 0;
    let mut j: usize = 0;
    while i < a.len() || j < b.len()
        invariant
            i <= a@.len(),
            j <= b@.len(),
            sorted_by_key(a@),
            sorted_by_key(b@),
            sorted_by_key(r@),
            r@.len() == i + j,
            r@.to_multiset() == a@.take(i as int).to_multiset().add(b@.take(j as int).to_multiset()),
            r@.len() > 0 && i < a@.len() ==> r@.last().sorts_before(a@[i as int]),
            r@.len() > 0 && j < b@.len() ==> r@.last().sorts_before(b@[j as int]),
        decreases a@.len() + b@.len() - i - j,
    {
        let take_a = if i < a.len() && j < b.len() {
            a[i].key_le(&b[j])
        } else {
            i < a.len()
        };
        if take_a {
            let x = a[i];
            proof {
                lemma_push_sorted(r@, x);
                assert(a@.take(i as int + 1) =~= a@.take(i as int).push(x));
                if j < b@.len() && !(i < a@.len() && j < b@.len()) {
                } else if j < b@.len() {
                } 
                if i + 1 < a@.len() {
                    assert(a@[i as int].sorts_before(a@[i as int + 1]));
                }
                if j < b@.len() {
                    assert(x.sorts_before(b@[j as int]));
                }
            }
            r.push(x);
            proof {
                assert(r@.to_multiset() =~= a@.take(i as int + 1).to_multiset().add(
                    b@.take(j as int).to_multiset(),
                ));
            }
            i += 1;
        } else {
            let x = b[j];
            proof {
                if i < a@.len() {
                    T::lemma_total(a@[i as int], x);
                }
                lemma_push_sorted(r@, x);
                assert(b@.take(j as int + 1) =~= b@.take(j as int).push(x));
                if j + 1 < b@.len() {
                    assert(b@[j as int].sorts_before(b@[j as int + 1]));
                }
            }
            r.push(x);
            proof {
                assert(r@.to_multiset() =~= a@.take(i as int).to_multiset().add(
                    b@.take(j as int + 1).to_multiset(),
                ));
            }
            j += 1;
        }
    }
    proof {
        assert(a@.take(i as int) =~= a@);
        assert(b@.take(j as int) =~= b@);
    }
    r
}

/// Sorts by the key order (merge sort); the result is a permutation of the input.
pub fn merge_sort<T: KeyOrder>(v: &Vec<T>) -> (r: Vec<T>)
    ensures
        sorted_by_key(r@),
        r@.to_multiset() == v@.to_multiset(),
        r@.len() == v@.len(),
    decreases v@.len(),
{
    let n = v.len();
    if n <= 1 {
        let r = copy_range(v, 0, n);
        proof {
            assert(r@ =~= v@);
        }
        return r;
    }
    let mid = n / 2;
    let left = copy_range(v, 0, mid);
    let right = copy_range(v, mid, n);
    let sl = merge_sort(&left);
    let sr = merge_sort(&right);
    let r = merge(&sl, &sr);
    proof {
        assert(v@ =~= left@ + right@);
        lemma_multiset_commutative(left@, right@);
    }
    r
}

} // verus!
verus! {

impl KeyOrder for usize {
    open spec fn sorts_before(self, other: Self) -> bool {
        self <= other
    }

    proof fn lemma_total(a: Self, b: Self) {
    }

    proof fn lemma_trans(a: Self, b: Self, c: Self) {
    }

    proof fn lemma_antisym(a: Self, b: Self) {
    }

    fn key_le(&self, other: &Self) -> (r: bool) {
        *self <= *other
    }

    fn same(&self, other: &Self) -> (r: bool) {
        *self == *other
    }
}

} // verus!
