//! Stable sorting by a strict weak order, as `slice::sort_by` does for the
//! orderings this crate uses.
use vstd::prelude::*;

verus! {

/// A type with a strict weak order: `before` is irreflexive, transitive, and
/// incomparability is transitive.
pub trait Ranked: Sized {
    /// `self` sorts strictly ahead of `other`.
    spec fn before(&self, other: &Self) -> bool;

    proof fn lemma_irreflexive(a: &Self)
        ensures
            !a.before(a),
    ;

    proof fn lemma_transitive(a: &Self, b: &Self, c: &Self)
        requires
            a.before(b),
            b.before(c),
        ensures
            a.before(c),
    ;

    /// If `a` is ahead of `c`, any `b` is ahead of `c` or behind `a`.
    proof fn lemma_split(a: &Self, b: &Self, c: &Self)
        requires
            a.before(c),
        ensures
            a.before(b) || b.before(c),
    ;

    fn precedes(&self, other: &Self) -> (r: bool)
        ensures
            r == self.before(other),
    ;
}

/// No element is strictly ahead of an earlier one.
pub open spec fn is_sorted<T: Ranked>(s: Seq<T>) -> bool {
    forall|i: int, j: int| #![trigger s[i], s[j]] 0 <= i < j < s.len() ==> !s[j].before(&s[i])
}

/// `r` holds the elements of `s` (`r[k]` is `s[perm[k]]`, each once), sorted,
/// with elements that compare equal in their input order.
pub open spec fn is_stable_sort_of<T: Ranked>(r: Seq<T>, s: Seq<T>, perm: Seq<int>) -> bool {
    &&& r.len() == s.len()
    &&& perm.len() == s.len()
    &&& forall|k: int| 0 <= k < r.len() ==> 0 <= #[trigger] perm[k] < s.len() && r[k] == s[perm[k]]
    &&& forall|k1: int, k2: int| 0 <= k1 < k2 < r.len() ==> #[trigger] perm[k1] != #[trigger] perm[k2]
    &&& is_sorted(r)
    &&& forall|k1: int, k2: int| #![trigger r[k1], r[k2]] 0 <= k1 < k2 < r.len() && !r[k1].before(&r[k2])
        ==> perm[k1] < perm[k2]
}

/// Sorts `v` stably: by `before`, ties kept in input order.
pub fn stable_sort<T: Ranked>(v: Vec<T>) -> (r: Vec<T>)
    ensures
        exists|perm: Seq<int>| is_stable_sort_of(r@, v@, perm),
{
    let ghost s = v@;
    let mut rest = v;
    let mut out: Vec<T> = Vec::new();
    let ghost mut perm: Seq<int> = Seq::empty();
    let mut i: usize = 0;
    let n = rest.len();
    while i < n
        invariant
            n == s.len(),
            i <= n,
            rest@ == s.skip(i as int),
            out@.len() == i,
            perm.len() == i,
            forall|k: int| 0 <= k < i ==> 0 <= #[trigger] perm[k] < i && out@[k] == s[perm[k]],
            forall|k1: int, k2: int| 0 <= k1 < k2 < i ==> #[trigger] perm[k1] != #[trigger] perm[k2],
            is_sorted(out@),
            forall|k1: int, k2: int| #![trigger out@[k1], out@[k2]] 0 <= k1 < k2 < i && !out@[k1].before(&out@[k2])
                ==> perm[k1] < perm[k2],
        decreases n - i,
    {
        let x = rest.remove(0);
        assert(x == s[i as int]);
        assert(rest@ =~= s.skip(i + 1));
        let mut p: usize = 0;
        while p < out.len() && !x.precedes(&out[p])
            invariant
                p <= out@.len(),
                forall|j: int| #![trigger out@[j]] 0 <= j < p ==> !x.before(&out@[j]),
            decreases out@.len() - p,
        {
            p = p + 1;
        }
        let ghost old_out = out@;
        let ghost old_perm = perm;
        proof {
            if p < old_out.len() {
                assert(x.before(&old_out[p as int]));
                assert forall|j: int| #![trigger old_out[j]] p <= j < old_out.len() implies x.before(&old_out[j]) by {
                    if j > p {
                        assert(!old_out[j].before(&old_out[p as int]));
                        T::lemma_split(&x, &old_out[j], &old_out[p as int]);
                    }
                }
                assert forall|j: int| #![trigger old_out[j]] p <= j < old_out.len() implies !old_out[j].before(&x) by {
                    if old_out[j].before(&x) {
                        T::lemma_transitive(&old_out[j], &x, &old_out[j]);
                        T::lemma_irreflexive(&old_out[j]);
                    }
                }
            }
        }
        out.insert(p, x);
        proof {
            perm = old_perm.insert(p as int, i as int);
            assert(out@ == old_out.insert(p as int, x));
            assert forall|k: int| 0 <= k < i + 1 implies 0 <= #[trigger] perm[k] < i + 1 && out@[k] == s[perm[k]] by {
                if k < p {
                    assert(perm[k] == old_perm[k]);
                } else if k > p {
                    assert(perm[k] == old_perm[k - 1]);
                }
            }
            assert forall|k1: int, k2: int| 0 <= k1 < k2 < i + 1 implies #[trigger] perm[k1] != #[trigger] perm[k2] by {
                if k1 != p && k2 != p {
                    let a = if k1 < p { k1 } else { k1 - 1 };
                    let b = if k2 < p { k2 } else { k2 - 1 };
                    assert(perm[k1] == old_perm[a] && perm[k2] == old_perm[b]);
                    assert(old_perm[a] != old_perm[b]);
                } else if k1 == p {
                    let b = k2 - 1;
                    assert(perm[k2] == old_perm[b]);
                    assert(old_perm[b] < i);
                } else {
                    let a = k1;
                    assert(perm[k1] == old_perm[a]);
                    assert(old_perm[a] < i);
                }
            }
            assert forall|a: int, b: int| #![trigger out@[a], out@[b]] 0 <= a < b < out@.len() implies !out@[b].before(&out@[a]) by {
                if a != p && b != p {
                    let a0 = if a < p { a } else { a - 1 };
                    let b0 = if b < p { b } else { b - 1 };
                    assert(out@[a] == old_out[a0] && out@[b] == old_out[b0]);
                } else if a == p {
                    assert(out@[b] == old_out[b - 1]);
                } else {
                    assert(out@[a] == old_out[a]);
                }
            }
            assert forall|k1: int, k2: int| #![trigger out@[k1], out@[k2]] 0 <= k1 < k2 < i + 1 && !out@[k1].before(&out@[k2])
                implies perm[k1] < perm[k2] by {
                if k1 != p && k2 != p {
                    let a0 = if k1 < p { k1 } else { k1 - 1 };
                    let b0 = if k2 < p { k2 } else { k2 - 1 };
                    assert(out@[k1] == old_out[a0] && out@[k2] == old_out[b0]);
                    assert(perm[k1] == old_perm[a0] && perm[k2] == old_perm[b0]);
                } else if k1 == p {
                    assert(out@[k2] == old_out[k2 - 1]);
                    assert(x.before(&old_out[k2 - 1]));
                } else {
                    assert(perm[k1] == old_perm[k1]);
                    assert(old_perm[k1] < i);
                }
            }
        }
        i = i + 1;
    }
    assert(is_stable_sort_of(out@, s, perm));
    out
}

/// An injective map of `0..n` into `0..n` reaches every index.
pub proof fn lemma_perm_onto(perm: Seq<int>, n: int, j: int)
    requires
        perm.len() == n,
        0 <= j < n,
        forall|k: int| 0 <= k < n ==> 0 <= #[trigger] perm[k] < n,
        forall|k1: int, k2: int| 0 <= k1 < k2 < n ==> #[trigger] perm[k1] != #[trigger] perm[k2],
    ensures
        exists|k: int| 0 <= k < n && perm[k] == j,
{
    if !(exists|k: int| 0 <= k < n && perm[k] == j) {
        let s = Set::new(|x: int| 0 <= x < n && x != j);
        let img = Set::new(|x: int| exists|k: int| 0 <= k < n && perm[k] == x);
        assert(img.subset_of(s));
        lemma_injective_image_len(perm, n);
        assert(s =~= vstd::set_lib::set_int_range(0, n).remove(j));
        vstd::set_lib::lemma_int_range(0, n);
        vstd::set_lib::lemma_len_subset(img, s);
        assert(false);
    }
}

/// The image of an injective map on `0..n` has `n` elements.
proof fn lemma_injective_image_len(perm: Seq<int>, n: int)
    requires
        perm.len() == n,
        n >= 0,
        forall|k1: int, k2: int| 0 <= k1 < k2 < n ==> #[trigger] perm[k1] != #[trigger] perm[k2],
    ensures
        Set::new(|x: int| exists|k: int| 0 <= k < n && perm[k] == x).finite(),
        Set::new(|x: int| exists|k: int| 0 <= k < n && perm[k] == x).len() == n,
    decreases n,
{
    let img = Set::new(|x: int| exists|k: int| 0 <= k < n && perm[k] == x);
    if n == 0 {
        assert(img =~= Set::<int>::empty());
    } else {
        let p = perm.drop_last();
        lemma_injective_image_len(p, n - 1);
        let prev = Set::new(|x: int| exists|k: int| 0 <= k < n - 1 && p[k] == x);
        assert(img =~= prev.insert(perm[n - 1])) by {
            assert forall|x: int| img.contains(x) implies prev.insert(perm[n - 1]).contains(x) by {
                let k = choose|k: int| 0 <= k < n && perm[k] == x;
                if k < n - 1 {
                    assert(p[k] == x);
                }
            }
            assert forall|x: int| prev.contains(x) implies img.contains(x) by {
                let k = choose|k: int| 0 <= k < n - 1 && p[k] == x;
                assert(perm[k] == x);
            }
        }
        assert(!prev.contains(perm[n - 1])) by {
            if prev.contains(perm[n - 1]) {
                let k = choose|k: int| 0 <= k < n - 1 && p[k] == perm[n - 1];
                assert(perm[k] != perm[n - 1]);
            }
        }
    }
}

} // verus!
