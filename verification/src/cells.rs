//! Finite sets of cell ids, represented as duplicate-free `Vec<usize>`.
//!
//! The solver's hints carry such vectors; all operations state their result
//! over the mathematical set `v@.to_set()` of the vector's elements.

use vstd::prelude::*;

verus! {

broadcast use vstd::seq_lib::lemma_seq_contains_after_push;

/// True exactly when `x` occurs in `v`.
pub fn vec_contains(v: &Vec<usize>, x: usize) -> (r: bool)
    ensures
        r == v@.contains(x),
{
    let mut i: usize = 0;
    while i < v.len()
        invariant
            i <= v@.len(),
            forall|k: int| 0 <= k < i ==> v@[k] != x,
        decreases v@.len() - i,
    {
        if v[i] == x {
            return true;
        }
        i += 1;
    }
    false
}

/// True exactly when every element of `a` also occurs in `b`.
pub fn is_subset(a: &Vec<usize>, b: &Vec<usize>) -> (r: bool)
    ensures
        r == a@.to_set().subset_of(b@.to_set()),
{
    let mut i: usize = 0;
    while i < a.len()
        invariant
            i <= a@.len(),
            forall|k: int| 0 <= k < i ==> b@.contains(#[trigger] a@[k]),
        decreases a@.len() - i,
    {
        if !vec_contains(b, a[i]) {
            assert(a@.to_set().contains(a@[i as int]));
            return false;
        }
        i += 1;
    }
    assert forall|e: usize| a@.to_set().contains(e) implies b@.to_set().contains(e) by {
        let k = choose|k: int| 0 <= k < a@.len() && a@[k] == e;
        assert(b@.contains(a@[k]));
    };
    true
}

/// True exactly when `a` and `b` hold the same set of elements.
pub fn set_eq(a: &Vec<usize>, b: &Vec<usize>) -> (r: bool)
    ensures
        r == (a@.to_set() == b@.to_set()),
{
    let r = is_subset(a, b) && is_subset(b, a);
    proof {
        if r {
            assert(a@.to_set() =~= b@.to_set());
        }
    }
    r
}

/// The elements of `a` that do not occur in `b`, each once.
pub fn set_diff(a: &Vec<usize>, b: &Vec<usize>) -> (r: Vec<usize>)
    requires
        a@.no_duplicates(),
    ensures
        r@.no_duplicates(),
        r@.to_set() == a@.to_set().difference(b@.to_set()),
        r@.len() <= a@.len(),
{
    let mut r: Vec<usize> = Vec::new();
    let mut i: usize = 0;
    while i < a.len()
        invariant
            i <= a@.len(),
            a@.no_duplicates(),
            r@.no_duplicates(),
            r@.len() <= i,
            forall|e: usize| r@.contains(e) <==> (#[trigger] a@.take(i as int).contains(e)
                && !b@.contains(e)),
        decreases a@.len() - i,
    {
        let x = a[i];
        proof {
            assert(a@.take(i as int + 1) =~= a@.take(i as int).push(x));
            assert(forall|k: int| 0 <= k < i ==> a@[k] != x);
            assert(!a@.take(i as int).contains(x));
        }
        if !vec_contains(b, x) {
            let ghost old_r = r@;
            r.push(x);
            proof {
                assert(r@ == old_r.push(x));
                assert forall|e: usize|
                    r@.contains(e) <==> (a@.take(i as int + 1).contains(e) && !b@.contains(e)) by {
                    assert(r@.contains(e) <==> old_r.contains(e) || e == x);
                    assert(a@.take(i as int + 1).contains(e) <==> a@.take(i as int).contains(e)
                        || e == x);
                }
            }
        } else {
            proof {
                assert forall|e: usize|
                    r@.contains(e) <==> (a@.take(i as int + 1).contains(e) && !b@.contains(e)) by {
                    assert(a@.take(i as int + 1).contains(e) <==> a@.take(i as int).contains(e)
                        || e == x);
                }
            }
        }
        i += 1;
    }
    proof {
        assert(a@.take(a@.len() as int) =~= a@);
        assert forall|e: usize|
            r@.to_set().contains(e) == a@.to_set().difference(b@.to_set()).contains(e) by {
            assert(a@.take(a@.len() as int).contains(e) == a@.contains(e));
        }
        assert(r@.to_set() =~= a@.to_set().difference(b@.to_set()));
    }
    r
}

/// The elements of `a` that also occur in `b`, each once.
pub fn set_intersect(a: &Vec<usize>, b: &Vec<usize>) -> (r: Vec<usize>)
    requires
        a@.no_duplicates(),
    ensures
        r@.no_duplicates(),
        r@.to_set() == a@.to_set().intersect(b@.to_set()),
        r@.len() <= a@.len(),
{
    let mut r: Vec<usize> = Vec::new();
    let mut i: usize = 0;
    while i < a.len()
        invariant
            i <= a@.len(),
            a@.no_duplicates(),
            r@.no_duplicates(),
            r@.len() <= i,
            forall|e: usize| r@.contains(e) <==> (#[trigger] a@.take(i as int).contains(e)
                && b@.contains(e)),
        decreases a@.len() - i,
    {
        let x = a[i];
        proof {
            assert(a@.take(i as int + 1) =~= a@.take(i as int).push(x));
            assert(forall|k: int| 0 <= k < i ==> a@[k] != x);
            assert(!a@.take(i as int).contains(x));
        }
        if vec_contains(b, x) {
            let ghost old_r = r@;
            r.push(x);
            proof {
                assert(r@ == old_r.push(x));
                assert forall|e: usize|
                    r@.contains(e) <==> (a@.take(i as int + 1).contains(e) && b@.contains(e)) by {
                    assert(r@.contains(e) <==> old_r.contains(e) || e == x);
                    assert(a@.take(i as int + 1).contains(e) <==> a@.take(i as int).contains(e)
                        || e == x);
                }
            }
        } else {
            proof {
                assert forall|e: usize|
                    r@.contains(e) <==> (a@.take(i as int + 1).contains(e) && b@.contains(e)) by {
                    assert(a@.take(i as int + 1).contains(e) <==> a@.take(i as int).contains(e)
                        || e == x);
                }
            }
        }
        i += 1;
    }
    proof {
        assert(a@.take(a@.len() as int) =~= a@);
        assert forall|e: usize|
            r@.to_set().contains(e) == a@.to_set().intersect(b@.to_set()).contains(e) by {
            assert(a@.take(a@.len() as int).contains(e) == a@.contains(e));
        }
        assert(r@.to_set() =~= a@.to_set().intersect(b@.to_set()));
    }
    r
}

/// Appends `c` unless it is already present, keeping the vector
/// duplicate-free.
pub fn push_unique(v: &mut Vec<usize>, c: usize)
    requires
        old(v)@.no_duplicates(),
    ensures
        final(v)@.no_duplicates(),
        forall|e: usize| final(v)@.contains(e) <==> (old(v)@.contains(e) || e == c),
{
    if !vec_contains(v, c) {
        let ghost before = v@;
        v.push(c);
        proof {
            assert(v@ == before.push(c));
            assert forall|k1: int, k2: int|
                0 <= k1 < v@.len() && 0 <= k2 < v@.len() && k1 != k2 implies v@[k1] != v@[k2] by {
                if k1 == before.len() && v@[k2] == c {
                    assert(before[k2] == c);
                    assert(before.contains(c));
                }
                if k2 == before.len() && v@[k1] == c {
                    assert(before[k1] == c);
                    assert(before.contains(c));
                }
            }
        }
    }
}

/// A duplicate-free sequence has as many entries as its set has elements.
pub proof fn lemma_unique_len(s: Seq<usize>)
    requires
        s.no_duplicates(),
    ensures
        s.to_set().len() == s.len(),
        s.to_set().finite(),
{
    s.unique_seq_to_set();
    vstd::seq_lib::seq_to_set_is_finite(s);
}

/// A duplicate-free sequence of cell ids below `bound` has at most
/// `bound` entries.
pub proof fn lemma_bounded_unique_len(s: Seq<usize>, bound: usize)
    requires
        s.no_duplicates(),
        forall|k: int| 0 <= k < s.len() ==> (#[trigger] s[k]) < bound,
    ensures
        s.len() <= bound,
{
    let si = s.map_values(|u: usize| u as int);
    assert(si.no_duplicates()) by {
        assert forall|i: int, j: int|
            0 <= i < si.len() && 0 <= j < si.len() && i != j implies si[i] != si[j] by {
            assert(si[i] == s[i] as int && si[j] == s[j] as int);
        }
    }
    si.unique_seq_to_set();
    let range = vstd::set_lib::set_int_range(0, bound as int);
    assert(si.to_set().subset_of(range)) by {
        assert forall|e: int| si.to_set().contains(e) implies range.contains(e) by {
            let k = choose|k: int| 0 <= k < si.len() && si[k] == e;
            assert(si[k] == s[k] as int && s[k] < bound);
        }
    }
    vstd::set_lib::lemma_int_range(0, bound as int);
    vstd::set_lib::lemma_len_subset(si.to_set(), range);
}

/// A subset with as many elements as its finite superset is that superset.
pub proof fn lemma_subset_equal_len(a: Set<usize>, b: Set<usize>)
    requires
        a.subset_of(b),
        b.finite(),
        a.len() == b.len(),
    ensures
        a == b,
{
    vstd::set_lib::lemma_len_subset(a, b);
    vstd::set_lib::lemma_set_difference_len(b, a);
    assert(b.intersect(a) =~= a);
    assert(b.difference(a).len() == 0);
    assert(b.difference(a).finite()) by {
        vstd::set_lib::lemma_len_subset(b.difference(a), b);
    }
    b.difference(a).lemma_len0_is_empty();
    assert forall|e: usize| b.contains(e) implies a.contains(e) by {
        if !a.contains(e) {
            assert(b.difference(a).contains(e));
        }
    }
    assert(a =~= b);
}

/// A subset never has more elements than its superset.
pub proof fn lemma_subset_len(a: Set<usize>, b: Set<usize>)
    requires
        a.subset_of(b),
        b.finite(),
    ensures
        a.finite(),
        a.len() <= b.len(),
{
    vstd::set_lib::lemma_len_subset(a, b);
}

} // verus!
