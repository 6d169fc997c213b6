//! Duplicate-free vectors of artifact ids, used as executable finite sets.

use vstd::prelude::*;

verus! {

/// The set of ids that a vector of ids holds.
pub open spec fn id_set(s: Seq<usize>) -> Set<int> {
    Set::new(|j: int| exists|k: int| 0 <= k < s.len() && s[k] == j)
}

/// The set of all ids below `n`.
pub open spec fn below(n: int) -> Set<int> {
    Set::new(|j: int| 0 <= j < n)
}

pub proof fn lemma_id_set_len(s: Seq<usize>)
    ensures
        id_set(s).finite(),
        id_set(s).len() <= s.len(),
        s.no_duplicates() ==> id_set(s).len() == s.len(),
    decreases s.len(),
{
    if s.len() == 0 {
        assert(id_set(s) =~= Set::<int>::empty());
    } else {
        let prefix = s.drop_last();
        lemma_id_set_len(prefix);
        assert(id_set(s) =~= id_set(prefix).insert(s.last() as int)) by {
            assert forall|j: int| id_set(s).contains(j) implies id_set(prefix).insert(
                s.last() as int,
            ).contains(j) by {
                let k = choose|k: int| 0 <= k < s.len() && s[k] == j;
                if k < s.len() - 1 {
                    assert(prefix[k] == j);
                }
            }
            assert forall|j: int|
                id_set(prefix).insert(s.last() as int).contains(j) implies id_set(s).contains(
                j,
            ) by {
                if id_set(prefix).contains(j) {
                    let k = choose|k: int| 0 <= k < prefix.len() && prefix[k] == j;
                    assert(s[k] == j);
                } else {
                    assert(s[s.len() - 1] == j);
                }
            }
        }
        if s.no_duplicates() {
            assert(prefix.no_duplicates());
            assert(!id_set(prefix).contains(s.last() as int)) by {
                assert forall|k: int| 0 <= k < prefix.len() implies prefix[k] != s.last() by {
                    assert(s[k] != s[s.len() - 1]);
                }
            }
        }
    }
}

pub proof fn lemma_id_set_push(s: Seq<usize>, x: usize)
    ensures
        id_set(s.push(x)) =~= id_set(s).insert(x as int),
{
    let t = s.push(x);
    assert forall|j: int| id_set(t).contains(j) implies id_set(s).insert(x as int).contains(j) by {
        let k = choose|k: int| 0 <= k < t.len() && t[k] == j;
        if k < s.len() {
            assert(s[k] == j);
        }
    }
    assert forall|j: int| id_set(s).insert(x as int).contains(j) implies id_set(t).contains(j) by {
        if id_set(s).contains(j) {
            let k = choose|k: int| 0 <= k < s.len() && s[k] == j;
            assert(t[k] == j);
        } else {
            assert(t[s.len() as int] == j);
        }
    }
}

pub proof fn lemma_below_len(n: int)
    requires
        n >= 0,
    ensures
        below(n).finite(),
        below(n).len() == n,
    decreases n,
{
    if n == 0 {
        assert(below(0) =~= Set::<int>::empty());
    } else {
        lemma_below_len(n - 1);
        assert(below(n) =~= below(n - 1).insert(n - 1));
    }
}

/// Whether `v` holds `x`.
pub fn holds_id(v: &Vec<usize>, x: usize) -> (r: bool)
    ensures
        r == id_set(v@).contains(x as int),
{
    let n = v.len();
    let mut i: usize = 0;
    while i < n
        invariant
            n == v@.len(),
            forall|k: int| 0 <= k < i ==> v@[k] != x,
        decreases n - i,
    {
        if v[i] == x {
            assert(id_set(v@).contains(x as int)) by {
                assert(v@[i as int] == x);
            }
            return true;
        }
        i = i + 1;
    }
    assert(!id_set(v@).contains(x as int));
    false
}

/// Pushes `x` unless it is already present.
pub fn push_if_absent(v: &mut Vec<usize>, x: usize)
    requires
        old(v)@.no_duplicates(),
    ensures
        final(v)@.no_duplicates(),
        id_set(final(v)@) =~= id_set(old(v)@).insert(x as int),
        final(v)@.len() <= old(v)@.len() + 1,
        forall|j: int| 0 <= j < final(v)@.len() ==> (final(v)@[j] == x || old(v)@.contains(
            final(v)@[j],
        )),
{
    let present = holds_id(v, x);
    if !present {
        let ghost prior = v@;
        v.push(x);
        assert(v@.drop_last() =~= prior);
        assert(v@.no_duplicates()) by {
            assert(forall|k: int| 0 <= k < prior.len() ==> prior[k] != x);
        }
        proof {
            assert(v@ =~= prior.push(x));
            lemma_id_set_push(prior, x);
        }
        assert(forall|j: int| 0 <= j < v@.len() - 1 ==> prior.contains(#[trigger] v@[j]));
    } else {
        assert(id_set(v@) =~= id_set(v@).insert(x as int));
        assert(forall|j: int| 0 <= j < v@.len() ==> v@.contains(#[trigger] v@[j]));
    }
}

/// Concatenation unions the id sets.
pub proof fn lemma_id_set_concat(a: Seq<usize>, b: Seq<usize>)
    ensures
        id_set(a + b) =~= id_set(a).union(id_set(b)),
{
    assert forall|j: int| id_set(a + b).contains(j) implies id_set(a).union(id_set(b)).contains(
        j,
    ) by {
        let k = choose|k: int| 0 <= k < (a + b).len() && (a + b)[k] == j;
        if k < a.len() {
            assert(a[k] == j);
        } else {
            assert(b[k - a.len()] == j);
        }
    }
    assert forall|j: int| id_set(a).union(id_set(b)).contains(j) implies id_set(a + b).contains(
        j,
    ) by {
        if id_set(a).contains(j) {
            let k = choose|k: int| 0 <= k < a.len() && a[k] == j;
            assert((a + b)[k] == j);
        } else {
            let k = choose|k: int| 0 <= k < b.len() && b[k] == j;
            assert((a + b)[a.len() + k] == j);
        }
    }
}

/// Removing the entry at `idx` removes exactly that id from the set.
pub proof fn lemma_id_set_remove_at(s: Seq<usize>, idx: int)
    requires
        s.no_duplicates(),
        0 <= idx < s.len(),
    ensures
        s.remove(idx).no_duplicates(),
        id_set(s.remove(idx)) =~= id_set(s).remove(s[idx] as int),
{
    let t = s.remove(idx);
    assert(t.len() == s.len() - 1);
    assert forall|k: int| 0 <= k < t.len() implies t[k] == (if k < idx {
        s[k]
    } else {
        s[k + 1]
    }) by {}
    assert forall|a: int, b: int| 0 <= a < t.len() && 0 <= b < t.len() && a != b implies t[a]
        != t[b] by {
        let sa = if a < idx {
            a
        } else {
            a + 1
        };
        let sb = if b < idx {
            b
        } else {
            b + 1
        };
        assert(t[a] == s[sa] && t[b] == s[sb] && sa != sb);
    }
    assert forall|j: int| id_set(t).contains(j) implies id_set(s).remove(s[idx] as int).contains(
        j,
    ) by {
        let k = choose|k: int| 0 <= k < t.len() && t[k] == j;
        let sk = if k < idx {
            k
        } else {
            k + 1
        };
        assert(s[sk] == j);
        assert(s[sk] != s[idx]);
    }
    assert forall|j: int| id_set(s).remove(s[idx] as int).contains(j) implies id_set(t).contains(
        j,
    ) by {
        let k = choose|k: int| 0 <= k < s.len() && s[k] == j;
        assert(k != idx);
        if k < idx {
            assert(t[k] == j);
        } else {
            assert(t[k - 1] == j);
        }
    }
}

/// Appends `w` to `v`; the two must be duplicate-free and disjoint.
pub fn append_ids(v: &mut Vec<usize>, w: &Vec<usize>)
    requires
        old(v)@.no_duplicates(),
        w@.no_duplicates(),
        id_set(old(v)@).disjoint(id_set(w@)),
    ensures
        final(v)@ == old(v)@ + w@,
        final(v)@.no_duplicates(),
        id_set(final(v)@) =~= id_set(old(v)@).union(id_set(w@)),
{
    let n = w.len();
    let mut i: usize = 0;
    while i < n
        invariant
            n == w@.len(),
            i <= n,
            old(v)@.no_duplicates(),
            w@.no_duplicates(),
            id_set(old(v)@).disjoint(id_set(w@)),
            v@ == old(v)@ + w@.take(i as int),
            v@.no_duplicates(),
            id_set(v@) =~= id_set(old(v)@).union(id_set(w@.take(i as int))),
        decreases n - i,
    {
        let ghost prev = v@;
        let x = w[i];
        proof {
            assert(id_set(w@).contains(x as int)) by {
                assert(w@[i as int] == x);
            }
            assert(!id_set(old(v)@).contains(x as int));
            assert forall|k: int| 0 <= k < prev.len() implies prev[k] != x by {
                if k < old(v)@.len() {
                    assert(!id_set(old(v)@).contains(x as int));
                    assert(old(v)@[k] == prev[k]);
                    if prev[k] == x {
                        assert(id_set(old(v)@).contains(x as int)) by {
                            assert(old(v)@[k] == x);
                        }
                    }
                } else {
                    let k2 = k - old(v)@.len();
                    assert(prev[k] == w@.take(i as int)[k2]);
                    assert(w@[k2] != w@[i as int]);
                }
            }
        }
        v.push(x);
        proof {
            assert(v@ =~= prev.push(x));
            assert(v@ =~= old(v)@ + w@.take(i + 1));
            lemma_id_set_push(prev, x);
            assert(w@.take(i + 1) =~= w@.take(i as int).push(x));
            lemma_id_set_push(w@.take(i as int), x);
            assert(v@.drop_last() =~= prev);
        }
        i = i + 1;
    }
    proof {
        assert(w@.take(n as int) =~= w@);
    }
}
pub fn diff_ids(a: &Vec<usize>, b: &Vec<usize>) -> (r: Vec<usize>)
    requires
        a@.no_duplicates(),
    ensures
        r@.no_duplicates(),
        id_set(r@) =~= id_set(a@).difference(id_set(b@)),
        forall|j: int| 0 <= j < r@.len() ==> a@.contains(#[trigger] r@[j]),
        r@.len() <= a@.len(),
{
    let n = a.len();
    let mut r: Vec<usize> = Vec::new();
    let mut i: usize = 0;
    while i < n
        invariant
            n == a@.len(),
            i <= n,
            a@.no_duplicates(),
            r@.no_duplicates(),
            r@.len() <= i,
            id_set(r@) =~= id_set(a@.take(i as int)).difference(id_set(b@)),
            forall|j: int| 0 <= j < r@.len() ==> a@.take(i as int).contains(#[trigger] r@[j]),
        decreases n - i,
    {
        let ghost prev = r@;
        let x = a[i];
        let inb = holds_id(b, x);
        if !inb {
            r.push(x);
            assert(r@.no_duplicates()) by {
                assert(r@.drop_last() =~= prev);
                assert forall|k: int| 0 <= k < prev.len() implies prev[k] != x by {
                    let m = choose|m: int| 0 <= m < i && a@.take(i as int)[m] == prev[k];
                    assert(a@[m] == prev[k]);
                    assert(a@[i as int] == x);
                }
            }
            proof {
                lemma_id_set_push(prev, x);
            }
        }
        proof {
            assert(a@.take(i + 1) =~= a@.take(i as int).push(x));
            lemma_id_set_push(a@.take(i as int), x);
        }
        assert(id_set(r@) =~= id_set(a@.take(i + 1)).difference(id_set(b@)));
        assert(forall|j: int| 0 <= j < r@.len() ==> a@.take(i + 1).contains(#[trigger] r@[j])) by {
            assert forall|j: int| 0 <= j < r@.len() implies a@.take(i + 1).contains(
                #[trigger] r@[j],
            ) by {
                if j < prev.len() {
                    let m = choose|m: int| 0 <= m < i && a@.take(i as int)[m] == prev[j];
                    assert(a@.take(i + 1)[m] == r@[j]);
                } else {
                    assert(a@.take(i + 1)[i as int] == r@[j]);
                }
            }
        }
        i = i + 1;
    }
    assert(a@.take(n as int) =~= a@);
    r
}

/// The vector `[0, 1, ..., n - 1]`.
pub fn range_ids(n: usize) -> (r: Vec<usize>)
    ensures
        r@.len() == n,
        forall|j: int| 0 <= j < n ==> r@[j] == j,
        r@.no_duplicates(),
        id_set(r@) =~= below(n as int),
{
    let mut r: Vec<usize> = Vec::new();
    let mut i: usize = 0;
    while i < n
        invariant
            i <= n,
            r@.len() == i,
            forall|j: int| 0 <= j < i ==> r@[j] == j,
        decreases n - i,
    {
        r.push(i);
        i = i + 1;
    }
    assert(r@.no_duplicates());
    assert(id_set(r@) =~= below(n as int)) by {
        assert forall|j: int| below(n as int).contains(j) implies id_set(r@).contains(j) by {
            assert(r@[j] == j);
        }
    }
    r
}

} // verus!
