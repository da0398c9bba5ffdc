//! The ordered set of composite keys behind every secondary index.
//!
//! Keys are triples `(group, rank, tie)` compared lexicographically and kept
//! in a strictly sorted vector. Point operations and a bounded ascending
//! range scan are exact: the scan returns precisely [`page_of`] of the key
//! sequence. Descending recency order is obtained by writing rank fields
//! through the order-reversing transform [`rev_rank`].

use vstd::prelude::*;

verus! {

/// A composite index key: a grouping criterion, a (possibly reversed) rank,
/// and a tiebreaker, compared lexicographically.
#[derive(Clone, Copy, Debug, PartialEq, Eq, Structural)]
pub struct Key3 {
    pub group: u64,
    pub rank: u64,
    pub tie: u64,
}

/// The order-reversing transform on ranks: ascending order over transformed
/// ranks equals descending order over logical ranks. It is an involution,
/// part of the documented key encoding of the indexes.
pub open spec fn spec_rev_rank(x: u64) -> u64 {
    (u64::MAX - x) as u64
}

/// Executable form of [`spec_rev_rank`].
#[verifier::when_used_as_spec(spec_rev_rank)]
pub fn rev_rank(x: u64) -> (r: u64)
    ensures
        r == spec_rev_rank(x),
{
    u64::MAX - x
}

/// Strict lexicographic order on keys.
pub open spec fn key_lt(a: Key3, b: Key3) -> bool {
    ||| a.group < b.group
    ||| (a.group == b.group && a.rank < b.rank)
    ||| (a.group == b.group && a.rank == b.rank && a.tie < b.tie)
}

/// Reflexive lexicographic order on keys.
pub open spec fn key_le(a: Key3, b: Key3) -> bool {
    key_lt(a, b) || a == b
}

/// Executable form of [`key_le`].
pub fn key_le_exec(a: &Key3, b: &Key3) -> (r: bool)
    ensures
        r == key_le(*a, *b),
{
    if a.group != b.group {
        a.group < b.group
    } else if a.rank != b.rank {
        a.rank < b.rank
    } else {
        a.tie <= b.tie
    }
}

/// Executable form of [`key_lt`].
pub fn key_lt_exec(a: &Key3, b: &Key3) -> (r: bool)
    ensures
        r == key_lt(*a, *b),
{
    if a.group != b.group {
        a.group < b.group
    } else if a.rank != b.rank {
        a.rank < b.rank
    } else {
        a.tie < b.tie
    }
}

/// Whether a sequence of keys is strictly ascending.
pub open spec fn sorted(s: Seq<Key3>) -> bool {
    forall|i: int, j: int| 0 <= i < j < s.len() ==> key_lt(#[trigger] s[i], #[trigger] s[j])
}

/// Whether `k` lies in the inclusive range `[lo, hi]`.
pub open spec fn in_range(k: Key3, lo: Key3, hi: Key3) -> bool {
    key_le(lo, k) && key_le(k, hi)
}

/// Executable form of [`in_range`].
pub fn in_range_exec(k: &Key3, lo: &Key3, hi: &Key3) -> (r: bool)
    ensures
        r == in_range(*k, *lo, *hi),
{
    key_le_exec(lo, k) && key_le_exec(k, hi)
}

/// The subsequence of `s` whose keys lie in the inclusive range `[lo, hi]`,
/// in the order of `s`.
pub open spec fn restrict(s: Seq<Key3>, lo: Key3, hi: Key3) -> Seq<Key3>
    decreases s.len(),
{
    if s.len() == 0 {
        Seq::empty()
    } else if in_range(s.last(), lo, hi) {
        restrict(s.drop_last(), lo, hi).push(s.last())
    } else {
        restrict(s.drop_last(), lo, hi)
    }
}

/// One page of a range scan: the restriction of `s` to `[lo, hi]`, truncated
/// to `limit` entries. A `limit` of exactly zero means "no limit" and yields
/// the full restriction.
pub open spec fn page_of(s: Seq<Key3>, lo: Key3, hi: Key3, limit: usize) -> Seq<Key3> {
    let full = restrict(s, lo, hi);
    if limit == 0 || full.len() <= limit {
        full
    } else {
        full.take(limit as int)
    }
}

/// Membership in a restriction: exactly the members of `s` inside the range.
pub proof fn lemma_restrict_contains(s: Seq<Key3>, lo: Key3, hi: Key3, k: Key3)
    ensures
        restrict(s, lo, hi).contains(k) <==> (s.contains(k) && in_range(k, lo, hi)),
    decreases s.len(),
{
    if s.len() == 0 {
        assert(!s.contains(k));
    } else {
        let dl = s.drop_last();
        lemma_restrict_contains(dl, lo, hi, k);
        assert(s.contains(k) <==> (dl.contains(k) || s.last() == k)) by {
            if s.contains(k) {
                let i = choose|i: int| 0 <= i < s.len() && s[i] == k;
                if i < s.len() - 1 {
                    assert(dl[i] == k);
                }
            }
            if dl.contains(k) {
                let i = choose|i: int| 0 <= i < dl.len() && dl[i] == k;
                assert(s[i] == k);
            }
            assert(s[s.len() - 1] == s.last());
        }
        let r = restrict(dl, lo, hi);
        if in_range(s.last(), lo, hi) {
            assert(restrict(s, lo, hi) == r.push(s.last()));
            assert(r.push(s.last()).contains(k) <==> (r.contains(k) || s.last() == k)) by {
                if r.push(s.last()).contains(k) {
                    let i = choose|i: int|
                        0 <= i < r.push(s.last()).len() && r.push(s.last())[i] == k;
                    if i < r.len() {
                        assert(r[i] == k);
                    }
                }
                if r.contains(k) {
                    let i = choose|i: int| 0 <= i < r.len() && r[i] == k;
                    assert(r.push(s.last())[i] == k);
                }
                assert(r.push(s.last())[r.len() as int] == s.last());
            }
        }
    }
}

/// A restriction of a sorted sequence is sorted.
pub proof fn lemma_restrict_sorted(s: Seq<Key3>, lo: Key3, hi: Key3)
    requires
        sorted(s),
    ensures
        sorted(restrict(s, lo, hi)),
    decreases s.len(),
{
    if s.len() > 0 {
        let dl = s.drop_last();
        assert(sorted(dl)) by {
            assert forall|i: int, j: int| 0 <= i < j < dl.len() implies key_lt(
                #[trigger] dl[i],
                #[trigger] dl[j],
            ) by {
                assert(dl[i] == s[i] && dl[j] == s[j]);
            }
        }
        lemma_restrict_sorted(dl, lo, hi);
        if in_range(s.last(), lo, hi) {
            let r = restrict(dl, lo, hi);
            let p = r.push(s.last());
            assert forall|i: int, j: int| 0 <= i < j < p.len() implies key_lt(
                #[trigger] p[i],
                #[trigger] p[j],
            ) by {
                if j < r.len() {
                    assert(p[i] == r[i] && p[j] == r[j]);
                } else {
                    assert(p[j] == s.last());
                    assert(r.contains(r[i]));
                    lemma_restrict_contains(dl, lo, hi, r[i]);
                    let m = choose|m: int| 0 <= m < dl.len() && dl[m] == r[i];
                    assert(s[m] == r[i]);
                    assert(key_lt(s[m], s[s.len() - 1]));
                }
            }
        }
    }
}

/// A restriction splits at any cut point of the underlying sequence.
pub proof fn lemma_restrict_split(s: Seq<Key3>, i: int, lo: Key3, hi: Key3)
    requires
        0 <= i <= s.len(),
    ensures
        restrict(s, lo, hi) == restrict(s.take(i), lo, hi) + restrict(s.skip(i), lo, hi),
    decreases s.len(),
{
    if i == s.len() {
        assert(s.take(i) =~= s);
        assert(s.skip(i) =~= Seq::empty());
        assert(restrict(s, lo, hi) =~= restrict(s, lo, hi) + Seq::empty());
    } else {
        let dl = s.drop_last();
        lemma_restrict_split(dl, i, lo, hi);
        assert(dl.take(i) =~= s.take(i));
        assert(s.skip(i).drop_last() =~= dl.skip(i));
        assert(s.skip(i).last() == s.last());
        if in_range(s.last(), lo, hi) {
            assert(restrict(s.skip(i), lo, hi) == restrict(dl.skip(i), lo, hi).push(s.last()));
            assert(restrict(dl, lo, hi).push(s.last()) == restrict(s.take(i), lo, hi) + restrict(
                dl.skip(i),
                lo,
                hi,
            ).push(s.last())) by {
                Seq::push_distributes_over_add(
                    restrict(s.take(i), lo, hi),
                    restrict(dl.skip(i), lo, hi),
                    s.last(),
                );
            }
        }
    }
}

/// What one page of a range scan over a sorted sequence holds: a sorted
/// prefix of the full restriction, capped at `limit`, with nothing in range
/// left out of an unfilled page.
pub proof fn lemma_page_of_props(s: Seq<Key3>, lo: Key3, hi: Key3, limit: usize)
    requires
        sorted(s),
    ensures
        ({
            let p = page_of(s, lo, hi, limit);
            let full = restrict(s, lo, hi);
            &&& sorted(p)
            &&& forall|i: int|
                0 <= i < p.len() ==> s.contains(#[trigger] p[i]) && in_range(p[i], lo, hi)
            &&& limit != 0 ==> p.len() <= limit
            &&& p == full.take(p.len() as int)
            &&& p.len() == (if limit == 0 || full.len() <= limit {
                full.len() as int
            } else {
                limit as int
            })
            &&& forall|x: Key3|
                #[trigger] s.contains(x) && in_range(x, lo, hi) && !p.contains(x) ==> (limit != 0
                    && p.len() == limit && key_lt(p[p.len() - 1], x))
        }),
{
    let p = page_of(s, lo, hi, limit);
    let full = restrict(s, lo, hi);
    lemma_restrict_sorted(s, lo, hi);
    assert(forall|i: int| 0 <= i < p.len() ==> p[i] == full[i]);
    assert(sorted(p));
    assert forall|i: int| 0 <= i < p.len() implies s.contains(#[trigger] p[i]) && in_range(
        p[i],
        lo,
        hi,
    ) by {
        assert(full.contains(full[i]));
        lemma_restrict_contains(s, lo, hi, full[i]);
    }
    assert(p == full.take(p.len() as int)) by {
        assert(p =~= full.take(p.len() as int));
    }
    assert forall|x: Key3|
        #[trigger] s.contains(x) && in_range(x, lo, hi) && !p.contains(x) implies (limit != 0
        && p.len() == limit && key_lt(p[p.len() - 1], x)) by {
        lemma_restrict_contains(s, lo, hi, x);
        let m = choose|m: int| 0 <= m < full.len() && full[m] == x;
        if m < p.len() {
            assert(p[m] == x);
        }
        assert(p.len() < full.len());
        assert(key_lt(full[p.len() - 1], full[m]));
    }
}

/// Two strictly sorted sequences with the same members are equal.
pub proof fn lemma_sorted_equal(s1: Seq<Key3>, s2: Seq<Key3>)
    requires
        sorted(s1),
        sorted(s2),
        forall|x: Key3| s1.contains(x) <==> s2.contains(x),
    ensures
        s1 == s2,
    decreases s1.len(),
{
    if s1.len() == 0 {
        if s2.len() > 0 {
            assert(s2.contains(s2.last()));
        }
        assert(s1 =~= s2);
    } else {
        assert(s1.contains(s1.last()));
        if s2.len() == 0 {
            assert(!s2.contains(s1.last()));
        }
        assert(s2.contains(s2.last()));
        // the two maxima agree
        let a = s1.last();
        let b = s2.last();
        assert(a == b) by {
            let ia = choose|i: int| 0 <= i < s2.len() && s2[i] == a;
            let ib = choose|i: int| 0 <= i < s1.len() && s1[i] == b;
            if a != b {
                assert(ia < s2.len() - 1);
                assert(key_lt(s2[ia], s2[s2.len() - 1]));
                assert(ib < s1.len() - 1);
                assert(key_lt(s1[ib], s1[s1.len() - 1]));
            }
        }
        let d1 = s1.drop_last();
        let d2 = s2.drop_last();
        assert(sorted(d1) && sorted(d2)) by {
            assert(forall|i: int, j: int|
                0 <= i < j < d1.len() ==> key_lt(#[trigger] d1[i], #[trigger] d1[j]) && d1[i]
                    == s1[i] && d1[j] == s1[j]);
            assert(forall|i: int, j: int|
                0 <= i < j < d2.len() ==> key_lt(#[trigger] d2[i], #[trigger] d2[j]) && d2[i]
                    == s2[i] && d2[j] == s2[j]);
        }
        assert forall|x: Key3| d1.contains(x) <==> d2.contains(x) by {
            lemma_drop_last_contains(s1, x);
            lemma_drop_last_contains(s2, x);
        }
        lemma_sorted_equal(d1, d2);
        assert(s1 =~= d1.push(a));
        assert(s2 =~= d2.push(b));
    }
}

/// In a strictly sorted sequence, membership in all but the last entry is
/// membership in the whole minus the last entry.
pub proof fn lemma_drop_last_contains(s: Seq<Key3>, x: Key3)
    requires
        sorted(s),
        s.len() > 0,
    ensures
        s.drop_last().contains(x) <==> (s.contains(x) && x != s.last()),
{
    let dl = s.drop_last();
    if dl.contains(x) {
        let i = choose|i: int| 0 <= i < dl.len() && dl[i] == x;
        assert(s[i] == x);
        assert(key_lt(s[i], s[s.len() - 1]));
    }
    if s.contains(x) && x != s.last() {
        let i = choose|i: int| 0 <= i < s.len() && s[i] == x;
        assert(i < s.len() - 1);
        assert(dl[i] == x);
    }
}

/// An ordered set of composite keys: a strictly sorted vector with point
/// operations and a bounded range scan.
#[derive(Debug)]
pub struct KeySet {
    keys: Vec<Key3>,
}

impl View for KeySet {
    type V = Seq<Key3>;

    closed spec fn view(&self) -> Seq<Key3> {
        self.keys@
    }
}

impl KeySet {
    /// Well-formedness: the keys are strictly sorted.
    pub open spec fn inv(&self) -> bool {
        sorted(self@)
    }

    /// An empty key set.
    pub fn new() -> (r: KeySet)
        ensures
            r.inv(),
            r@ == Seq::<Key3>::empty(),
    {
        KeySet { keys: Vec::new() }
    }

    /// Whether `k` is a member.
    pub fn contains(&self, k: &Key3) -> (r: bool)
        ensures
            r == self@.contains(*k),
    {
        let n = self.keys.len();
        let mut i: usize = 0;
        while i < n
            invariant
                n == self@.len(),
                i <= n,
                forall|j: int| 0 <= j < i ==> self@[j] != *k,
            decreases n - i,
        {
            if self.keys[i] == *k {
                assert(self@[i as int] == *k);
                return true;
            }
            i += 1;
        }
        false
    }

    /// Adds `k`; adding a present key is a no-op.
    pub fn insert(&mut self, k: Key3)
        requires
            old(self).inv(),
        ensures
            final(self).inv(),
            forall|x: Key3|
                final(self)@.contains(x) <==> (old(self)@.contains(x) || x == k),
    {
        let n = self.keys.len();
        let mut idx: usize = 0;
        while idx < n
            invariant
                self == old(self),
                n == self@.len(),
                idx <= n,
                forall|j: int| 0 <= j < idx ==> key_lt(#[trigger] self@[j], k),
            ensures
                self == old(self),
                n == self@.len(),
                idx <= n,
                forall|j: int| 0 <= j < idx ==> key_lt(#[trigger] self@[j], k),
                idx == n || !key_lt(self@[idx as int], k),
            decreases n - idx,
        {
            if !key_lt_exec(&self.keys[idx], &k) {
                break;
            }
            idx += 1;
        }
        if idx < n && self.keys[idx] == k {
            // already present
            assert(self@.contains(k)) by {
                assert(self@[idx as int] == k);
            }
            return;
        }
        let ghost s_old = self@;
        self.keys.insert(idx, k);
        proof {
            let s_new = self@;
            assert(s_new == s_old.insert(idx as int, k));
            assert forall|i: int, j: int| 0 <= i < j < s_new.len() implies key_lt(
                #[trigger] s_new[i],
                #[trigger] s_new[j],
            ) by {
                let a = if i < idx {
                    s_old[i]
                } else if i == idx {
                    k
                } else {
                    s_old[i - 1]
                };
                let b = if j < idx {
                    s_old[j]
                } else if j == idx {
                    k
                } else {
                    s_old[j - 1]
                };
                assert(s_new[i] == a && s_new[j] == b);
                if idx < s_old.len() && i <= idx && idx <= j {
                    assert(!key_lt(s_old[idx as int], k));
                    assert(s_old[idx as int] != k);
                }
            }
            assert forall|x: Key3| s_new.contains(x) <==> (s_old.contains(x) || x == k) by {
                if s_new.contains(x) {
                    let i = choose|i: int| 0 <= i < s_new.len() && s_new[i] == x;
                    if i < idx {
                        assert(s_old[i] == x);
                    } else if i > idx {
                        assert(s_old[i - 1] == x);
                    }
                }
                if s_old.contains(x) {
                    let i = choose|i: int| 0 <= i < s_old.len() && s_old[i] == x;
                    if i < idx {
                        assert(s_new[i] == x);
                    } else {
                        assert(s_new[i + 1] == x);
                    }
                }
                assert(s_new[idx as int] == k);
            }
        }
    }

    /// Removes `k`, reporting whether it was present.
    pub fn remove(&mut self, k: &Key3) -> (r: bool)
        requires
            old(self).inv(),
        ensures
            final(self).inv(),
            r == old(self)@.contains(*k),
            forall|x: Key3|
                final(self)@.contains(x) <==> (old(self)@.contains(x) && x != *k),
    {
        let n = self.keys.len();
        let mut i: usize = 0;
        while i < n
            invariant
                self == old(self),
                sorted(self@),
                n == self@.len(),
                i <= n,
                forall|j: int| 0 <= j < i ==> self@[j] != *k,
            decreases n - i,
        {
            if self.keys[i] == *k {
                let ghost s_old = self@;
                assert(sorted(s_old));
                assert(s_old[i as int] == *k);
                self.keys.remove(i);
                proof {
                    let s_new = self@;
                    assert(s_new == s_old.remove(i as int));
                    assert(s_new.len() == s_old.len() - 1);
                    assert forall|a: int| 0 <= a < s_new.len() implies #[trigger] s_new[a] == (
                    if a < i {
                        s_old[a]
                    } else {
                        s_old[a + 1]
                    }) by {
                        assert(s_new == s_old.subrange(0, i as int) + s_old.subrange(
                            i + 1,
                            s_old.len() as int,
                        ));
                    }
                    assert forall|a: int, b: int| 0 <= a < b < s_new.len() implies key_lt(
                        #[trigger] s_new[a],
                        #[trigger] s_new[b],
                    ) by {
                        let x = if a < i {
                            s_old[a]
                        } else {
                            s_old[a + 1]
                        };
                        let y = if b < i {
                            s_old[b]
                        } else {
                            s_old[b + 1]
                        };
                        assert(s_new[a] == x && s_new[b] == y);
                    }
                    assert forall|x: Key3|
                        s_new.contains(x) <==> (s_old.contains(x) && x != *k) by {
                        if s_new.contains(x) {
                            let j = choose|j: int| 0 <= j < s_new.len() && s_new[j] == x;
                            if j < i {
                                assert(s_old[j] == x);
                                assert(key_lt(s_old[j], s_old[i as int]));
                            } else {
                                assert(s_old[j + 1] == x);
                                assert(key_lt(s_old[i as int], s_old[j + 1]));
                            }
                        }
                        if s_old.contains(x) && x != *k {
                            let j = choose|j: int| 0 <= j < s_old.len() && s_old[j] == x;
                            if j < i {
                                assert(s_new[j] == x);
                            } else {
                                assert(j != i);
                                assert(s_new[j - 1] == x);
                            }
                        }
                    }
                    assert(s_old.contains(*k));
                }
                return true;
            }
            i += 1;
        }
        false
    }

    /// Removes every key.
    pub fn clear(&mut self)
        ensures
            final(self).inv(),
            final(self)@ == Seq::<Key3>::empty(),
    {
        self.keys.clear();
    }

    /// The ascending range scan: every key in `[lo, hi]`, in order, but at
    /// most `limit` of them; a `limit` of exactly zero means "no limit".
    pub fn range(&self, lo: Key3, hi: Key3, limit: usize) -> (r: Vec<Key3>)
        requires
            self.inv(),
        ensures
            r@ == page_of(self@, lo, hi, limit),
    {
        let n = self.keys.len();
        let mut out: Vec<Key3> = Vec::new();
        let mut i: usize = 0;
        while i < n
            invariant
                n == self@.len(),
                i <= n,
                out@ == restrict(self@.take(i as int), lo, hi),
                limit != 0 ==> out@.len() <= limit,
            ensures
                n == self@.len(),
                i <= n,
                out@ == restrict(self@.take(i as int), lo, hi),
                limit != 0 ==> out@.len() <= limit,
                i == n || (limit != 0 && out@.len() == limit),
            decreases n - i,
        {
            let k = self.keys[i];
            let ghost t1 = self@.take(i as int);
            if in_range_exec(&k, &lo, &hi) {
                if limit != 0 && out.len() == limit {
                    break;
                }
                out.push(k);
            }
            i += 1;
            proof {
                let t2 = self@.take(i as int);
                assert(t2.drop_last() =~= t1);
                assert(t2.last() == self@[i - 1]);
                assert(t2.len() > 0);
            }
        }
        proof {
            if i == n {
                assert(self@.take(n as int) =~= self@);
                assert(out@ == restrict(self@, lo, hi));
            } else {
                lemma_restrict_split(self@, i as int, lo, hi);
                let full = restrict(self@, lo, hi);
                let rest = restrict(self@.skip(i as int), lo, hi);
                assert(full == out@ + rest);
                assert(full.len() >= limit);
                if full.len() <= limit {
                    assert(full =~= out@);
                } else {
                    assert(full.take(limit as int) =~= out@);
                }
            }
        }
        out
    }
}

} // verus!
