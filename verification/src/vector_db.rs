//! A small vector store: entries tagged with an id, kept in insertion order.
use vstd::prelude::*;

verus! {

/// Keeps the entries of `s` whose flag in `keep` is set, in their order.
pub open spec fn filter_by<T>(s: Seq<T>, keep: Seq<bool>) -> Seq<T>
    decreases s.len(),
{
    if s.len() == 0 {
        Seq::empty()
    } else {
        let rest = filter_by(s.drop_last(), keep);
        if keep[s.len() - 1] {
            rest.push(s.last())
        } else {
            rest
        }
    }
}

/// `filter_by` reads only the flags of positions inside the sequence.
pub proof fn lemma_filter_by_prefix<T>(s: Seq<T>, k1: Seq<bool>, k2: Seq<bool>)
    requires
        forall|i: int| 0 <= i < s.len() ==> k1[i] == k2[i],
    ensures
        filter_by(s, k1) == filter_by(s, k2),
    decreases s.len(),
{
    if s.len() > 0 {
        lemma_filter_by_prefix(s.drop_last(), k1, k2);
    }
}

/// Filtering by flags keeps exactly the flagged entries, in their order: the
/// result is read off `s` at strictly increasing positions, every position
/// read is flagged, and every flagged position is read.
pub proof fn lemma_filter_by_selects<T>(s: Seq<T>, keep: Seq<bool>)
    requires
        keep.len() == s.len(),
    ensures
        exists|at: Seq<int>|
            #![trigger at.len()]
            {
                &&& at.len() == filter_by(s, keep).len()
                &&& forall|k: int|
                    0 <= k < at.len() ==> 0 <= #[trigger] at[k] < s.len() && keep[at[k]] && filter_by(
                        s,
                        keep,
                    )[k] == s[at[k]]
                &&& forall|a: int, b: int| 0 <= a < b < at.len() ==> #[trigger] at[a] < #[trigger] at[b]
                &&& forall|i: int|
                    0 <= i < s.len() && #[trigger] keep[i] ==> exists|k: int| 0 <= k < at.len() && at[k] == i
            },
    decreases s.len(),
{
    let f = filter_by(s, keep);
    if s.len() == 0 {
        let at = Seq::<int>::empty();
        assert(at.len() == f.len());
    } else {
        let p = s.drop_last();
        let kp = keep.drop_last();
        lemma_filter_by_prefix(p, keep, kp);
        lemma_filter_by_selects(p, kp);
        let fp = filter_by(p, kp);
        let at = choose|at: Seq<int>|
            #![trigger at.len()]
            {
                &&& at.len() == fp.len()
                &&& forall|k: int| 0 <= k < at.len() ==> 0 <= #[trigger] at[k] < p.len() && kp[at[k]] && fp[k] == p[at[k]]
                &&& forall|a: int, b: int| 0 <= a < b < at.len() ==> #[trigger] at[a] < #[trigger] at[b]
                &&& forall|i: int| 0 <= i < p.len() && #[trigger] kp[i] ==> exists|k: int| 0 <= k < at.len() && at[k] == i
            };
        assert(fp == filter_by(p, keep));
        let last = s.len() - 1;
        if keep[last] {
            let at2 = at.push(last);
            assert(f == fp.push(s.last()));
            assert forall|k: int| 0 <= k < at2.len() implies 0 <= #[trigger] at2[k] < s.len() && keep[at2[k]]
                && f[k] == s[at2[k]] by {
                if k < at.len() {
                    assert(at2[k] == at[k]);
                    assert(kp[at[k]] == keep[at[k]]);
                    assert(p[at[k]] == s[at[k]]);
                }
            }
            assert forall|a: int, b: int| 0 <= a < b < at2.len() implies #[trigger] at2[a] < #[trigger] at2[b] by {
                if b < at.len() {
                    assert(at[a] < at[b]);
                } else {
                    assert(at2[a] == at[a]);
                }
            }
            assert forall|i: int| 0 <= i < s.len() && #[trigger] keep[i] implies exists|k: int|
                0 <= k < at2.len() && at2[k] == i by {
                if i < last {
                    assert(kp[i]);
                    let k = choose|k: int| 0 <= k < at.len() && at[k] == i;
                    assert(at2[k] == i);
                } else {
                    assert(at2[at.len() as int] == i);
                }
            }
            assert(at2.len() == f.len());
        } else {
            assert(f == fp);
            assert forall|k: int| 0 <= k < at.len() implies 0 <= #[trigger] at[k] < s.len() && keep[at[k]]
                && f[k] == s[at[k]] by {
                assert(kp[at[k]] == keep[at[k]]);
                assert(p[at[k]] == s[at[k]]);
            }
            assert forall|i: int| 0 <= i < s.len() && #[trigger] keep[i] implies exists|k: int|
                0 <= k < at.len() && at[k] == i by {
                assert(i < last);
                assert(kp[i]);
            }
            assert(at.len() == f.len());
        }
    }
}

/// A store of `(id, vector)` entries, scanned linearly.
#[derive(Clone, Debug)]
pub struct VectorDb<V> {
    entries: Vec<(u64, V)>,
}

impl<V> View for VectorDb<V> {
    type V = Seq<(u64, V)>;

    closed spec fn view(&self) -> Seq<(u64, V)> {
        self.entries@
    }
}

impl<V> VectorDb<V> {
    /// An empty store.
    pub fn new() -> (db: Self)
        ensures
            db@ == Seq::<(u64, V)>::empty(),
    {
        VectorDb { entries: Vec::new() }
    }

    /// Appends the entry `(id, v)` after all existing entries.
    pub fn insert(&mut self, id: u64, v: V)
        ensures
            final(self)@ == old(self)@.push((id, v)),
    {
        self.entries.push((id, v));
    }

    /// Number of entries.
    pub fn len(&self) -> (n: usize)
        ensures
            n == self@.len(),
    {
        self.entries.len()
    }

    /// Whether the store holds no entry.
    pub fn is_empty(&self) -> (b: bool)
        ensures
            b == (self@.len() == 0),
    {
        self.entries.is_empty()
    }

    /// The entries, in insertion order.
    pub fn entries(&self) -> (s: &[(u64, V)])
        ensures
            s@ == self@,
    {
        self.entries.as_slice()
    }

    /// Keeps exactly the entries for which `f` answers `true`, in their order.
    /// `keep` records the answer `f` gave for each entry of the old store.
    pub fn retain(&mut self, f: impl Fn(&(u64, V)) -> bool)
        requires
            forall|i: int| 0 <= i < old(self)@.len() ==> call_requires(f, (&old(self)@[i],)),
        ensures
            exists|keep: Seq<bool>|
                {
                    &&& keep.len() == old(self)@.len()
                    &&& forall|i: int|
                        #![trigger keep[i]]
                        0 <= i < keep.len() ==> call_ensures(f, (&old(self)@[i],), keep[i])
                    &&& final(self)@ == filter_by(old(self)@, keep)
                    &&& exists|at: Seq<int>|
                        #![trigger at.len()]
                        {
                            &&& at.len() == final(self)@.len()
                            &&& forall|k: int|
                                0 <= k < at.len() ==> 0 <= #[trigger] at[k] < old(self)@.len() && keep[at[k]]
                                    && final(self)@[k] == old(self)@[at[k]]
                            &&& forall|a: int, b: int|
                                0 <= a < b < at.len() ==> #[trigger] at[a] < #[trigger] at[b]
                            &&& forall|i: int|
                                0 <= i < old(self)@.len() && #[trigger] keep[i] ==> exists|k: int|
                                    0 <= k < at.len() && at[k] == i
                        }
                },
    {
        let ghost orig = self.entries@;
        assert(orig == old(self)@);
        let n = self.entries.len();
        let mut pending: Vec<(u64, V)> = Vec::new();
        std::mem::swap(&mut pending, &mut self.entries);
        // Reverse the entries so that popping yields them in their original order.
        let mut reversed: Vec<(u64, V)> = Vec::new();
        while pending.len() > 0
            invariant
                n == orig.len(),
                pending@ == orig.subrange(0, pending@.len() as int),
                reversed@.len() + pending@.len() == n,
                forall|j: int| 0 <= j < reversed@.len() ==> reversed@[j] == orig[n - 1 - j],
                forall|j: int| 0 <= j < n ==> call_requires(f, (&orig[j],)),
            decreases pending@.len(),
        {
            let e = pending.pop().unwrap();
            reversed.push(e);
        }
        let ghost mut keep: Seq<bool> = Seq::empty();
        let mut i: usize = 0;
        while i < n
            invariant
                n == orig.len(),
                i <= n,
                reversed@.len() == n - i,
                forall|j: int| 0 <= j < reversed@.len() ==> reversed@[j] == orig[n - 1 - j],
                keep.len() == i,
                forall|j: int|
                    #![trigger keep[j]]
                    0 <= j < i ==> call_ensures(f, (&orig[j],), keep[j]),
                forall|j: int| 0 <= j < n ==> call_requires(f, (&orig[j],)),
                self.entries@ == filter_by(orig.subrange(0, i as int), keep),
            decreases n - i,
        {
            let e = reversed.pop().unwrap();
            assert(e == orig[i as int]);
            let b = f(&e);
            proof {
                lemma_filter_by_prefix(orig.subrange(0, i as int), keep, keep.push(b));
                assert(orig.subrange(0, i + 1).drop_last() =~= orig.subrange(0, i as int));
                keep = keep.push(b);
            }
            if b {
                self.entries.push(e);
            }
            i = i + 1;
        }
        assert(orig.subrange(0, n as int) =~= orig);
        proof {
            lemma_filter_by_selects(orig, keep);
        }
    }

    /// Keeps only the `count` most recently inserted entries, in their order
    /// (all of them when there are at most `count`).
    pub fn keep_last(&mut self, count: usize)
        ensures
            final(self)@.len() <= count,
            old(self)@.len() <= count ==> final(self)@ == old(self)@,
            old(self)@.len() > count ==> final(self)@ == old(self)@.subrange(
                old(self)@.len() - count,
                old(self)@.len() as int,
            ),
    {
        let n = self.entries.len();
        if n <= count {
            return;
        }
        let ghost orig = self.entries@;
        let mut newest: Vec<(u64, V)> = Vec::new();
        while newest.len() < count
            invariant
                n == orig.len(),
                count < n,
                newest@.len() <= count,
                self.entries@ == orig.subrange(0, n - newest@.len()),
                forall|j: int| 0 <= j < newest@.len() ==> newest@[j] == orig[n - 1 - j],
            decreases count - newest@.len(),
        {
            let e = self.entries.pop().unwrap();
            newest.push(e);
        }
        self.entries.clear();
        while newest.len() > 0
            invariant
                n == orig.len(),
                count < n,
                newest@.len() <= count,
                forall|j: int| 0 <= j < newest@.len() ==> newest@[j] == orig[n - 1 - j],
                self.entries@ == orig.subrange(n - count, n - newest@.len()),
            decreases newest@.len(),
        {
            let e = newest.pop().unwrap();
            self.entries.push(e);
            assert(self.entries@ =~= orig.subrange(n - count, n - newest@.len()));
        }
    }

    /// Removes every entry.
    pub fn clear(&mut self)
        ensures
            final(self)@ == Seq::<(u64, V)>::empty(),
    {
        self.entries.clear();
    }
}

impl<V> Default for VectorDb<V> {
    fn default() -> (db: Self)
        ensures
            db@ == Seq::<(u64, V)>::empty(),
    {
        Self::new()
    }
}

} // verus!
