//! The per-nick tally the bot keeps: an association list with distinct
//! keys, in first-seen order.

use vstd::prelude::*;

verus! {

/// Count of one key in a tally sequence, zero when the key is absent.
pub open spec fn spec_get(s: Seq<(Seq<char>, u64)>, k: Seq<char>) -> u64
    decreases s.len(),
{
    if s.len() == 0 {
        0u64
    } else if s[0].0 == k {
        s[0].1
    } else {
        spec_get(s.skip(1), k)
    }
}

/// A tally sequence with one added to `k`'s count: the matching entry is
/// bumped in place, or `(k, 1)` is appended when `k` is absent.
pub open spec fn spec_bump(s: Seq<(Seq<char>, u64)>, k: Seq<char>) -> Seq<(Seq<char>, u64)>
    decreases s.len(),
{
    if s.len() == 0 {
        seq![(k, 1u64)]
    } else if s[0].0 == k {
        seq![(s[0].0, (s[0].1 + 1) as u64)] + s.skip(1)
    } else {
        seq![s[0]] + spec_bump(s.skip(1), k)
    }
}

/// Sum of all counts in a tally sequence.
pub open spec fn spec_total(s: Seq<(Seq<char>, u64)>) -> int
    decreases s.len(),
{
    if s.len() == 0 {
        0int
    } else {
        s[0].1 + spec_total(s.skip(1))
    }
}

/// The text value of a sequence of owned tally pairs.
pub open spec fn tally_view(s: Seq<(String, u64)>) -> Seq<(Seq<char>, u64)> {
    Seq::new(s.len(), |i: int| (s[i].0@, s[i].1))
}

/// The word tally: each nick at most once, paired with its count.
pub struct Counter {
    pub entries: Vec<(String, u64)>,
}

impl View for Counter {
    type V = Seq<(Seq<char>, u64)>;

    open spec fn view(&self) -> Seq<(Seq<char>, u64)> {
        tally_view(self.entries@)
    }
}

impl Counter {
    /// Keys are distinct.
    pub open spec fn wf(&self) -> bool {
        forall|i: int, j: int| 0 <= i < j < self@.len() ==> self@[i].0 != self@[j].0
    }

    /// An empty tally.
    pub fn new() -> (c: Counter)
        ensures
            c.wf(),
            c@ == Seq::<(Seq<char>, u64)>::empty(),
    {
        let c = Counter { entries: Vec::new() };
        proof {
            assert(c@ =~= Seq::<(Seq<char>, u64)>::empty());
        }
        c
    }

    /// Builds a tally from a list of pairs with pairwise-distinct keys, as
    /// a saved tally file yields them.
    pub fn from_entries(list: Vec<(String, u64)>) -> (c: Counter)
        requires
            forall|i: int, j: int|
                0 <= i < j < list@.len() ==> list@[i].0@ != list@[j].0@,
        ensures
            c.wf(),
            c@ == tally_view(list@),
    {
        let mut c = Counter::new();
        let n = list.len();
        let mut i: usize = 0;
        proof {
            assert(c@ =~= tally_view(list@).take(0));
        }
        while i < n
            invariant
                i <= n,
                n == list@.len(),
                forall|a: int, b: int| 0 <= a < b < n ==> list@[a].0@ != list@[b].0@,
                c.wf(),
                c@ == tally_view(list@).take(i as int),
            decreases n - i,
        {
            let key = list[i].0.clone();
            let v = list[i].1;
            proof {
                assert(forall|a: int| 0 <= a < i ==> c@[a] == tally_view(list@)[a]);
                assert(forall|a: int| 0 <= a < i ==> c@[a].0 == list@[a].0@);
            }
            c.push_absent(key, v);
            proof {
                assert(c@ =~= tally_view(list@).take(i as int + 1));
            }
            i = i + 1;
        }
        proof {
            assert(tally_view(list@).take(n as int) =~= tally_view(list@));
        }
        c
    }

    /// Whether a key is present.
    pub fn contains(&self, k: &str) -> (r: bool)
        ensures
            r == exists|i: int| 0 <= i < self@.len() && #[trigger] self@[i].0 == k@,
    {
        let n = self.entries.len();
        let mut i: usize = 0;
        while i < n
            invariant
                i <= n,
                n == self@.len(),
                forall|j: int| 0 <= j < i ==> #[trigger] self@[j].0 != k@,
            decreases n - i,
        {
            if crate::strings::str_eq(self.entries[i].0.as_str(), k) {
                proof {
                    assert(self@[i as int].0 == k@);
                }
                return true;
            }
            i = i + 1;
        }
        false
    }

    /// Appends a key known to be absent.
    pub fn push_absent(&mut self, k: String, v: u64)
        requires
            old(self).wf(),
            forall|i: int| 0 <= i < old(self)@.len() ==> #[trigger] old(self)@[i].0 != k@,
        ensures
            final(self).wf(),
            final(self)@ == old(self)@.push((k@, v)),
    {
        self.entries.push((k, v));
        proof {
            assert(self@ =~= old(self)@.push((k@, v)));
        }
    }

    /// The count recorded for `k`, zero when absent.
    pub fn get(&self, k: &str) -> (r: u64)
        ensures
            r == spec_get(self@, k@),
    {
        let n = self.entries.len();
        let mut i: usize = 0;
        proof {
            assert(self@.skip(0) =~= self@);
        }
        while i < n
            invariant
                i <= n,
                n == self@.len(),
                spec_get(self@, k@) == spec_get(self@.skip(i as int), k@),
            decreases n - i,
        {
            proof {
                assert(self@.skip(i as int)[0] == self@[i as int]);
                assert(self@.skip(i as int).skip(1) =~= self@.skip(i as int + 1));
            }
            if crate::strings::str_eq(self.entries[i].0.as_str(), k) {
                proof {
                    assert(self@[i as int].0 == k@);
                    assert(spec_get(self@.skip(i as int), k@) == self@[i as int].1);
                }
                return self.entries[i].1;
            }
            i = i + 1;
        }
        proof {
            assert(self@.skip(n as int) =~= Seq::<(Seq<char>, u64)>::empty());
        }
        0
    }

    /// Adds one to `k`'s count, appending a fresh entry when `k` is absent.
    pub fn bump(&mut self, k: &str)
        requires
            old(self).wf(),
            spec_get(old(self)@, k@) < u64::MAX,
        ensures
            final(self).wf(),
            final(self)@ == spec_bump(old(self)@, k@),
            final(self)@.len() == old(self)@.len() || final(self)@.len() == old(self)@.len() + 1,
            forall|i: int|
                0 <= i < old(self)@.len() ==> (#[trigger] final(self)@[i]).0 == old(self)@[i].0
                    && final(self)@[i].1 <= old(self)@[i].1 + 1,
            final(self)@.len() > old(self)@.len() ==> final(self)@[old(self)@.len() as int] == (
                k@,
                1u64,
            ),
    {
        let ghost orig = self@;
        let n = self.entries.len();
        let mut i: usize = 0;
        proof {
            assert(orig.skip(0) =~= orig);
            assert(orig.take(0) =~= Seq::<(Seq<char>, u64)>::empty());
            assert(orig.take(0) + spec_bump(orig.skip(0), k@) =~= spec_bump(orig, k@));
        }
        while i < n
            invariant
                i <= n,
                n == self@.len(),
                self@ == orig,
                orig == old(self)@,
                self.wf(),
                spec_get(orig, k@) < u64::MAX,
                spec_get(orig, k@) == spec_get(orig.skip(i as int), k@),
                forall|j: int| 0 <= j < i ==> #[trigger] orig[j].0 != k@,
                spec_bump(orig, k@) == orig.take(i as int) + spec_bump(orig.skip(i as int), k@),
            decreases n - i,
        {
            proof {
                assert(orig.skip(i as int)[0] == orig[i as int]);
                assert(orig.skip(i as int).skip(1) =~= orig.skip(i as int + 1));
            }
            if crate::strings::str_eq(self.entries[i].0.as_str(), k) {
                proof {
                    assert(orig[i as int].0 == k@);
                    assert(spec_get(orig.skip(i as int), k@) == orig[i as int].1);
                    assert(spec_get(orig, k@) == orig[i as int].1);
                }
                let v = self.entries[i].1;
                proof {
                    assert(v == orig[i as int].1);
                    assert(v < u64::MAX);
                    assert(spec_bump(orig.skip(i as int), k@) == seq![(orig[i as int].0, (orig[
                        i as int].1 + 1) as u64)] + orig.skip(i as int + 1));
                }
                self.entries[i].1 = v + 1;
                proof {
                    assert(self@ =~= orig.take(i as int) + (seq![(orig[i as int].0, (orig[
                        i as int].1 + 1) as u64)] + orig.skip(i as int + 1)));
                    assert forall|a: int, b: int| 0 <= a < b < self@.len() implies self@[a].0
                        != self@[b].0 by {
                        assert(self@[a].0 == orig[a].0);
                        assert(self@[b].0 == orig[b].0);
                    }
                    assert forall|a: int| 0 <= a < orig.len() implies (#[trigger] self@[a]).0
                        == orig[a].0 && self@[a].1 <= orig[a].1 + 1 by {
                        if a < i {
                        } else if a == i {
                        } else {
                        }
                    }
                }
                return ;
            }
            proof {
                assert(orig.take(i as int).push(orig[i as int]) =~= orig.take(i as int + 1));
                assert(orig.take(i as int) + (seq![orig[i as int]] + spec_bump(
                    orig.skip(i as int + 1),
                    k@,
                )) =~= orig.take(i as int + 1) + spec_bump(orig.skip(i as int + 1), k@));
            }
            i = i + 1;
        }
        proof {
            assert(orig.skip(n as int) =~= Seq::<(Seq<char>, u64)>::empty());
        }
        self.entries.push((k.to_owned(), 1));
        proof {
            assert(self@ =~= orig.take(n as int) + seq![(k@, 1u64)]);
            assert(orig.take(n as int) =~= orig);
            assert forall|a: int, b: int| 0 <= a < b < self@.len() implies self@[a].0
                != self@[b].0 by {
                if b < orig.len() {
                    assert(self@[a].0 == orig[a].0);
                    assert(self@[b].0 == orig[b].0);
                } else {
                    assert(self@[a].0 == orig[a].0);
                    assert(self@[b].0 == k@);
                }
            }
        }
    }

    /// All entries as borrowed pairs, for a caller that persists the tally.
    pub fn entries_ref(&self) -> (r: &Vec<(String, u64)>)
        ensures
            r@.len() == self@.len(),
            forall|i: int|
                0 <= i < self@.len() ==> (#[trigger] r@[i]).0@ == self@[i].0 && r@[i].1
                    == self@[i].1,
    {
        &self.entries
    }
}

} // verus!
