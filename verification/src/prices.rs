//! The in-memory mapping from calendar date to directive value text.
//!
//! Entries are kept as a list with mutually distinct dates; its meaning is
//! the mapping the list builds up when each entry in turn is put in under
//! its date. Putting in an entry for a date already present replaces the
//! older value, which is both the reader's own dedup policy and, at merge
//! time, how fetched data wins over stale file data.

use crate::bytes::{bytes_eq, copy_bytes};
use vstd::prelude::*;

verus! {

/// One price directive's data: the date key and the text after it.
pub struct Entry {
    /// Calendar date, as zero-padded ISO text.
    pub date: Vec<u8>,
    /// The rest of the directive line: commodity name and amount.
    pub value: Vec<u8>,
}

/// The mapping a sequence of entries denotes when each entry in turn is put
/// in under its date; a later entry for the same date wins.
pub open spec fn entries_map(s: Seq<Entry>) -> Map<Seq<u8>, Seq<u8>>
    decreases s.len(),
{
    if s.len() == 0 {
        Map::empty()
    } else {
        entries_map(s.drop_last()).insert(s.last().date@, s.last().value@)
    }
}

/// The dates of `s` are mutually distinct.
pub open spec fn distinct_dates(s: Seq<Entry>) -> bool {
    forall|i: int, j: int| 0 <= i < j < s.len() ==> s[i].date@ != s[j].date@
}

/// Some entry of `s` carries the date `k`.
pub open spec fn has_date(s: Seq<Entry>, k: Seq<u8>) -> bool {
    exists|i: int| 0 <= i < s.len() && #[trigger] s[i].date@ == k
}

/// The dates of the mapping are exactly the dates of the entries.
pub proof fn lemma_entries_map_dom(s: Seq<Entry>)
    ensures
        forall|k: Seq<u8>| #[trigger] entries_map(s).dom().contains(k) <==> has_date(s, k),
    decreases s.len(),
{
    if s.len() > 0 {
        let s0 = s.drop_last();
        lemma_entries_map_dom(s0);
        assert forall|k: Seq<u8>| #[trigger] entries_map(s).dom().contains(k) implies has_date(
            s,
            k,
        ) by {
            assert(entries_map(s).dom() == entries_map(s0).dom().insert(s.last().date@));
            if k == s.last().date@ {
                assert(s[s.len() - 1].date@ == k);
            } else {
                assert(entries_map(s0).dom().contains(k));
                assert(has_date(s0, k));
                let i = choose|i: int| 0 <= i < s0.len() && #[trigger] s0[i].date@ == k;
                assert(s0[i] == s[i]);
                assert(s[i].date@ == k);
            }
        }
        assert forall|k: Seq<u8>| has_date(s, k) implies entries_map(s).dom().contains(k) by {
            assert(entries_map(s).dom() == entries_map(s0).dom().insert(s.last().date@));
            let i = choose|i: int| 0 <= i < s.len() && #[trigger] s[i].date@ == k;
            if i < s.len() - 1 {
                assert(s0[i] == s[i]);
                assert(s0[i].date@ == k);
                assert(has_date(s0, k));
            } else {
                assert(k == s.last().date@);
            }
        }
    }
}

/// Under distinct dates, every entry's pair is in the mapping.
pub proof fn lemma_entries_map_value(s: Seq<Entry>, i: int)
    requires
        distinct_dates(s),
        0 <= i < s.len(),
    ensures
        entries_map(s).contains_pair(s[i].date@, s[i].value@),
    decreases s.len(),
{
    if i < s.len() - 1 {
        let s0 = s.drop_last();
        assert(s0[i] == s[i]);
        assert(forall|a: int, b: int| 0 <= a < b < s0.len() ==> s0[a] == s[a] && s0[b] == s[b]);
        lemma_entries_map_value(s0, i);
        assert(s[i].date@ != s[s.len() - 1].date@);
    }
}

/// Under distinct dates, the mapping has exactly one date per entry.
pub proof fn lemma_entries_map_len(s: Seq<Entry>)
    requires
        distinct_dates(s),
    ensures
        entries_map(s).dom().finite(),
        entries_map(s).dom().len() == s.len(),
    decreases s.len(),
{
    if s.len() == 0 {
        assert(entries_map(s).dom() =~= Set::<Seq<u8>>::empty());
    } else {
        let s0 = s.drop_last();
        assert(forall|a: int, b: int| 0 <= a < b < s0.len() ==> s0[a] == s[a] && s0[b] == s[b]);
        lemma_entries_map_len(s0);
        lemma_entries_map_dom(s0);
        assert(!entries_map(s0).dom().contains(s.last().date@)) by {
            if has_date(s0, s.last().date@) {
                let i = choose|i: int| 0 <= i < s0.len() && #[trigger] s0[i].date@ == s.last().date@;
                assert(s[i].date@ == s[s.len() - 1].date@);
            }
        }
    }
}

/// Dropping the entry at `i` removes exactly its date from the mapping.
pub proof fn lemma_entries_map_remove(s: Seq<Entry>, i: int)
    requires
        distinct_dates(s),
        0 <= i < s.len(),
    ensures
        entries_map(s.remove(i)) == entries_map(s).remove(s[i].date@),
    decreases s.len(),
{
    let d = s[i].date@;
    if i == s.len() - 1 {
        assert(s.remove(i) =~= s.drop_last());
        lemma_entries_map_dom(s.drop_last());
        assert(!entries_map(s.drop_last()).dom().contains(d)) by {
            if has_date(s.drop_last(), d) {
                let j = choose|j: int|
                    0 <= j < s.drop_last().len() && #[trigger] s.drop_last()[j].date@ == d;
                assert(s[j].date@ == s[s.len() - 1].date@);
            }
        }
        assert(entries_map(s.drop_last()).insert(d, s.last().value@).remove(d) =~= entries_map(
            s.drop_last(),
        ));
    } else {
        let s0 = s.drop_last();
        assert(forall|a: int, b: int| 0 <= a < b < s0.len() ==> s0[a] == s[a] && s0[b] == s[b]);
        lemma_entries_map_remove(s0, i);
        assert(s.remove(i).drop_last() =~= s0.remove(i));
        assert(s.remove(i).last() == s.last());
        assert(entries_map(s.remove(i)) == entries_map(s0.remove(i)).insert(
            s.last().date@,
            s.last().value@,
        ));
        assert(s[i].date@ != s[s.len() - 1].date@);
        assert(entries_map(s0).remove(d).insert(s.last().date@, s.last().value@) =~= entries_map(
            s0,
        ).insert(s.last().date@, s.last().value@).remove(d));
    }
}

/// A date-keyed collection of price directives.
pub struct PriceMap {
    /// The entries, with mutually distinct dates.
    pub entries: Vec<Entry>,
}

impl View for PriceMap {
    type V = Map<Seq<u8>, Seq<u8>>;

    open spec fn view(&self) -> Map<Seq<u8>, Seq<u8>> {
        entries_map(self.entries@)
    }
}

impl PriceMap {
    /// The collection's invariant: no date occurs twice.
    pub open spec fn wf(&self) -> bool {
        distinct_dates(self.entries@)
    }

    /// An empty collection.
    pub fn new() -> (r: PriceMap)
        ensures
            r.wf(),
            r@ == Map::<Seq<u8>, Seq<u8>>::empty(),
    {
        PriceMap { entries: Vec::new() }
    }

    fn find_date(&self, d: &Vec<u8>) -> (r: Option<usize>)
        ensures
            match r {
                Some(i) => i < self.entries@.len() && self.entries@[i as int].date@ == d@,
                None => forall|i: int|
                    0 <= i < self.entries@.len() ==> self.entries@[i].date@ != d@,
            },
    {
        let mut i: usize = 0;
        while i < self.entries.len()
            invariant
                i <= self.entries@.len(),
                forall|j: int| 0 <= j < i ==> self.entries@[j].date@ != d@,
            decreases self.entries@.len() - i,
        {
            if bytes_eq(&self.entries[i].date, d) {
                return Some(i);
            }
            i = i + 1;
        }
        None
    }

    /// Whether a directive for date `d` is present.
    pub fn contains_date(&self, d: &Vec<u8>) -> (r: bool)
        ensures
            r == self@.dom().contains(d@),
    {
        proof {
            lemma_entries_map_dom(self.entries@);
        }
        match self.find_date(d) {
            Some(_) => true,
            None => false,
        }
    }

    /// The count of dates present.
    pub fn len(&self) -> (n: usize)
        requires
            self.wf(),
        ensures
            n == self@.dom().len(),
    {
        proof {
            lemma_entries_map_len(self.entries@);
        }
        self.entries.len()
    }

    /// The value stored under date `d`, if any.
    pub fn get(&self, d: &Vec<u8>) -> (r: Option<&Vec<u8>>)
        requires
            self.wf(),
        ensures
            match r {
                Some(v) => self@.dom().contains(d@) && v@ == self@[d@],
                None => !self@.dom().contains(d@),
            },
    {
        proof {
            lemma_entries_map_dom(self.entries@);
        }
        match self.find_date(d) {
            Some(i) => {
                proof {
                    lemma_entries_map_value(self.entries@, i as int);
                }
                Some(&self.entries[i].value)
            },
            None => None,
        }
    }

    /// Puts in a directive for `date`, replacing the value of an entry
    /// already present under the same date.
    pub fn insert(&mut self, date: Vec<u8>, value: Vec<u8>)
        requires
            old(self).wf(),
        ensures
            final(self).wf(),
            final(self)@ == old(self)@.insert(date@, value@),
    {
        let ghost pre = self.entries@;
        let found = self.find_date(&date);
        match found {
            Some(i) => {
                proof {
                    lemma_entries_map_remove(pre, i as int);
                }
                let ghost d = pre[i as int].date@;
                self.entries.remove(i);
                proof {
                    assert(self.entries@ == pre.remove(i as int));
                    assert(forall|a: int| 0 <= a < i ==> #[trigger] pre.remove(i as int)[a] == pre[a]);
                    assert(forall|a: int|
                        i <= a < pre.remove(i as int).len() ==> #[trigger] pre.remove(i as int)[a]
                            == pre[a + 1]);
                }
                self.entries.push(Entry { date, value });
                proof {
                    let cur = self.entries@;
                    assert(cur.drop_last() =~= pre.remove(i as int));
                    assert(cur.last().date@ == date@ && cur.last().value@ == value@);
                    assert(entries_map(cur) == entries_map(pre).remove(d).insert(date@, value@));
                    assert(entries_map(pre).remove(date@).insert(date@, value@) =~= entries_map(
                        pre,
                    ).insert(date@, value@));
                    lemma_entries_map_dom(pre.remove(i as int));
                    assert(!has_date(pre.remove(i as int), date@)) by {
                        if has_date(pre.remove(i as int), date@) {
                            let j = choose|j: int|
                                0 <= j < pre.remove(i as int).len()
                                    && #[trigger] pre.remove(i as int)[j].date@ == date@;
                            if j < i {
                                assert(pre[j].date@ == pre[i as int].date@);
                            } else {
                                assert(pre[j + 1].date@ == pre[i as int].date@);
                            }
                        }
                    }
                    assert(forall|a: int, b: int|
                        0 <= a < b < cur.len() - 1 ==> #[trigger] cur[a].date@ != #[trigger] cur[b].date@);
                    assert(forall|a: int|
                        0 <= a < cur.len() - 1 ==> #[trigger] cur[a].date@ != cur[cur.len()
                            - 1].date@);
                }
            },
            None => {
                self.entries.push(Entry { date, value });
                proof {
                    let cur = self.entries@;
                    assert(cur.drop_last() =~= pre);
                    assert(forall|a: int| 0 <= a < pre.len() ==> cur[a] == pre[a]);
                }
            },
        }
    }
}

/// Merges the file's data with the fetched data: every fetched entry is put
/// in over the file's, so for a date both know, the fetched value wins.
pub fn merge(file_data: PriceMap, fetched: &PriceMap) -> (r: PriceMap)
    requires
        file_data.wf(),
        fetched.wf(),
    ensures
        r.wf(),
        r@ == file_data@.union_prefer_right(fetched@),
{
    let ghost m0 = file_data@;
    let mut r = file_data;
    proof {
        assert(m0.union_prefer_right(entries_map(fetched.entries@.take(0))) =~= m0);
    }
    let mut i: usize = 0;
    while i < fetched.entries.len()
        invariant
            i <= fetched.entries@.len(),
            r.wf(),
            r@ == m0.union_prefer_right(entries_map(fetched.entries@.take(i as int))),
        decreases fetched.entries@.len() - i,
    {
        let e = &fetched.entries[i];
        r.insert(copy_bytes(&e.date), copy_bytes(&e.value));
        proof {
            let t1 = fetched.entries@.take(i + 1);
            assert(t1.drop_last() =~= fetched.entries@.take(i as int));
            assert(t1.last() == fetched.entries@[i as int]);
            assert(m0.union_prefer_right(entries_map(t1)) =~= m0.union_prefer_right(
                entries_map(fetched.entries@.take(i as int)),
            ).insert(e.date@, e.value@));
        }
        i = i + 1;
    }
    proof {
        assert(fetched.entries@.take(fetched.entries@.len() as int) =~= fetched.entries@);
    }
    r
}

/// Merging disjoint date sets only adds: the merged mapping's size is the
/// sum of both input sizes.
pub proof fn lemma_merge_disjoint_sizes(a: Map<Seq<u8>, Seq<u8>>, b: Map<Seq<u8>, Seq<u8>>)
    requires
        a.dom().finite(),
        b.dom().finite(),
        a.dom().disjoint(b.dom()),
    ensures
        a.union_prefer_right(b).dom().finite(),
        a.union_prefer_right(b).dom().len() == a.dom().len() + b.dom().len(),
{
    assert(a.union_prefer_right(b).dom() =~= a.dom() + b.dom());
    vstd::set_lib::lemma_set_disjoint_lens(a.dom(), b.dom());
}

/// For a date present in both the file's and the fetched data, the merged
/// mapping holds the fetched value, never the file's prior one.
pub proof fn lemma_merge_overwrites(
    a: Map<Seq<u8>, Seq<u8>>,
    b: Map<Seq<u8>, Seq<u8>>,
    d: Seq<u8>,
)
    requires
        b.dom().contains(d),
    ensures
        a.union_prefer_right(b).dom().contains(d),
        a.union_prefer_right(b)[d] == b[d],
{
}

} // verus!
