//! Writing the merged mapping back out as the new file contents: one
//! generated-by comment line, then one price directive per date, sorted by
//! date descending — for zero-padded ISO dates that is newest first.

use crate::bytes::{bytes_lt, copy_bytes, lemma_lex_total, lemma_lex_trans, lex_lt, push_all};
use crate::ledger::MARKER_P;
use crate::prices::{
    distinct_dates, lemma_entries_map_dom, lemma_entries_map_len, lemma_entries_map_value, Entry,
    PriceMap,
};
use crate::render::SPACE;
use vstd::prelude::*;

verus! {

/// The dates are strictly descending: each is strictly above every later one.
pub open spec fn strictly_descending(ds: Seq<Seq<u8>>) -> bool {
    forall|i: int, j: int| 0 <= i < j < ds.len() ==> lex_lt(#[trigger] ds[j], #[trigger] ds[i])
}

/// `ds` lists exactly the dates of `m`, each of which it holds somewhere.
pub open spec fn lists_dates_of(ds: Seq<Seq<u8>>, m: Map<Seq<u8>, Seq<u8>>) -> bool {
    &&& forall|i: int| 0 <= i < ds.len() ==> m.dom().contains(#[trigger] ds[i])
    &&& forall|k: Seq<u8>| #[trigger] m.dom().contains(k) ==> ds.contains(k)
}

/// The text `; Generated by `.
pub open spec fn generated_by_text() -> Seq<u8> {
    seq![59u8, 32, 71, 101, 110, 101, 114, 97, 116, 101, 100, 32, 98, 121, 32]
}

/// The text ` V` put between tool name and version.
pub open spec fn version_mark() -> Seq<u8> {
    seq![32u8, 86]
}

/// The generated-by comment line naming the tool and its version.
pub open spec fn header_line(name: Seq<u8>, version: Seq<u8>) -> Seq<u8> {
    generated_by_text() + name + version_mark() + version
}

/// A price directive line: `P <date> <value>`.
pub open spec fn directive_line(date: Seq<u8>, value: Seq<u8>) -> Seq<u8> {
    seq![MARKER_P, SPACE] + date + seq![SPACE] + value
}

/// `ls` is the full output for mapping `m`: the generated-by line, then one
/// directive line per date of `m`, in strictly descending date order.
pub open spec fn output_lines(
    ls: Seq<Seq<u8>>,
    m: Map<Seq<u8>, Seq<u8>>,
    name: Seq<u8>,
    version: Seq<u8>,
) -> bool {
    &&& ls.len() == m.dom().len() + 1
    &&& ls.len() > 0 && ls[0] == header_line(name, version)
    &&& exists|ds: Seq<Seq<u8>>|
        #[trigger] lists_dates_of(ds, m) && strictly_descending(ds) && ds.len() + 1 == ls.len()
            && (forall|i: int| 1 <= i < ls.len() ==> ls[i] == directive_line(ds[i - 1], m[ds[i - 1]]))
}

fn max_date_index(src: &Vec<Entry>) -> (mx: usize)
    requires
        src@.len() > 0,
        distinct_dates(src@),
    ensures
        mx < src@.len(),
        forall|j: int|
            0 <= j < src@.len() && j != mx ==> lex_lt(
                (#[trigger] src@[j]).date@,
                src@[mx as int].date@,
            ),
{
    let mut mx: usize = 0;
    let mut i: usize = 1;
    while i < src.len()
        invariant
            mx < i <= src@.len(),
            distinct_dates(src@),
            forall|j: int|
                0 <= j < i && j != mx ==> lex_lt((#[trigger] src@[j]).date@, src@[mx as int].date@),
        decreases src@.len() - i,
    {
        if bytes_lt(&src[mx].date, &src[i].date) {
            proof {
                assert forall|j: int| 0 <= j < i + 1 && j != i implies lex_lt(
                    (#[trigger] src@[j]).date@,
                    src@[i as int].date@,
                ) by {
                    if j != mx {
                        lemma_lex_trans(src@[j].date@, src@[mx as int].date@, src@[i as int].date@);
                    }
                }
            }
            mx = i;
        } else {
            proof {
                lemma_lex_total(src@[mx as int].date@, src@[i as int].date@);
                assert(src@[mx as int].date@ != src@[i as int].date@);
            }
        }
        i = i + 1;
    }
    mx
}

/// The mapping's entries ordered by date, newest (greatest date) first.
pub fn sorted_entries(m: &PriceMap) -> (r: Vec<Entry>)
    requires
        m.wf(),
    ensures
        r@.len() == m@.dom().len(),
        forall|a: int, b: int|
            0 <= a < b < r@.len() ==> lex_lt((#[trigger] r@[b]).date@, (#[trigger] r@[a]).date@),
        forall|i: int|
            0 <= i < r@.len() ==> m@.contains_pair((#[trigger] r@[i]).date@, r@[i].value@),
        forall|k: Seq<u8>|
            #[trigger] m@.dom().contains(k) ==> exists|i: int|
                0 <= i < r@.len() && r@[i].date@ == k,
{
    let mut src: Vec<Entry> = Vec::new();
    let mut i: usize = 0;
    while i < m.entries.len()
        invariant
            i <= m.entries@.len(),
            src@.len() == i,
            forall|j: int|
                0 <= j < i ==> (#[trigger] src@[j]).date@ == m.entries@[j].date@ && src@[j].value@
                    == m.entries@[j].value@,
        decreases m.entries@.len() - i,
    {
        let e = &m.entries[i];
        src.push(Entry { date: copy_bytes(&e.date), value: copy_bytes(&e.value) });
        i = i + 1;
    }
    proof {
        lemma_entries_map_len(m.entries@);
        lemma_entries_map_dom(m.entries@);
        assert(distinct_dates(src@));
        assert forall|idx: int| 0 <= idx < src@.len() implies m@.contains_pair(
            (#[trigger] src@[idx]).date@,
            src@[idx].value@,
        ) by {
            lemma_entries_map_value(m.entries@, idx);
        }
        assert forall|k: Seq<u8>| #[trigger] m@.dom().contains(k) implies exists|idx: int|
            0 <= idx < src@.len() && (#[trigger] src@[idx]).date@ == k by {
            let idx = choose|idx: int|
                0 <= idx < m.entries@.len() && #[trigger] m.entries@[idx].date@ == k;
            assert(src@[idx].date@ == k);
        }
    }
    let ghost n = src@.len();
    let mut out: Vec<Entry> = Vec::new();
    while src.len() > 0
        invariant
            out@.len() + src@.len() == n,
            n == m@.dom().len(),
            distinct_dates(src@),
            forall|a: int, b: int|
                0 <= a < b < out@.len() ==> lex_lt(
                    (#[trigger] out@[b]).date@,
                    (#[trigger] out@[a]).date@,
                ),
            out@.len() > 0 ==> forall|idx: int|
                0 <= idx < src@.len() ==> lex_lt(
                    (#[trigger] src@[idx]).date@,
                    out@[out@.len() - 1].date@,
                ),
            forall|idx: int|
                0 <= idx < out@.len() ==> m@.contains_pair(
                    (#[trigger] out@[idx]).date@,
                    out@[idx].value@,
                ),
            forall|idx: int|
                0 <= idx < src@.len() ==> m@.contains_pair(
                    (#[trigger] src@[idx]).date@,
                    src@[idx].value@,
                ),
            forall|k: Seq<u8>|
                #[trigger] m@.dom().contains(k) ==> (exists|idx: int|
                    0 <= idx < out@.len() && (#[trigger] out@[idx]).date@ == k) || (exists|idx: int|
                    0 <= idx < src@.len() && (#[trigger] src@[idx]).date@ == k),
        decreases src@.len(),
    {
        let mx = max_date_index(&src);
        let ghost src0 = src@;
        let ghost out0 = out@;
        let e = src.remove(mx);
        out.push(e);
        proof {
            assert(src@ == src0.remove(mx as int));
            assert(forall|a: int| 0 <= a < mx ==> #[trigger] src0.remove(mx as int)[a] == src0[a]);
            assert(forall|a: int|
                mx <= a < src0.remove(mx as int).len() ==> #[trigger] src0.remove(mx as int)[a]
                    == src0[a + 1]);
            assert(out@ == out0.push(e));
            assert(e == src0[mx as int]);
            // The new last entry is below everything already placed.
            assert forall|a: int| 0 <= a < out@.len() - 1 implies lex_lt(
                e.date@,
                (#[trigger] out@[a]).date@,
            ) by {
                assert(out@[a] == out0[a]);
                if out0.len() > 0 {
                    if a == out0.len() - 1 {
                        assert(lex_lt(e.date@, out0[out0.len() - 1].date@));
                    } else {
                        lemma_lex_trans(e.date@, out0[out0.len() - 1].date@, out0[a].date@);
                    }
                }
            }
            // Everything still waiting is below the new last entry.
            assert forall|idx: int| 0 <= idx < src@.len() implies lex_lt(
                (#[trigger] src@[idx]).date@,
                out@[out@.len() - 1].date@,
            ) by {
                if idx < mx {
                    assert(src@[idx] == src0[idx]);
                } else {
                    assert(src@[idx] == src0[idx + 1]);
                }
            }
            // Every date of the mapping is still placed or waiting.
            assert forall|k: Seq<u8>| #[trigger] m@.dom().contains(k) implies ((exists|idx: int|
                0 <= idx < out@.len() && (#[trigger] out@[idx]).date@ == k) || (exists|idx: int|
                0 <= idx < src@.len() && (#[trigger] src@[idx]).date@ == k)) by {
                if exists|idx: int| 0 <= idx < out0.len() && (#[trigger] out0[idx]).date@ == k {
                    let idx = choose|idx: int|
                        0 <= idx < out0.len() && (#[trigger] out0[idx]).date@ == k;
                    assert(out@[idx].date@ == k);
                } else {
                    let idx = choose|idx: int|
                        0 <= idx < src0.len() && (#[trigger] src0[idx]).date@ == k;
                    if idx == mx {
                        assert(out@[out@.len() - 1].date@ == k);
                    } else if idx < mx {
                        assert(src@[idx].date@ == k);
                    } else {
                        assert(src@[idx - 1].date@ == k);
                    }
                }
            }
        }
    }
    out
}

fn header_vec(name: &Vec<u8>, version: &Vec<u8>) -> (r: Vec<u8>)
    ensures
        r@ == header_line(name@, version@),
{
    let mut r: Vec<u8> = Vec::new();
    r.push(59);
    r.push(32);
    r.push(71);
    r.push(101);
    r.push(110);
    r.push(101);
    r.push(114);
    r.push(97);
    r.push(116);
    r.push(101);
    r.push(100);
    r.push(32);
    r.push(98);
    r.push(121);
    r.push(32);
    proof {
        assert(r@ =~= generated_by_text());
    }
    push_all(&mut r, name);
    let ghost base = generated_by_text() + name@;
    r.push(32);
    r.push(86);
    proof {
        assert(r@ =~= base + version_mark());
    }
    push_all(&mut r, version);
    proof {
        assert(r@ =~= generated_by_text() + name@ + version_mark() + version@);
    }
    r
}

fn directive_vec(e: &Entry) -> (r: Vec<u8>)
    ensures
        r@ == directive_line(e.date@, e.value@),
{
    let mut r: Vec<u8> = Vec::new();
    r.push(MARKER_P);
    r.push(SPACE);
    proof {
        assert(r@ =~= seq![MARKER_P, SPACE]);
    }
    push_all(&mut r, &e.date);
    let ghost base = seq![MARKER_P, SPACE] + e.date@;
    r.push(SPACE);
    proof {
        assert(r@ =~= base + seq![SPACE]);
    }
    push_all(&mut r, &e.value);
    proof {
        assert(r@ =~= seq![MARKER_P, SPACE] + e.date@ + seq![SPACE] + e.value@);
    }
    r
}

/// Renders the whole new file: the generated-by comment line for the given
/// tool name and version, then one directive line per date, newest first.
pub fn render_output(m: &PriceMap, tool_name: &Vec<u8>, tool_version: &Vec<u8>) -> (r: Vec<
    Vec<u8>,
>)
    requires
        m.wf(),
    ensures
        output_lines(r.deep_view(), m@, tool_name@, tool_version@),
{
    let sorted = sorted_entries(m);
    let mut out: Vec<Vec<u8>> = Vec::new();
    out.push(header_vec(tool_name, tool_version));
    let mut i: usize = 0;
    while i < sorted.len()
        invariant
            i <= sorted@.len(),
            out@.len() == i + 1,
            out@[0]@ == header_line(tool_name@, tool_version@),
            forall|j: int|
                0 <= j < i ==> (#[trigger] out@[j + 1])@ == directive_line(
                    sorted@[j].date@,
                    sorted@[j].value@,
                ),
        decreases sorted@.len() - i,
    {
        out.push(directive_vec(&sorted[i]));
        i = i + 1;
    }
    proof {
        let ls = out.deep_view();
        let ds = Seq::new(sorted@.len() as nat, |j: int| sorted@[j].date@);
        assert(forall|j: int| 0 <= j < ls.len() ==> #[trigger] ls[j] == out@[j]@);
        assert forall|j: int| 0 <= j < ds.len() implies m@.dom().contains(#[trigger] ds[j]) by {
            assert(m@.contains_pair(sorted@[j].date@, sorted@[j].value@));
        }
        assert forall|k: Seq<u8>| #[trigger] m@.dom().contains(k) implies ds.contains(k) by {
            let idx = choose|idx: int| 0 <= idx < sorted@.len() && sorted@[idx].date@ == k;
            assert(ds[idx] == k);
        }
        assert(lists_dates_of(ds, m@));
        assert(strictly_descending(ds));
        assert forall|j: int| 1 <= j < ls.len() implies ls[j] == directive_line(
            ds[j - 1],
            m@[ds[j - 1]],
        ) by {
            assert(ds[j - 1] == sorted@[j - 1].date@);
            assert(m@.contains_pair(sorted@[j - 1].date@, sorted@[j - 1].value@));
            assert(m@[ds[j - 1]] == sorted@[j - 1].value@);
            assert(ls[j] == out@[j]@);
            assert(out@[(j - 1) + 1]@ == directive_line(sorted@[j - 1].date@, sorted@[j - 1].value@));
            assert(out@[j]@ == directive_line(sorted@[j - 1].date@, sorted@[j - 1].value@));
        }
        assert(ls.len() == m@.dom().len() + 1);
        assert(output_lines(ls, m@, tool_name@, tool_version@));
    }
    out
}

} // verus!
