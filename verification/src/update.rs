//! The whole batch step on plain values: turn the fetched closing prices
//! into directive values, parse the ledger file's lines, merge the two with
//! the fetched data winning on a shared date, and render the new file
//! contents. The surrounding binary only fetches, reads and writes.

use crate::bytes::copy_bytes;
use crate::ledger::{err_matches, ledger_map_spec, line_ok, parse_ledger, ParseError};
use crate::output::{output_lines, render_output};
use crate::prices::{merge, PriceMap};
use crate::render::{format_price_value, formatted_value, FormatOptions};
use vstd::prelude::*;

verus! {

/// One fetched closing price: the trading day and the price as a decimal
/// number `mantissa / 10^scale`.
pub struct PricePoint {
    /// Calendar date, zero-padded ISO text.
    pub date: Vec<u8>,
    /// The price's digits as an integer.
    pub mantissa: u64,
    /// How many of the mantissa's digits are fractional.
    pub scale: usize,
}

impl PricePoint {
    /// The scale stays small enough for `10^scale` to be computed exactly.
    pub open spec fn wf(&self) -> bool {
        self.scale <= 19
    }
}

/// The fetched days all carry distinct dates.
pub open spec fn distinct_point_dates(points: Seq<PricePoint>) -> bool {
    forall|i: int, j: int| 0 <= i < j < points.len() ==> points[i].date@ != points[j].date@
}

/// `m` is the fetched data as a mapping: one entry per fetched day, holding
/// that day's formatted directive value.
pub open spec fn fetched_matches(
    m: Map<Seq<u8>, Seq<u8>>,
    points: Seq<PricePoint>,
    opts: FormatOptions,
) -> bool {
    &&& forall|i: int| 0 <= i < points.len() ==> m.dom().contains((#[trigger] points[i]).date@)
    &&& forall|k: Seq<u8>|
        #[trigger] m.dom().contains(k) ==> exists|i: int|
            0 <= i < points.len() && points[i].date@ == k
    &&& forall|i: int|
        0 <= i < points.len() ==> formatted_value(
            m[(#[trigger] points[i]).date@],
            points[i].mantissa as nat,
            points[i].scale as nat,
            opts,
        )
}

/// Builds the mapping from fetched date to formatted directive value. Two
/// fetched entries for one date cannot come from a correct upstream, so a
/// repeated date is refused, handing back that date.
pub fn build_fetched_map(points: &Vec<PricePoint>, opts: &FormatOptions) -> (r: Result<
    PriceMap,
    Vec<u8>,
>)
    requires
        forall|i: int| 0 <= i < points@.len() ==> (#[trigger] points@[i]).wf(),
    ensures
        match r {
            Ok(m) => m.wf() && distinct_point_dates(points@) && fetched_matches(
                m@,
                points@,
                *opts,
            ),
            Err(d) => exists|i: int, j: int|
                0 <= i < j < points@.len() && (#[trigger] points@[i]).date@ == (
                #[trigger] points@[j]).date@ && d@ == points@[j].date@,
        },
{
    let mut m = PriceMap::new();
    let mut i: usize = 0;
    while i < points.len()
        invariant
            i <= points@.len(),
            m.wf(),
            forall|i: int| 0 <= i < points@.len() ==> (#[trigger] points@[i]).wf(),
            forall|j: int| 0 <= j < i ==> m@.dom().contains((#[trigger] points@[j]).date@),
            forall|k: Seq<u8>|
                #[trigger] m@.dom().contains(k) ==> exists|j: int|
                    0 <= j < i && points@[j].date@ == k,
            forall|j: int|
                0 <= j < i ==> formatted_value(
                    m@[(#[trigger] points@[j]).date@],
                    points@[j].mantissa as nat,
                    points@[j].scale as nat,
                    *opts,
                ),
            forall|a: int, b: int| 0 <= a < b < i ==> points@[a].date@ != points@[b].date@,
        decreases points@.len() - i,
    {
        let p = &points[i];
        if m.contains_date(&p.date) {
            proof {
                let j = choose|j: int| 0 <= j < i && points@[j].date@ == p.date@;
                assert(points@[j].date@ == points@[i as int].date@);
            }
            return Err(copy_bytes(&p.date));
        }
        let v = format_price_value(p.mantissa, p.scale, opts);
        let ghost m0 = m@;
        m.insert(copy_bytes(&p.date), v);
        proof {
            assert(m@ == m0.insert(p.date@, v@));
            assert forall|j: int| 0 <= j < i + 1 implies formatted_value(
                m@[(#[trigger] points@[j]).date@],
                points@[j].mantissa as nat,
                points@[j].scale as nat,
                *opts,
            ) by {
                if j < i {
                    assert(points@[j].date@ != p.date@);
                    assert(m@[points@[j].date@] == m0[points@[j].date@]);
                }
            }
            assert forall|k: Seq<u8>| #[trigger] m@.dom().contains(k) implies exists|j: int|
                0 <= j < i + 1 && points@[j].date@ == k by {
                if k != p.date@ {
                    let j = choose|j: int| 0 <= j < i && points@[j].date@ == k;
                    assert(points@[j].date@ == k);
                } else {
                    assert(points@[i as int].date@ == k);
                }
            }
        }
        i = i + 1;
    }
    Ok(m)
}

/// Why the batch step gave no new file contents.
#[derive(Debug)]
pub enum UpdateError {
    /// A ledger line is malformed; nothing was merged or rendered.
    Malformed(ParseError),
    /// The fetched data repeats this date, which a correct upstream cannot
    /// produce.
    DuplicateDate { date: Vec<u8> },
}

/// The whole batch step: format the fetched prices, parse the ledger's
/// lines, merge (fetched data wins on a shared date), and render the new
/// file contents, newest date first under the generated-by line. The
/// fetched data's duplicate check comes first, as the fetch precedes the
/// file read; any malformed line then stops everything before output.
pub fn update_ledger(
    file_lines: &Vec<Vec<u8>>,
    points: &Vec<PricePoint>,
    opts: &FormatOptions,
    tool_name: &Vec<u8>,
    tool_version: &Vec<u8>,
) -> (r: Result<Vec<Vec<u8>>, UpdateError>)
    requires
        forall|i: int| 0 <= i < points@.len() ==> (#[trigger] points@[i]).wf(),
    ensures
        match r {
            Ok(out) => distinct_point_dates(points@) && (forall|i: int|
                0 <= i < file_lines@.len() ==> line_ok(#[trigger] file_lines@[i]@)) && (exists|
                fetched: Map<Seq<u8>, Seq<u8>>,
            |
                #[trigger] fetched_matches(fetched, points@, *opts) && output_lines(
                    out.deep_view(),
                    ledger_map_spec(file_lines.deep_view()).union_prefer_right(fetched),
                    tool_name@,
                    tool_version@,
                )),
            Err(UpdateError::DuplicateDate { date }) => exists|i: int, j: int|
                0 <= i < j < points@.len() && (#[trigger] points@[i]).date@ == (
                #[trigger] points@[j]).date@ && date@ == points@[j].date@,
            Err(UpdateError::Malformed(e)) => distinct_point_dates(points@) && (exists|i: int|
                0 <= i < file_lines@.len() && !line_ok(#[trigger] file_lines@[i]@) && err_matches(
                    e,
                    file_lines@[i]@,
                ) && (forall|j: int| 0 <= j < i ==> line_ok(#[trigger] file_lines@[j]@))),
        },
{
    let fetched = match build_fetched_map(points, opts) {
        Ok(m) => m,
        Err(d) => {
            return Err(UpdateError::DuplicateDate { date: d });
        },
    };
    let file_data = match parse_ledger(file_lines) {
        Ok(m) => m,
        Err(e) => {
            return Err(UpdateError::Malformed(e));
        },
    };
    let merged = merge(file_data, &fetched);
    let out = render_output(&merged, tool_name, tool_version);
    proof {
        assert(fetched_matches(fetched@, points@, *opts) && output_lines(
            out.deep_view(),
            ledger_map_spec(file_lines.deep_view()).union_prefer_right(fetched@),
            tool_name@,
            tool_version@,
        ));
    }
    Ok(out)
}

} // verus!
