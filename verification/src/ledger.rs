//! Reading price directives out of a ledger file's lines.
//!
//! A line is trimmed of leading whitespace; a line opening with `;` is a
//! comment and is passed over. Every other line must be a price directive
//! `P <date> <value>`: the first word must be `P`, and the remainder must
//! split once more at a space into the date and the value text. Anything
//! else is a fatal parse error.

use crate::bytes::copy_range;
use crate::prices::{Entry, PriceMap};
use crate::render::SPACE;
use vstd::prelude::*;

verus! {

/// The comment marker `;`.
pub const SEMICOLON: u8 = 59;

/// The price directive marker `P`.
pub const MARKER_P: u8 = 80;

/// ASCII whitespace, the characters trimmed off a line's start.
pub open spec fn is_ws(b: u8) -> bool {
    b == 32 || b == 9 || b == 10 || b == 11 || b == 12 || b == 13
}

/// `s` without its leading whitespace.
pub open spec fn trimmed_start(s: Seq<u8>) -> Seq<u8>
    decreases s.len(),
{
    if s.len() > 0 && is_ws(s[0]) {
        trimmed_start(s.drop_first())
    } else {
        s
    }
}

/// Position of the first space of `s`, if any.
pub open spec fn first_space(s: Seq<u8>) -> Option<int>
    decreases s.len(),
{
    if s.len() == 0 {
        None
    } else if s[0] == SPACE {
        Some(0)
    } else {
        match first_space(s.drop_first()) {
            None => None,
            Some(i) => Some(i + 1),
        }
    }
}

/// `s` split at its first space, which itself is dropped.
pub open spec fn split_first_space(s: Seq<u8>) -> Option<(Seq<u8>, Seq<u8>)> {
    match first_space(s) {
        None => None,
        Some(i) => Some((s.take(i), s.skip(i + 1))),
    }
}

/// A comment line: its first character (after trimming) is `;`.
pub open spec fn is_comment(t: Seq<u8>) -> bool {
    t.len() > 0 && t[0] == SEMICOLON
}

/// What one raw line of the ledger file means.
pub enum LineParse {
    /// A comment, passed over.
    Comment,
    /// A price directive, with its date and value text.
    Directive { date: Seq<u8>, value: Seq<u8> },
    /// The line (after trimming) holds no space at all.
    NoSpaceErr,
    /// The line's first word is not the marker `P`.
    NotAPriceErr,
    /// Nothing follows the date: only one space in the line.
    OnlySpaceErr,
}

/// The parse of one raw line.
pub open spec fn parse_line_spec(line: Seq<u8>) -> LineParse {
    let t = trimmed_start(line);
    if is_comment(t) {
        LineParse::Comment
    } else {
        match split_first_space(t) {
            None => LineParse::NoSpaceErr,
            Some((word, rest)) => if word != seq![MARKER_P] {
                LineParse::NotAPriceErr
            } else {
                match split_first_space(rest) {
                    None => LineParse::OnlySpaceErr,
                    Some((date, value)) => LineParse::Directive { date, value },
                }
            },
        }
    }
}

/// The line parses: it is a comment or a directive.
pub open spec fn line_ok(line: Seq<u8>) -> bool {
    parse_line_spec(line) is Comment || parse_line_spec(line) is Directive
}

/// A malformed ledger line, carrying the offending line (trimmed).
#[derive(Debug)]
pub enum ParseError {
    /// The line holds no space at all.
    NoSpace { line: Vec<u8> },
    /// The line's first word is not the price marker `P`.
    NotAPrice { line: Vec<u8> },
    /// Nothing follows the date: the line has only one space.
    OnlySpace { line: Vec<u8> },
}

/// `e` is the error that parsing the raw line `l` gives.
pub open spec fn err_matches(e: ParseError, l: Seq<u8>) -> bool {
    match e {
        ParseError::NoSpace { line } => line@ == trimmed_start(l) && parse_line_spec(l)
            is NoSpaceErr,
        ParseError::NotAPrice { line } => line@ == trimmed_start(l) && parse_line_spec(l)
            is NotAPriceErr,
        ParseError::OnlySpace { line } => line@ == trimmed_start(l) && parse_line_spec(l)
            is OnlySpaceErr,
    }
}

proof fn lemma_first_space_facts(s: Seq<u8>)
    ensures
        match first_space(s) {
            Some(i) => 0 <= i < s.len() && s[i] == SPACE && (forall|j: int|
                0 <= j < i ==> s[j] != SPACE),
            None => forall|j: int| 0 <= j < s.len() ==> s[j] != SPACE,
        },
    decreases s.len(),
{
    if s.len() > 0 && s[0] != SPACE {
        lemma_first_space_facts(s.drop_first());
        assert(forall|j: int| 1 <= j < s.len() ==> s[j] == s.drop_first()[j - 1]);
    }
}

proof fn lemma_first_space_at(s: Seq<u8>, i: int)
    requires
        0 <= i < s.len(),
        s[i] == SPACE,
        forall|j: int| 0 <= j < i ==> s[j] != SPACE,
    ensures
        first_space(s) == Some(i),
{
    lemma_first_space_facts(s);
    match first_space(s) {
        Some(k) => {
            if k < i {
                assert(s[k] != SPACE);
            } else if k > i {
                assert(s[i] != SPACE);
            }
        },
        None => {
            assert(s[i] != SPACE);
        },
    }
}

proof fn lemma_first_space_none(s: Seq<u8>)
    requires
        forall|j: int| 0 <= j < s.len() ==> s[j] != SPACE,
    ensures
        first_space(s) == None::<int>,
{
    lemma_first_space_facts(s);
    match first_space(s) {
        Some(k) => {
            assert(s[k] != SPACE);
        },
        None => {},
    }
}

fn is_ws_byte(b: u8) -> (r: bool)
    ensures
        r == is_ws(b),
{
    b == 32 || b == 9 || b == 10 || b == 11 || b == 12 || b == 13
}

/// Looks for the first space at or after `from`.
fn find_space_from(line: &Vec<u8>, from: usize) -> (r: Option<usize>)
    requires
        from <= line@.len(),
    ensures
        match r {
            Some(i) => from <= i < line@.len() && line@[i as int] == SPACE && (forall|j: int|
                from <= j < i ==> line@[j] != SPACE),
            None => forall|j: int| from <= j < line@.len() ==> line@[j] != SPACE,
        },
{
    let mut i: usize = from;
    while i < line.len()
        invariant
            from <= i <= line@.len(),
            forall|j: int| from <= j < i ==> line@[j] != SPACE,
        decreases line@.len() - i,
    {
        if line[i] == SPACE {
            return Some(i);
        }
        i = i + 1;
    }
    None
}

/// Parses one raw ledger line: a comment gives nothing, a well-formed price
/// directive gives its entry, anything else the matching error carrying the
/// trimmed line.
pub fn parse_line(line: &Vec<u8>) -> (r: Result<Option<Entry>, ParseError>)
    ensures
        ({
            let p = parse_line_spec(line@);
            match r {
                Ok(None) => p is Comment,
                Ok(Some(e)) => p == (LineParse::Directive { date: e.date@, value: e.value@ }),
                Err(e) => err_matches(e, line@),
            }
        }),
{
    let n = line.len();
    let mut st: usize = 0;
    proof {
        assert(line@.skip(0) =~= line@);
    }
    while st < n && is_ws_byte(line[st])
        invariant
            st <= n == line@.len(),
            trimmed_start(line@) == trimmed_start(line@.skip(st as int)),
        decreases n - st,
    {
        proof {
            assert(line@.skip(st as int).drop_first() =~= line@.skip(st + 1));
            assert(line@.skip(st as int)[0] == line@[st as int]);
        }
        st = st + 1;
    }
    let ghost t = trimmed_start(line@);
    proof {
        assert(t == line@.skip(st as int));
        assert(t.len() == line@.len() - st);
        assert(forall|j: int| 0 <= j < t.len() ==> t[j] == line@[st + j]);
    }
    if st < n && line[st] == SEMICOLON {
        return Ok(None);
    }
    let sp1 = match find_space_from(line, st) {
        Some(i) => i,
        None => {
            proof {
                lemma_first_space_none(t);
            }
            return Err(ParseError::NoSpace { line: copy_range(line, st, n) });
        },
    };
    proof {
        lemma_first_space_at(t, sp1 - st);
    }
    if !(sp1 == st + 1 && line[st] == MARKER_P) {
        proof {
            let word = t.take(sp1 - st);
            if word == seq![MARKER_P] {
                assert(word.len() == 1);
                assert(word[0] == MARKER_P);
                assert(t[0] == line@[st as int]);
            }
        }
        return Err(ParseError::NotAPrice { line: copy_range(line, st, n) });
    }
    proof {
        assert(t.take(sp1 - st) =~= seq![MARKER_P]);
    }
    let ghost rest = t.skip(sp1 - st + 1);
    proof {
        assert(rest =~= line@.skip(sp1 + 1));
        assert(forall|j: int| 0 <= j < rest.len() ==> rest[j] == line@[sp1 + 1 + j]);
    }
    let sp2 = match find_space_from(line, sp1 + 1) {
        Some(i) => i,
        None => {
            proof {
                lemma_first_space_none(rest);
            }
            return Err(ParseError::OnlySpace { line: copy_range(line, st, n) });
        },
    };
    proof {
        lemma_first_space_at(rest, sp2 - (sp1 + 1));
    }
    let date = copy_range(line, sp1 + 1, sp2);
    let value = copy_range(line, sp2 + 1, n);
    proof {
        assert(date@ =~= rest.take(sp2 - (sp1 + 1)));
        assert(value@ =~= rest.skip(sp2 - (sp1 + 1) + 1));
    }
    Ok(Some(Entry { date, value }))
}

/// The mapping the ledger file's directive lines build up, each put in
/// under its date in file order: for a date written twice, the later line
/// silently wins.
pub open spec fn ledger_map_spec(lines: Seq<Seq<u8>>) -> Map<Seq<u8>, Seq<u8>>
    decreases lines.len(),
{
    if lines.len() == 0 {
        Map::empty()
    } else {
        let m = ledger_map_spec(lines.drop_last());
        match parse_line_spec(lines.last()) {
            LineParse::Directive { date, value } => m.insert(date, value),
            _ => m,
        }
    }
}

/// Parses a whole ledger file, given as its lines. Every line must parse;
/// the first malformed line gives its error and nothing is kept.
pub fn parse_ledger(lines: &Vec<Vec<u8>>) -> (r: Result<PriceMap, ParseError>)
    ensures
        match r {
            Ok(m) => m.wf() && m@ == ledger_map_spec(lines.deep_view()) && (forall|i: int|
                0 <= i < lines@.len() ==> line_ok(#[trigger] lines@[i]@)),
            Err(e) => exists|i: int|
                0 <= i < lines@.len() && !line_ok(#[trigger] lines@[i]@) && err_matches(
                    e,
                    lines@[i]@,
                ) && (forall|j: int| 0 <= j < i ==> line_ok(#[trigger] lines@[j]@)),
        },
{
    let mut m = PriceMap::new();
    let mut i: usize = 0;
    proof {
        assert(lines.deep_view().take(0) =~= Seq::<Seq<u8>>::empty());
    }
    while i < lines.len()
        invariant
            i <= lines@.len(),
            m.wf(),
            m@ == ledger_map_spec(lines.deep_view().take(i as int)),
            forall|j: int| 0 <= j < i ==> line_ok(#[trigger] lines@[j]@),
        decreases lines@.len() - i,
    {
        let parsed = parse_line(&lines[i]);
        proof {
            assert(lines.deep_view()[i as int] == lines@[i as int]@);
            assert(lines.deep_view().take(i + 1).drop_last() =~= lines.deep_view().take(i as int));
            assert(lines.deep_view().take(i + 1).last() == lines@[i as int]@);
        }
        match parsed {
            Ok(Some(e)) => {
                m.insert(e.date, e.value);
            },
            Ok(None) => {},
            Err(e) => {
                return Err(e);
            },
        }
        i = i + 1;
    }
    proof {
        assert(lines.deep_view().take(lines@.len() as int) =~= lines.deep_view());
    }
    Ok(m)
}

} // verus!
