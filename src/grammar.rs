//! Recognisers for the kinds of line that make up a unified diff.
use vstd::prelude::*;
use crate::text::{has_at, matches_at, string_from, no_nl};

verus! {

/// Unicode white space.
pub open spec fn is_ws(c: char) -> bool {
    let u = c as u32;
    (0x9 <= u <= 0xd) || u == 0x20 || u == 0x85 || u == 0xa0 || u == 0x1680 || (0x2000 <= u
        <= 0x200a) || u == 0x2028 || u == 0x2029 || u == 0x202f || u == 0x205f || u == 0x3000
}

pub open spec fn is_digit(c: char) -> bool {
    '0' <= c <= '9'
}

/// The end of the run of non-white-space characters of `l` that starts at `i`.
pub open spec fn non_ws_end(l: Seq<char>, i: int) -> int
    decreases l.len() - i,
{
    if i < 0 || i >= l.len() || is_ws(l[i]) {
        i
    } else {
        non_ws_end(l, i + 1)
    }
}

/// The end of the run of characters other than a tab that starts at `i`.
pub open spec fn non_tab_end(l: Seq<char>, i: int) -> int
    decreases l.len() - i,
{
    if i < 0 || i >= l.len() || l[i] == '\t' {
        i
    } else {
        non_tab_end(l, i + 1)
    }
}

/// The end of the run of decimal digits that starts at `i`.
pub open spec fn digits_end(l: Seq<char>, i: int) -> int
    decreases l.len() - i,
{
    if i < 0 || i >= l.len() || !is_digit(l[i]) {
        i
    } else {
        digits_end(l, i + 1)
    }
}

/// The number written by the decimal digits `s`.
pub open spec fn decimal_value(s: Seq<char>) -> int
    decreases s.len(),
{
    if s.len() == 0 {
        0
    } else {
        decimal_value(s.drop_last()) * 10 + ((s.last() as u32) - ('0' as u32))
    }
}

/// `diff --git <source> <target>`: the two paths, each a run of characters
/// other than white space, separated by one space.
pub open spec fn git_header(l: Seq<char>) -> Option<(Seq<char>, Seq<char>)> {
    let b = non_ws_end(l, 11);
    let c = non_ws_end(l, b + 1);
    if has_at(l, 0, seq!['d', 'i', 'f', 'f', ' ', '-', '-', 'g', 'i', 't', ' ']) && b > 11 && b
        < l.len() && l[b] == ' ' && c > b + 1 {
        Some((l.subrange(11, b), l.subrange(b + 1, c)))
    } else {
        None
    }
}

/// `mmm <name>` with `m` the marker character, optionally followed by a tab and
/// a timestamp: the name (no tab, not empty) and the timestamp (not empty).
pub open spec fn file_header(l: Seq<char>, m: char) -> Option<(Seq<char>, Option<Seq<char>>)> {
    let b = non_tab_end(l, 4);
    if has_at(l, 0, seq![m, m, m, ' ']) && b > 4 {
        Some(
            (
                l.subrange(4, b),
                if b + 1 < l.len() {
                    Some(l.subrange(b + 1, l.len() as int))
                } else {
                    None
                },
            ),
        )
    } else {
        None
    }
}

/// A number of at least one digit at `i`: its value and where it ends.
pub open spec fn number_at(l: Seq<char>, i: int) -> Option<(int, int)> {
    let e = digits_end(l, i);
    if 0 <= i && e > i {
        Some((decimal_value(l.subrange(i, e)), e))
    } else {
        None
    }
}

/// An optional `,<length>` at `i`: the length (1 when it is left out) and where
/// it ends.
pub open spec fn length_at(l: Seq<char>, i: int) -> (int, int) {
    if 0 <= i < l.len() && l[i] == ',' && number_at(l, i + 1) is Some {
        number_at(l, i + 1)->0
    } else {
        (1, i)
    }
}

/// The declared geometry of a hunk and the text after its header.
pub struct Geometry {
    pub source_start: int,
    pub source_length: int,
    pub target_start: int,
    pub target_length: int,
    pub section_header: Seq<char>,
}

/// `@@ -<start>[,<length>] +<start>[,<length>] @@[ ]<section header>`, where
/// each number fits in a `usize`.
pub open spec fn hunk_header(l: Seq<char>) -> Option<Geometry> {
    match number_at(l, 4) {
        Some((ss, a)) => {
            let (sl, b) = length_at(l, a);
            match number_at(l, b + 2) {
                Some((ts, c)) => {
                    let (tl, d) = length_at(l, c);
                    let e = d + 3;
                    if has_at(l, 0, seq!['@', '@', ' ', '-']) && has_at(l, b, seq![' ', '+'])
                        && has_at(l, d, seq![' ', '@', '@']) && ss <= usize::MAX && sl
                        <= usize::MAX && ts <= usize::MAX && tl <= usize::MAX {
                        Some(
                            Geometry {
                                source_start: ss,
                                source_length: sl,
                                target_start: ts,
                                target_length: tl,
                                section_header: if e < l.len() && l[e] == ' ' {
                                    l.subrange(e + 1, l.len() as int)
                                } else {
                                    l.subrange(e, l.len() as int)
                                },
                            },
                        )
                    } else {
                        None
                    }
                },
                None => None,
            }
        },
        None => None,
    }
}

/// Whether a line can stand in a hunk's body: it is empty, starts with one of
/// the markers `+`, `-`, space or `\`, or is a hunk header.
pub open spec fn is_body_line(l: Seq<char>) -> bool {
    l.len() == 0 || l[0] == '+' || l[0] == '-' || l[0] == ' ' || l[0] == '\\' || hunk_header(
        l,
    ) is Some
}

/// The marker and the value of a line of a hunk's body. The marker is the first
/// character when it is `+`, `-`, space or `\`; an empty line, and a hunk header,
/// is read whole as the value of a context line.
pub open spec fn body_line(l: Seq<char>) -> (Seq<char>, Seq<char>) {
    if l.len() > 0 && (l[0] == '+' || l[0] == '-' || l[0] == ' ' || l[0] == '\\') {
        (seq![l[0]], l.subrange(1, l.len() as int))
    } else {
        (seq![' '], l)
    }
}

pub fn char_is_ws(c: char) -> (r: bool)
    ensures
        r == is_ws(c),
{
    let u = c as u32;
    (0x9 <= u && u <= 0xd) || u == 0x20 || u == 0x85 || u == 0xa0 || u == 0x1680 || (0x2000 <= u
        && u <= 0x200a) || u == 0x2028 || u == 0x2029 || u == 0x202f || u == 0x205f || u == 0x3000
}

fn find_non_ws_end(l: &Vec<char>, i: usize) -> (r: usize)
    requires
        i <= l@.len(),
    ensures
        r == non_ws_end(l@, i as int),
        i <= r <= l@.len(),
    decreases l@.len() - i,
{
    if i >= l.len() || char_is_ws(l[i]) {
        i
    } else {
        find_non_ws_end(l, i + 1)
    }
}

fn find_non_tab_end(l: &Vec<char>, i: usize) -> (r: usize)
    requires
        i <= l@.len(),
    ensures
        r == non_tab_end(l@, i as int),
        i <= r <= l@.len(),
    decreases l@.len() - i,
{
    if i >= l.len() || l[i] == '\t' {
        i
    } else {
        find_non_tab_end(l, i + 1)
    }
}

/// Recognises a `diff --git` line and returns its two paths.
pub fn match_git_header(l: &Vec<char>) -> (r: Option<(String, String)>)
    ensures
        match git_header(l@) {
            Some((s, t)) => r matches Some((rs, rt)) && rs@ == s && rt@ == t,
            None => r is None,
        },
{
    if !matches_at(l, 0, &['d', 'i', 'f', 'f', ' ', '-', '-', 'g', 'i', 't', ' ']) {
        return None;
    }
    let b = find_non_ws_end(l, 11);
    if b == 11 || b >= l.len() || l[b] != ' ' {
        return None;
    }
    let c = find_non_ws_end(l, b + 1);
    if c == b + 1 {
        return None;
    }
    Some((string_from(l, 11, b), string_from(l, b + 1, c)))
}

/// Recognises a `---` (with `m == '-'`) or `+++` (with `m == '+'`) line and
/// returns its name and timestamp.
pub fn match_file_header(l: &Vec<char>, m: char) -> (r: Option<(String, Option<String>)>)
    ensures
        match file_header(l@, m) {
            Some((n, t)) => r matches Some((rn, rt)) && rn@ == n && match t {
                Some(t) => rt matches Some(x) && x@ == t,
                None => rt is None,
            },
            None => r is None,
        },
{
    if !matches_at(l, 0, &[m, m, m, ' ']) {
        return None;
    }
    let b = find_non_tab_end(l, 4);
    if b == 4 {
        return None;
    }
    let ts = if l.len() - b > 1 {
        Some(string_from(l, b + 1, l.len()))
    } else {
        None
    };
    Some((string_from(l, 4, b), ts))
}


proof fn lemma_decimal_push(s: Seq<char>, c: char)
    ensures
        decimal_value(s.push(c)) == decimal_value(s) * 10 + ((c as u32) - ('0' as u32)),
{
    assert(s.push(c).drop_last() == s);
}

proof fn lemma_decimal_nonneg(s: Seq<char>)
    requires
        forall|j: int| 0 <= j < s.len() ==> is_digit(#[trigger] s[j]),
    ensures
        decimal_value(s) >= 0,
    decreases s.len(),
{
    if s.len() > 0 {
        lemma_decimal_nonneg(s.drop_last());
    }
}

pub proof fn lemma_digits_end(l: Seq<char>, i: int)
    requires
        0 <= i <= l.len(),
    ensures
        i <= digits_end(l, i) <= l.len(),
        forall|j: int| i <= j < digits_end(l, i) ==> is_digit(#[trigger] l[j]),
        digits_end(l, i) < l.len() ==> !is_digit(l[digits_end(l, i)]),
    decreases l.len() - i,
{
    if i < l.len() && is_digit(l[i]) {
        lemma_digits_end(l, i + 1);
    }
}

pub proof fn lemma_length_at(l: Seq<char>, i: int)
    requires
        0 <= i <= l.len(),
    ensures
        i <= length_at(l, i).1 <= l.len(),
        0 <= length_at(l, i).0,
        number_at(l, i) matches Some((v, e)) ==> i < e <= l.len() && 0 <= v,
{
    lemma_number_at(l, i);
    if i + 1 <= l.len() {
        lemma_number_at(l, i + 1);
    }
}

pub proof fn lemma_number_at(l: Seq<char>, i: int)
    requires
        0 <= i <= l.len(),
    ensures
        number_at(l, i) matches Some((v, e)) ==> i < e <= l.len() && 0 <= v,
        i <= digits_end(l, i) <= l.len(),
{
    lemma_digits_end(l, i);
    let e = digits_end(l, i);
    assert forall|j: int| 0 <= j < e - i implies is_digit(#[trigger] l.subrange(i, e)[j]) by {
        assert(l.subrange(i, e)[j] == l[i + j]);
    }
    lemma_decimal_nonneg(l.subrange(i, e));
}

/// The numbers of a hunk header are natural numbers that fit in a `usize`, and
/// its section header is part of the line.
pub proof fn lemma_hunk_header_facts(l: Seq<char>)
    ensures
        hunk_header(l) matches Some(g) ==> {
            &&& 0 <= g.source_start <= usize::MAX
            &&& 0 <= g.source_length <= usize::MAX
            &&& 0 <= g.target_start <= usize::MAX
            &&& 0 <= g.target_length <= usize::MAX
            &&& (no_nl(l) ==> no_nl(g.section_header))
        },
{
    if let Some(g) = hunk_header(l) {
        lemma_length_at(l, 4);
        let (ss, a) = number_at(l, 4)->0;
        lemma_length_at(l, a);
        let (sl, b) = length_at(l, a);
        lemma_length_at(l, b + 2);
        let (ts, c) = number_at(l, b + 2)->0;
        lemma_length_at(l, c);
        let (tl, d) = length_at(l, c);
        let e = d + 3;
        if no_nl(l) {
            let start = if e < l.len() && l[e] == ' ' {
                e + 1
            } else {
                e
            };
            assert forall|i: int| 0 <= i < g.section_header.len() implies g.section_header[i]
                != '\n' by {
                assert(g.section_header[i] == l[start + i]);
            }
        }
    }
}

/// Reads the run of digits at `i`: where it ends, and its value when that
/// fits in a `usize`.
fn read_number(l: &Vec<char>, i: usize) -> (r: (usize, Option<usize>))
    requires
        i <= l@.len(),
    ensures
        r.0 == digits_end(l@, i as int),
        r.0 > i ==> match r.1 {
            Some(v) => v == decimal_value(l@.subrange(i as int, r.0 as int)),
            None => decimal_value(l@.subrange(i as int, r.0 as int)) > usize::MAX,
        },
{
    proof {
        lemma_digits_end(l@, i as int);
    }
    let ghost e = digits_end(l@, i as int);
    let mut k: usize = i;
    let mut v: usize = 0;
    let mut overflow = false;
    while k < l.len() && '0' <= l[k] && l[k] <= '9'
        invariant
            i <= k <= e,
            e <= l@.len(),
            forall|j: int| i <= j < e ==> is_digit(#[trigger] l@[j]),
            e < l@.len() ==> !is_digit(l@[e]),
            overflow ==> decimal_value(l@.subrange(i as int, k as int)) > usize::MAX,
            !overflow ==> v == decimal_value(l@.subrange(i as int, k as int)),
        decreases l.len() - k,
    {
        let d = (l[k] as u32 - '0' as u32) as usize;
        proof {
            lemma_decimal_push(l@.subrange(i as int, k as int), l@[k as int]);
            assert(l@.subrange(i as int, k + 1) == l@.subrange(i as int, k as int).push(
                l@[k as int],
            ));
            assert forall|j: int| 0 <= j < k - i implies is_digit(
                #[trigger] l@.subrange(i as int, k as int)[j],
            ) by {
                assert(l@.subrange(i as int, k as int)[j] == l@[i + j]);
            }
            lemma_decimal_nonneg(l@.subrange(i as int, k as int));
        }
        if !overflow {
            if v > (usize::MAX - d) / 10 {
                overflow = true;
                assert(v * 10 + d > usize::MAX) by (nonlinear_arith)
                    requires
                        v > (usize::MAX - d) / 10,
                        d <= 9,
                ;
            } else {
                assert(v * 10 + d <= usize::MAX) by (nonlinear_arith)
                    requires
                        v <= (usize::MAX - d) / 10,
                        d <= 9,
                ;
                v = v * 10 + d;
            }
        }
        k = k + 1;
    }
    if overflow {
        (k, None)
    } else {
        (k, Some(v))
    }
}

/// Reads a number at `i`: `Some` when at least one digit stands there and the
/// value fits in a `usize`; `Err` when it does not fit.
fn read_required(l: &Vec<char>, i: usize) -> (r: Result<Option<(usize, usize)>, ()>)
    requires
        i <= l@.len(),
    ensures
        match number_at(l@, i as int) {
            Some((v, e)) => if v <= usize::MAX {
                r == Ok::<Option<(usize, usize)>, ()>(Some((v as usize, e as usize)))
            } else {
                r is Err
            },
            None => r == Ok::<Option<(usize, usize)>, ()>(None),
        },
        r matches Ok(Some((v, e))) ==> i < e <= l@.len(),
{
    let (e, v) = read_number(l, i);
    proof {
        lemma_number_at(l@, i as int);
    }
    if e == i {
        Ok(None)
    } else {
        match v {
            Some(v) => Ok(Some((v, e))),
            None => Err(()),
        }
    }
}

/// Reads an optional `,<length>` at `i`; `None` when a length stands there that
/// does not fit in a `usize`.
fn read_length(l: &Vec<char>, i: usize) -> (r: Option<(usize, usize)>)
    requires
        i <= l@.len(),
    ensures
        ({
            let (v, e) = length_at(l@, i as int);
            if v <= usize::MAX {
                r == Some((v as usize, e as usize))
            } else {
                r is None
            }
        }),
        r matches Some((v, e)) ==> i <= e <= l@.len(),
{
    proof {
        if i + 1 <= l@.len() {
            lemma_digits_end(l@, i + 1);
        }
    }
    if i < l.len() && l[i] == ',' {
        match read_required(l, i + 1) {
            Ok(Some((v, e))) => Some((v, e)),
            Ok(None) => Some((1, i)),
            Err(()) => None,
        }
    } else {
        Some((1, i))
    }
}

/// Recognises a hunk header and returns its starts, lengths and section header.
pub fn match_hunk_header(l: &Vec<char>) -> (r: Option<(usize, usize, usize, usize, String)>)
    ensures
        match hunk_header(l@) {
            Some(g) => r matches Some((ss, sl, ts, tl, sec)) && ss == g.source_start && sl
                == g.source_length && ts == g.target_start && tl == g.target_length && sec@
                == g.section_header,
            None => r is None,
        },
{
    // brings the bound of the line's length into the proof
    let _len = l.len();
    if !matches_at(l, 0, &['@', '@', ' ', '-']) {
        return None;
    }
    proof {
        lemma_length_at(l@, 4);
    }
    let (ss, a) = match read_required(l, 4) {
        Ok(Some(x)) => x,
        _ => return None,
    };
    proof {
        lemma_length_at(l@, a as int);
    }
    let (sl, b) = match read_length(l, a) {
        Some(x) => x,
        None => return None,
    };
    if !matches_at(l, b, &[' ', '+']) {
        return None;
    }
    proof {
        lemma_length_at(l@, b + 2);
    }
    let (ts, c) = match read_required(l, b + 2) {
        Ok(Some(x)) => x,
        _ => return None,
    };
    proof {
        lemma_length_at(l@, c as int);
    }
    let (tl, d) = match read_length(l, c) {
        Some(x) => x,
        None => return None,
    };
    if !matches_at(l, d, &[' ', '@', '@']) {
        return None;
    }
    let e = d + 3;
    let sec = if e < l.len() && l[e] == ' ' {
        string_from(l, e + 1, l.len())
    } else {
        string_from(l, e, l.len())
    };
    Some((ss, sl, ts, tl, sec))
}

/// Splits a line of a hunk's body into its marker and its value.
/// `None` when the line cannot stand in a hunk's body.
pub fn match_body_line(l: &Vec<char>) -> (r: Option<(String, String)>)
    ensures
        match r {
            Some((t, v)) => is_body_line(l@) && (t@, v@) == body_line(l@),
            None => !is_body_line(l@),
        },
{
    if l.len() > 0 && (l[0] == '+' || l[0] == '-' || l[0] == ' ' || l[0] == '\\') {
        let mut t = String::new();
        t.push(l[0]);
        assert(t@ =~= seq![l@[0]]);
        Some((t, string_from(l, 1, l.len())))
    } else if l.len() == 0 || match_hunk_header(l).is_some() {
        let mut t = String::new();
        t.push(' ');
        assert(t@ =~= seq![' ']);
        Some((t, string_from(l, 0, l.len())))
    } else {
        None
    }
}

} // verus!
