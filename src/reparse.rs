//! Rendering a parsed patch set and reading the text back gives the same shape.
use vstd::prelude::*;
use crate::text::{
    join, lines_of, scan_lines, strip_cr, decimal, digit_char, has_at, lemma_join_push, no_nl,
};
use crate::grammar::{
    Geometry, hunk_header, git_header, file_header, body_line, is_body_line, number_at, length_at, digits_end,
    is_digit, decimal_value, lemma_digits_end,
};
use crate::line::{LineView, on_source_side, on_target_side, lemma_types_distinct};
use crate::hunk::{HunkView, append_all, empty_hunk};
use crate::file::{FileView, hunk_body, parsed_hunk};
use crate::patchset::{ParseState, step, run, flush, parse_text, start_state, patch_text};
use crate::laws::{
    valid_type, hunk_sound, file_sound, path_ok, lemma_parse_sound, count_source, count_target,
    numbered_from, stops_at_end, lemma_count_prepend,
};

verus! {

/// Every line but the last loses a final `\r`.
pub open spec fn stripped(p: Seq<Seq<char>>) -> Seq<Seq<char>> {
    p.map_values(|x: Seq<char>| strip_cr(x))
}

proof fn lemma_scan_append(t: Seq<char>, x: Seq<char>)
    requires
        no_nl(x),
    ensures
        scan_lines(t + x) == (scan_lines(t).0, scan_lines(t).1 + x),
    decreases x.len(),
{
    if x.len() == 0 {
        assert(t + x =~= t);
        assert(scan_lines(t).1 + x =~= scan_lines(t).1);
    } else {
        let y = x.drop_last();
        lemma_scan_append(t, y);
        assert((t + x).drop_last() =~= t + y);
        assert((t + x).last() == x.last());
        assert(scan_lines(t).1 + y + seq![x.last()] =~= scan_lines(t).1 + x);
        assert((scan_lines(t).1 + y).push(x.last()) =~= scan_lines(t).1 + x);
    }
}

/// The text of lines joined by line breaks reads back as those lines, each
/// but the last without a final `\r`.
pub proof fn lemma_scan_join(p: Seq<Seq<char>>)
    requires
        p.len() > 0,
        forall|k: int| 0 <= k < p.len() ==> no_nl(#[trigger] p[k]),
    ensures
        scan_lines(join(p, "\n"@)) == (stripped(p.drop_last()), p.last()),
    decreases p.len(),
{
    reveal_strlit("\n");
    if p.len() == 1 {
        lemma_scan_append(seq![], p[0]);
        assert(Seq::<char>::empty() + p[0] =~= p[0]);
        assert(scan_lines(Seq::<char>::empty()) == (Seq::<Seq<char>>::empty(), Seq::<char>::empty()));
        assert(stripped(p.drop_last()) =~= Seq::<Seq<char>>::empty());
        assert(Seq::<char>::empty() + p[0] =~= p[0]);
    } else {
        let q = p.drop_last();
        assert forall|k: int| 0 <= k < q.len() implies no_nl(#[trigger] q[k]) by {
            assert(q[k] == p[k]);
        }
        lemma_scan_join(q);
        let a = join(q, "\n"@) + "\n"@;
        assert(join(p, "\n"@) == a + p.last());
        assert(a.drop_last() =~= join(q, "\n"@));
        assert(a.last() == '\n');
        lemma_scan_append(a, p.last());
        assert(stripped(p.drop_last()) =~= stripped(q.drop_last()).push(strip_cr(q.last())));
        assert(Seq::<char>::empty() + p.last() =~= p.last());
    }
}

/// The lines of a text of lines joined by line breaks.
pub proof fn lemma_lines_of_join(p: Seq<Seq<char>>)
    requires
        p.len() > 0,
        forall|k: int| 0 <= k < p.len() ==> no_nl(#[trigger] p[k]),
    ensures
        lines_of(join(p, "\n"@)) == if p.last().len() == 0 {
            stripped(p.drop_last())
        } else {
            stripped(p.drop_last()).push(p.last())
        },
{
    lemma_scan_join(p);
}

/// The parts of `pp`, one after the other.
pub open spec fn flatten(pp: Seq<Seq<Seq<char>>>) -> Seq<Seq<char>>
    decreases pp.len(),
{
    if pp.len() == 0 {
        seq![]
    } else {
        flatten(pp.drop_last()) + pp.last()
    }
}

proof fn lemma_join_concat(a: Seq<Seq<char>>, b: Seq<Seq<char>>, sep: Seq<char>)
    requires
        a.len() > 0,
        b.len() > 0,
    ensures
        join(a + b, sep) == join(a, sep) + sep + join(b, sep),
    decreases b.len(),
{
    if b.len() == 1 {
        assert(a + b =~= a.push(b[0]));
        lemma_join_push(a, sep, b[0]);
    } else {
        let c = b.drop_last();
        lemma_join_concat(a, c, sep);
        assert(a + b =~= (a + c).push(b.last()));
        lemma_join_push(a + c, sep, b.last());
        assert(join(a, sep) + sep + join(c, sep) + sep + b.last() =~= join(a, sep) + sep + (join(
            c,
            sep,
        ) + sep + b.last()));
    }
}

proof fn lemma_join_flatten(pp: Seq<Seq<Seq<char>>>, sep: Seq<char>)
    requires
        pp.len() > 0,
        forall|k: int| 0 <= k < pp.len() ==> (#[trigger] pp[k]).len() > 0,
    ensures
        flatten(pp).len() > 0,
        join(flatten(pp), sep) == join(pp.map_values(|p: Seq<Seq<char>>| join(p, sep)), sep),
    decreases pp.len(),
{
    let m = pp.map_values(|p: Seq<Seq<char>>| join(p, sep));
    if pp.len() == 1 {
        assert(flatten(pp.drop_last()) =~= Seq::<Seq<char>>::empty());
        assert(flatten(pp) =~= pp[0]);
    } else {
        let q = pp.drop_last();
        assert forall|k: int| 0 <= k < q.len() implies (#[trigger] q[k]).len() > 0 by {
            assert(q[k] == pp[k]);
        }
        lemma_join_flatten(q, sep);
        assert(pp.last() == pp[pp.len() - 1]);
        lemma_join_concat(flatten(q), pp.last(), sep);
        assert(m.drop_last() =~= q.map_values(|p: Seq<Seq<char>>| join(p, sep)));
    }
}

/// The header line of a hunk, without its line break.
pub open spec fn header_line(h: HunkView) -> Seq<char> {
    "@@ -"@ + decimal(h.source_start as nat) + ","@ + decimal(h.source_length as nat) + " +"@
        + decimal(h.target_start as nat) + ","@ + decimal(h.target_length as nat) + " @@ "@
        + h.section_header
}

/// The lines of a rendered hunk: the header, then the lines (one empty line
/// when there are none).
pub open spec fn hunk_parts(h: HunkView) -> Seq<Seq<char>> {
    seq![header_line(h)] + if h.lines.len() == 0 {
        seq![seq![]]
    } else {
        h.lines.map_values(|l: LineView| l.text())
    }
}

/// The lines of a rendered file: the two file headers, then the lines of the
/// hunks (one empty line when there are none).
pub open spec fn file_parts(f: FileView) -> Seq<Seq<char>> {
    seq!["--- "@ + f.source_file, "+++ "@ + f.target_file] + if f.hunks.len() == 0 {
        seq![seq![]]
    } else {
        flatten(f.hunks.map_values(|h: HunkView| hunk_parts(h)))
    }
}

/// The lines of a rendered patch set.
pub open spec fn set_parts(fs: Seq<FileView>) -> Seq<Seq<char>> {
    flatten(fs.map_values(|f: FileView| file_parts(f)))
}

proof fn lemma_hunk_text(h: HunkView)
    ensures
        h.text() == join(hunk_parts(h), "\n"@),
{
    let rest = if h.lines.len() == 0 {
        seq![seq![]]
    } else {
        h.lines.map_values(|l: LineView| l.text())
    };
    assert(h.header_text() =~= header_line(h) + "\n"@);
    lemma_join_concat(seq![header_line(h)], rest, "\n"@);
    if h.lines.len() == 0 {
        assert(h.lines.map_values(|l: LineView| l.text()) =~= Seq::<Seq<char>>::empty());
        assert(header_line(h) + "\n"@ + Seq::<char>::empty() =~= header_line(h) + "\n"@);
    }
}

proof fn lemma_file_text(f: FileView)
    ensures
        f.text() == join(file_parts(f), "\n"@),
{
    let pp = f.hunks.map_values(|h: HunkView| hunk_parts(h));
    let head = seq!["--- "@ + f.source_file, "+++ "@ + f.target_file];
    let rest = if f.hunks.len() == 0 {
        seq![seq![]]
    } else {
        flatten(pp)
    };
    assert(head =~= seq!["--- "@ + f.source_file].push("+++ "@ + f.target_file));
    lemma_join_push(seq!["--- "@ + f.source_file], "\n"@, "+++ "@ + f.target_file);
    let texts = f.hunks.map_values(|h: HunkView| h.text());
    if f.hunks.len() == 0 {
        lemma_join_concat(head, rest, "\n"@);
        assert(texts =~= Seq::<Seq<char>>::empty());
        assert(f.text() =~= join(head, "\n"@) + "\n"@ + Seq::<char>::empty());
    } else {
        assert forall|k: int| 0 <= k < pp.len() implies (#[trigger] pp[k]).len() > 0 by {}
        lemma_join_flatten(pp, "\n"@);
        lemma_join_concat(head, rest, "\n"@);
        assert forall|k: int| 0 <= k < texts.len() implies #[trigger] texts[k] == pp.map_values(
            |p: Seq<Seq<char>>| join(p, "\n"@),
        )[k] by {
            lemma_hunk_text(f.hunks[k]);
        }
        assert(texts =~= pp.map_values(|p: Seq<Seq<char>>| join(p, "\n"@)));
        assert(f.text() =~= join(head, "\n"@) + "\n"@ + join(texts, "\n"@));
    }
}

/// A patch set renders as its lines joined by line breaks.
pub proof fn lemma_patch_text(fs: Seq<FileView>)
    requires
        fs.len() > 0,
    ensures
        patch_text(fs) == join(set_parts(fs), "\n"@),
        set_parts(fs).len() > 0,
{
    let pp = fs.map_values(|f: FileView| file_parts(f));
    assert forall|k: int| 0 <= k < pp.len() implies (#[trigger] pp[k]).len() > 0 by {}
    lemma_join_flatten(pp, "\n"@);
    let texts = fs.map_values(|f: FileView| f.text());
    assert forall|k: int| 0 <= k < texts.len() implies #[trigger] texts[k] == pp.map_values(
        |p: Seq<Seq<char>>| join(p, "\n"@),
    )[k] by {
        lemma_file_text(fs[k]);
    }
    assert(texts =~= pp.map_values(|p: Seq<Seq<char>>| join(p, "\n"@)));
}

proof fn lemma_decimal(n: nat)
    ensures
        decimal(n).len() > 0,
        forall|i: int| 0 <= i < decimal(n).len() ==> is_digit(#[trigger] decimal(n)[i]),
        decimal_value(decimal(n)) == n,
    decreases n,
{
    let ds = seq!['0', '1', '2', '3', '4', '5', '6', '7', '8', '9'];
    assert(forall|d: int|
        0 <= d < 10 ==> is_digit(#[trigger] ds[d]) && (ds[d] as u32) - ('0' as u32) == d) by {
        assert(ds[0] == '0' && ds[1] == '1' && ds[2] == '2' && ds[3] == '3' && ds[4] == '4');
        assert(ds[5] == '5' && ds[6] == '6' && ds[7] == '7' && ds[8] == '8' && ds[9] == '9');
    }
    if n < 10 {
        assert(decimal(n) =~= seq![digit_char(n as int)]);
        assert(decimal(n).drop_last() =~= Seq::<char>::empty());
        assert(decimal_value(Seq::<char>::empty()) == 0);
        assert(decimal(n).last() == ds[n as int]);
    } else {
        lemma_decimal(n / 10);
        let d = decimal(n / 10);
        let c = digit_char((n % 10) as int);
        assert(decimal(n) == d.push(c));
        assert(decimal(n).drop_last() =~= d);
        assert(decimal(n).last() == ds[(n % 10) as int]);
        assert((n / 10) * 10 + n % 10 == n) by (nonlinear_arith);
        assert forall|i: int| 0 <= i < decimal(n).len() implies is_digit(
            #[trigger] decimal(n)[i],
        ) by {
            if i < d.len() {
                assert(decimal(n)[i] == d[i]);
            }
        }
    }
}

/// A decimal numeral followed by a character that is not a digit reads back as
/// its number.
proof fn lemma_number_in(l: Seq<char>, i: int, n: nat)
    requires
        0 <= i,
        i + decimal(n).len() < l.len(),
        l.subrange(i, i + decimal(n).len()) == decimal(n),
        !is_digit(l[i + decimal(n).len()]),
    ensures
        number_at(l, i) == Some((n as int, i + decimal(n).len())),
{
    lemma_decimal(n);
    let d = decimal(n);
    let e = i + d.len();
    lemma_digits_end(l, i);
    assert forall|j: int| i <= j < e implies is_digit(#[trigger] l[j]) by {
        assert(l[j] == l.subrange(i, e)[j - i]);
    }
    lemma_digits_end_exact(l, i, e);
}

proof fn lemma_digits_end_exact(l: Seq<char>, i: int, e: int)
    requires
        0 <= i <= e < l.len(),
        forall|j: int| i <= j < e ==> is_digit(#[trigger] l[j]),
        !is_digit(l[e]),
    ensures
        digits_end(l, i) == e,
    decreases e - i,
{
    if i < e {
        lemma_digits_end_exact(l, i + 1, e);
    }
}

/// The header line of a hunk before its section header.
pub open spec fn header_prefix(h: HunkView) -> Seq<char> {
    "@@ -"@ + decimal(h.source_start as nat) + ","@ + decimal(h.source_length as nat) + " +"@
        + decimal(h.target_start as nat) + ","@ + decimal(h.target_length as nat) + " @@ "@
}

/// A rendered header line reads back with the same numbers, and with what
/// follows the header as its section header.
#[verifier::rlimit(60)]
proof fn lemma_header_reads_back(h: HunkView, x: Seq<char>)
    ensures
        hunk_header(header_prefix(h) + x) == Some(
            Geometry {
                source_start: h.source_start as int,
                source_length: h.source_length as int,
                target_start: h.target_start as int,
                target_length: h.target_length as int,
                section_header: x,
            },
        ),
{
    reveal_strlit("@@ -");
    reveal_strlit(",");
    reveal_strlit(" +");
    reveal_strlit(" @@ ");
    let d1 = decimal(h.source_start as nat);
    let d2 = decimal(h.source_length as nat);
    let d3 = decimal(h.target_start as nat);
    let d4 = decimal(h.target_length as nat);
    lemma_decimal(h.source_start as nat);
    lemma_decimal(h.source_length as nat);
    lemma_decimal(h.target_start as nat);
    lemma_decimal(h.target_length as nat);
    let l = header_prefix(h) + x;
    let a: int = 4 + d1.len() as int;
    let b: int = a + 1 + d2.len();
    let c: int = b + 2 + d3.len();
    let d: int = c + 1 + d4.len();
    let e: int = d + 3;
    assert(l =~= seq!['@', '@', ' ', '-'] + d1 + seq![','] + d2 + seq![' ', '+'] + d3 + seq![',']
        + d4 + seq![' ', '@', '@', ' '] + x);
    assert(l.subrange(0, 4) =~= seq!['@', '@', ' ', '-']);
    assert(l.subrange(4, a) =~= d1);
    assert(l[a] == ',');
    lemma_number_in(l, 4, h.source_start as nat);
    assert(l.subrange(a + 1, b) =~= d2);
    assert(l[b] == ' ');
    lemma_number_in(l, a + 1, h.source_length as nat);
    assert(length_at(l, a) == (h.source_length as int, b));
    assert(l.subrange(b, b + 2) =~= seq![' ', '+']);
    assert(l.subrange(b + 2, c) =~= d3);
    assert(l[c] == ',');
    lemma_number_in(l, b + 2, h.target_start as nat);
    assert(l.subrange(c + 1, d) =~= d4);
    assert(l[d] == ' ');
    lemma_number_in(l, c + 1, h.target_length as nat);
    assert(length_at(l, c) == (h.target_length as int, d));
    assert(l.subrange(d, d + 3) =~= seq![' ', '@', '@']);
    assert(l[e] == ' ');
    assert(l.subrange(e + 1, l.len() as int) =~= x);
}

/// Two runs of lines with the same markers and the same numbers.
pub open spec fn same_lines(x: Seq<LineView>, y: Seq<LineView>) -> bool {
    &&& x.len() == y.len()
    &&& forall|m: int|
        0 <= m < x.len() ==> (#[trigger] x[m]).line_type == y[m].line_type && x[m].source_line_no
            == y[m].source_line_no && x[m].target_line_no == y[m].target_line_no
}

/// What remains of numbered lines after the first is numbered on from the
/// first's counts.
proof fn lemma_tail_numbered(b: Seq<LineView>, src: int, tgt: int, se: int, te: int)
    requires
        b.len() > 0,
        numbered_from(b, src, tgt),
        stops_at_end(b, src, tgt, se, te),
    ensures
        ({
            let first = b[0];
            let src2 = if on_source_side(first.line_type) {
                src + 1
            } else {
                src
            };
            let tgt2 = if on_target_side(first.line_type) {
                tgt + 1
            } else {
                tgt
            };
            let r = b.subrange(1, b.len() as int);
            &&& numbered_from(r, src2, tgt2)
            &&& stops_at_end(r, src2, tgt2, se, te)
            &&& src + count_source(b) == src2 + count_source(r)
            &&& tgt + count_target(b) == tgt2 + count_target(r)
            &&& (b.len() > 1 ==> !(src2 >= se && tgt2 >= te))
        }),
{
    lemma_types_distinct();
    let first = b[0];
    assert(b.take(0) =~= Seq::<LineView>::empty());
    assert(count_source(Seq::<LineView>::empty()) == 0);
    assert(count_target(Seq::<LineView>::empty()) == 0);
    let s = on_source_side(first.line_type);
    let t = on_target_side(first.line_type);
    let src2 = if s {
        src + 1
    } else {
        src
    };
    let tgt2 = if t {
        tgt + 1
    } else {
        tgt
    };
    let r = b.subrange(1, b.len() as int);
    assert forall|m: int| 0 <= m <= r.len() implies #[trigger] b.take(m + 1) == seq![first]
        + r.take(m) && count_source(b.take(m + 1)) == (if s {
        1int
    } else {
        0int
    }) + count_source(r.take(m)) && count_target(b.take(m + 1)) == (if t {
        1int
    } else {
        0int
    }) + count_target(r.take(m)) by {
        assert(b.take(m + 1) =~= seq![first] + r.take(m));
        lemma_count_prepend(first, r.take(m));
    }
    assert(b.take(r.len() as int + 1) =~= b);
    assert(r.take(r.len() as int) =~= r);
    if b.len() > 1 {
        assert(!(src + count_source(b.take(0int + 1)) >= se && tgt + count_target(
            b.take(0int + 1),
        ) >= te));
    }
    assert forall|m: int| 0 <= m < r.len() implies {
        &&& (#[trigger] r[m]).source_line_no == if on_source_side(r[m].line_type) {
            Some((src2 + count_source(r.take(m))) as usize)
        } else {
            None
        }
        &&& on_source_side(r[m].line_type) ==> src2 + count_source(r.take(m)) < usize::MAX
        &&& r[m].target_line_no == if on_target_side(r[m].line_type) {
            Some((tgt2 + count_target(r.take(m))) as usize)
        } else {
            None
        }
        &&& on_target_side(r[m].line_type) ==> tgt2 + count_target(r.take(m)) < usize::MAX
    } by {
        assert(r[m] == b[m + 1]);
        assert(b.take(m + 1) == seq![first] + r.take(m));
    }
    assert forall|m: int| 0 <= m < r.len() - 1 implies !(src2 + count_source(
        #[trigger] r.take(m + 1),
    ) >= se && tgt2 + count_target(r.take(m + 1)) >= te) by {
        assert(b.take((m + 1) + 1) == seq![first] + r.take(m + 1));
    }
}

/// Lines with the markers of `b`, read as a hunk's body with the counters `b`
/// was numbered from, give back the lines of `b`, provided `b` ends where both
/// sides reach their ends or where the text ends.
proof fn lemma_body_again(
    q: Seq<Seq<char>>,
    j: int,
    b: Seq<LineView>,
    src: int,
    tgt: int,
    se: int,
    te: int,
)
    requires
        0 <= j,
        j + b.len() <= q.len(),
        b.len() > 0,
        forall|m: int|
            0 <= m < b.len() ==> body_line(q[j + m]).0 == (#[trigger] b[m]).line_type
                && is_body_line(q[j + m]),
        numbered_from(b, src, tgt),
        stops_at_end(b, src, tgt, se, te),
        (src + count_source(b) >= se && tgt + count_target(b) >= te) || j + b.len() == q.len(),
    ensures
        hunk_body(q, j, src, tgt, se, te) matches Ok(b2) && same_lines(b2, b),
    decreases b.len(),
{
    lemma_types_distinct();
    lemma_tail_numbered(b, src, tgt, se, te);
    let first = b[0];
    assert(body_line(q[j + 0]).0 == first.line_type && is_body_line(q[j + 0]));
    assert(b.take(0) =~= Seq::<LineView>::empty());
    assert(count_source(Seq::<LineView>::empty()) == 0);
    assert(count_target(Seq::<LineView>::empty()) == 0);
    let src2 = if on_source_side(first.line_type) {
        src + 1
    } else {
        src
    };
    let tgt2 = if on_target_side(first.line_type) {
        tgt + 1
    } else {
        tgt
    };
    let r = b.subrange(1, b.len() as int);
    if b.len() == 1 {
        assert(r =~= Seq::<LineView>::empty());
        if !(src2 >= se && tgt2 >= te) {
            assert(j + 1 == q.len());
        }
        let b2 = hunk_body(q, j, src, tgt, se, te)->Ok_0;
        assert(b2.len() == 1);
    } else {
        assert forall|m: int| 0 <= m < r.len() implies body_line(q[(j + 1) + m]).0 == (
        #[trigger] r[m]).line_type && is_body_line(q[(j + 1) + m]) by {
            assert(r[m] == b[m + 1]);
        }
        lemma_body_again(q, j + 1, r, src2, tgt2, se, te);
        let r2 = hunk_body(q, j + 1, src2, tgt2, se, te)->Ok_0;
        let b2 = hunk_body(q, j, src, tgt, se, te)->Ok_0;
        assert(b2 == seq![b2[0]] + r2);
        assert forall|m: int| 0 <= m < b2.len() implies (#[trigger] b2[m]).line_type
            == b[m].line_type && b2[m].source_line_no == b[m].source_line_no
            && b2[m].target_line_no == b[m].target_line_no by {
            if m > 0 {
                assert(b2[m] == r2[m - 1]);
                assert(b[m] == r[m - 1]);
            }
        }
    }
}

proof fn lemma_flatten_take(pp: Seq<Seq<Seq<char>>>, k: int)
    requires
        0 <= k < pp.len(),
    ensures
        flatten(pp.take(k + 1)) == flatten(pp.take(k)) + pp[k],
{
    assert(pp.take(k + 1).drop_last() =~= pp.take(k));
    assert(pp.take(k + 1).last() == pp[k]);
}

/// The parts before part `k` form a prefix of the whole.
proof fn lemma_flatten_prefix(pp: Seq<Seq<Seq<char>>>, k: int)
    requires
        0 <= k <= pp.len(),
    ensures
        flatten(pp.take(k)).len() <= flatten(pp).len(),
        flatten(pp) == flatten(pp.take(k)) + flatten(pp).subrange(
            flatten(pp.take(k)).len() as int,
            flatten(pp).len() as int,
        ),
    decreases pp.len() - k,
{
    if k == pp.len() {
        assert(pp.take(k) =~= pp);
        assert(flatten(pp) =~= flatten(pp.take(k)) + flatten(pp).subrange(
            flatten(pp.take(k)).len() as int,
            flatten(pp).len() as int,
        ));
    } else {
        lemma_flatten_prefix(pp, k + 1);
        lemma_flatten_take(pp, k);
        assert(flatten(pp) =~= flatten(pp.take(k)) + flatten(pp).subrange(
            flatten(pp.take(k)).len() as int,
            flatten(pp).len() as int,
        ));
    }
}

/// Where part `k` starts among the lines of `pp`.
pub open spec fn offset(pp: Seq<Seq<Seq<char>>>, k: int) -> int {
    flatten(pp.take(k)).len() as int
}

/// Line `x` of part `k` stands at `offset(pp, k) + x`, and part `k + 1` starts
/// right after part `k`.
proof fn lemma_flatten_index(pp: Seq<Seq<Seq<char>>>, k: int, x: int)
    requires
        0 <= k < pp.len(),
        0 <= x < pp[k].len(),
    ensures
        offset(pp, k) + x < flatten(pp).len(),
        flatten(pp)[offset(pp, k) + x] == pp[k][x],
        offset(pp, k + 1) == offset(pp, k) + pp[k].len(),
{
    lemma_flatten_take(pp, k);
    lemma_flatten_prefix(pp, k + 1);
    let a = flatten(pp.take(k + 1));
    assert(a[offset(pp, k) + x] == pp[k][x]);
    assert(flatten(pp)[offset(pp, k) + x] == a[offset(pp, k) + x]);
}

proof fn lemma_offset_bounds(pp: Seq<Seq<Seq<char>>>, k: int)
    requires
        0 <= k <= pp.len(),
    ensures
        0 <= offset(pp, k) <= flatten(pp).len(),
        k == pp.len() ==> offset(pp, k) == flatten(pp).len(),
{
    lemma_flatten_prefix(pp, k);
    if k == pp.len() {
        assert(pp.take(k) =~= pp);
    }
}

/// The text of `q` is that of the lines `p` joined by line breaks: each line
/// but the last loses a final `\r`, and an empty last line is dropped.
pub open spec fn reads_as(q: Seq<Seq<char>>, p: Seq<Seq<char>>) -> bool {
    &&& p.len() > 0
    &&& q.len() == if p.last().len() == 0 {
        p.len() - 1
    } else {
        p.len() as int
    }
    &&& forall|i: int|
        0 <= i < q.len() ==> #[trigger] q[i] == if i < p.len() - 1 {
            strip_cr(p[i])
        } else {
            p[i]
        }
}

/// No form of a rendered body line, with or without a final `\r`, is a file
/// header.
pub open spec fn body_text_ok(t: Seq<char>) -> bool {
    &&& file_header(t, '-') is None
    &&& file_header(t, '+') is None
    &&& file_header(strip_cr(t), '-') is None
    &&& file_header(strip_cr(t), '+') is None
}

/// The line opens no file, names no paths and starts no hunk.
pub open spec fn not_header(l: Seq<char>) -> bool {
    &&& git_header(l) is None
    &&& file_header(l, '-') is None
    &&& file_header(l, '+') is None
    &&& hunk_header(l) is None
}

/// A line whose first character is neither `d`, `-`, `+` nor `@` is no header
/// of any kind.
proof fn lemma_not_header_by_first(l: Seq<char>)
    requires
        l.len() > 0,
    ensures
        l[0] != 'd' ==> git_header(l) is None,
        l[0] != '@' ==> hunk_header(l) is None,
{
    let g = seq!['d', 'i', 'f', 'f', ' ', '-', '-', 'g', 'i', 't', ' '];
    let a = seq!['@', '@', ' ', '-'];
    if l.len() >= 11 {
        assert(l.subrange(0, 11)[0] == l[0]);
    }
    if l.len() >= 4 {
        assert(l.subrange(0, 4)[0] == l[0]);
    }
    assert(g[0] == 'd');
    assert(a[0] == '@');
}

proof fn lemma_empty_not_header()
    ensures
        not_header(Seq::<char>::empty()),
{
    let l = Seq::<char>::empty();
    assert(crate::grammar::digits_end(l, 4) == 4);
    assert(crate::grammar::number_at(l, 4) is None);
}

/// A rendered body line, in either form, is no header and reads back with its
/// marker.
proof fn lemma_body_text(l: LineView, form: Seq<char>)
    requires
        valid_type(l.line_type),
        body_text_ok(l.text()),
        form == l.text() || form == strip_cr(l.text()),
    ensures
        not_header(form),
        body_line(form).0 == l.line_type,
        is_body_line(form),
{
    let t = l.text();
    let c = l.line_type[0];
    assert(l.line_type =~= seq![c]);
    assert(t[0] == c);
    assert(c == '+' || c == '-' || c == ' ' || c == '\\') by {
        assert(seq!['+'][0] == '+' && seq!['-'][0] == '-' && seq![' '][0] == ' ' && seq!['\\'][0]
            == '\\');
    }
    assert(form.len() > 0 && form[0] == c) by {
        if t.len() > 0 && t.last() == '\r' {
            assert(t.len() > 1);
            assert(strip_cr(t)[0] == t[0]);
        }
    }
    lemma_not_header_by_first(form);
    assert(body_line(form).0 =~= l.line_type);
}

/// Lines that are no headers leave the reader's state as it is.
proof fn lemma_skip(st: ParseState, q: Seq<Seq<char>>, a: int, b: int)
    requires
        0 <= a <= b,
        forall|i: int| a <= i < b && i < q.len() ==> not_header(#[trigger] q[i]),
    ensures
        run(st, q, a) == run(st, q, b),
    decreases b - a,
{
    if a < b && a < q.len() {
        assert(not_header(q[a]));
        assert(step(st, q, a) == Ok::<ParseState, crate::line::ErrorView>(st));
        lemma_skip(st, q, a + 1, b);
    }
}

proof fn lemma_append_all_lines(g: HunkView, ls: Seq<LineView>)
    ensures
        append_all(g, ls).lines == g.lines + ls,
        append_all(g, ls).source_start == g.source_start,
        append_all(g, ls).source_length == g.source_length,
        append_all(g, ls).target_start == g.target_start,
        append_all(g, ls).target_length == g.target_length,
    decreases ls.len(),
{
    if ls.len() == 0 {
        assert(g.lines + ls =~= g.lines);
    } else {
        lemma_append_all_lines(g, ls.drop_last());
        assert(g.lines + ls.drop_last() + seq![ls.last()] =~= g.lines + ls);
        assert((g.lines + ls.drop_last()).push(ls.last()) =~= g.lines + ls);
    }
}

/// Two hunks with the same geometry and the same lines, as markers and numbers.
pub open spec fn same_hunk_shape(a: HunkView, b: HunkView) -> bool {
    &&& a.source_start == b.source_start
    &&& a.source_length == b.source_length
    &&& a.target_start == b.target_start
    &&& a.target_length == b.target_length
    &&& same_lines(a.lines, b.lines)
}

proof fn lemma_strip_after(a: Seq<char>, b: Seq<char>)
    requires
        a.len() > 0,
        a.last() != '\r',
    ensures
        strip_cr(a + b) == a + (if b.len() > 0 {
            strip_cr(b)
        } else {
            b
        }),
{
    if b.len() > 0 {
        assert((a + b).last() == b.last());
        if b.last() == '\r' {
            assert((a + b).drop_last() =~= a + b.drop_last());
        }
    } else {
        assert(a + b =~= a);
    }
}

/// A rendered header line, with or without its final `\r`, reads back as a
/// hunk header with the same numbers, and as nothing else.
proof fn lemma_rendered_header(h: HunkView, l: Seq<char>)
    requires
        l == strip_cr(header_line(h)),
    ensures
        hunk_header(l) matches Some(g) && g.source_start == h.source_start && g.source_length
            == h.source_length && g.target_start == h.target_start && g.target_length
            == h.target_length,
        git_header(l) is None,
        file_header(l, '-') is None,
        file_header(l, '+') is None,
{
    let pre = header_prefix(h);
    lemma_prefix_shape(h);
    lemma_strip_after(pre, h.section_header);
    let x = if h.section_header.len() > 0 {
        strip_cr(h.section_header)
    } else {
        h.section_header
    };
    assert(l == pre + x);
    lemma_header_reads_back(h, x);
    assert((pre + x)[0] == '@');
    lemma_not_header_by_first(l);
    lemma_not_file_header(l);
}

proof fn lemma_prefix_shape(h: HunkView)
    ensures
        header_line(h) == header_prefix(h) + h.section_header,
        header_prefix(h).len() > 0,
        header_prefix(h).last() == ' ',
        header_prefix(h)[0] == '@',
{
    reveal_strlit("@@ -");
    reveal_strlit(" @@ ");
    let pre = header_prefix(h);
    assert(header_line(h) =~= pre + h.section_header);
    let a = "@@ -"@ + decimal(h.source_start as nat) + ","@ + decimal(h.source_length as nat)
        + " +"@ + decimal(h.target_start as nat) + ","@ + decimal(h.target_length as nat);
    assert(pre == a + " @@ "@);
    assert(pre.last() == ' ');
    assert(pre[0] == ("@@ -"@)[0]);
}

/// A line that starts with `@` is no file header.
proof fn lemma_not_file_header(l: Seq<char>)
    requires
        l.len() > 0,
        l[0] == '@',
    ensures
        file_header(l, '-') is None,
        file_header(l, '+') is None,
{
    assert(!has_at(l, 0, seq!['-', '-', '-', ' '])) by {
        if l.len() >= 4 {
            assert(l.subrange(0, 4)[0] != seq!['-', '-', '-', ' '][0]);
        }
    }
    assert(!has_at(l, 0, seq!['+', '+', '+', ' '])) by {
        if l.len() >= 4 {
            assert(l.subrange(0, 4)[0] != seq!['+', '+', '+', ' '][0]);
        }
    }
}

proof fn lemma_rendered_body_lines(q: Seq<Seq<char>>, p: Seq<Seq<char>>, h: HunkView, pos: int)
    requires
        reads_as(q, p),
        0 <= pos,
        pos + hunk_parts(h).len() <= p.len(),
        forall|x: int| 0 <= x < hunk_parts(h).len() ==> p[pos + x] == #[trigger] hunk_parts(h)[x],
        forall|m: int| 0 <= m < h.lines.len() ==> valid_type((#[trigger] h.lines[m]).line_type),
        forall|m: int| 0 <= m < h.lines.len() ==> body_text_ok((#[trigger] h.lines[m]).text()),
    ensures
        forall|m: int|
            0 <= m < h.lines.len() && (pos + 1) + m < q.len() ==> body_line(q[(pos + 1) + m]).0
                == (#[trigger] h.lines[m]).line_type && is_body_line(q[(pos + 1) + m]),
        forall|i: int| pos + 1 <= i < pos + hunk_parts(h).len() && i < q.len() ==> not_header(
            #[trigger] q[i],
        ),
{
    let n = h.lines.len();
    let hp = hunk_parts(h);
    let texts = h.lines.map_values(|l: LineView| l.text());
    assert forall|m: int| 0 <= m < n && (pos + 1) + m < q.len() implies body_line(
        q[(pos + 1) + m],
    ).0 == (#[trigger] h.lines[m]).line_type && is_body_line(q[(pos + 1) + m]) && not_header(
        q[(pos + 1) + m],
    ) by {
        assert(p[pos + (1 + m)] == hp[1 + m]);
        assert(hp[1 + m] == texts[m]);
        lemma_body_text(h.lines[m], q[(pos + 1) + m]);
    }
    assert forall|i: int| pos + 1 <= i < pos + hp.len() && i < q.len() implies not_header(
        #[trigger] q[i],
    ) by {
        let m = i - (pos + 1);
        if n == 0 {
            assert(p[pos + 1] == hp[1]);
            assert(hp[1] == Seq::<char>::empty());
            assert(q[i] =~= Seq::<char>::empty());
            lemma_empty_not_header();
        } else {
            assert(q[(pos + 1) + m] == q[i]);
            assert(p[pos + (1 + m)] == hp[1 + m]);
            assert(hp[1 + m] == texts[m]);
            lemma_body_text(h.lines[m], q[i]);
        }
    }
}

/// The body of a rendered hunk reads back as its lines, and none of its lines
/// is a header.
#[verifier::rlimit(80)]
proof fn lemma_rendered_body(q: Seq<Seq<char>>, p: Seq<Seq<char>>, h: HunkView, pos: int, last: bool)
    requires
        reads_as(q, p),
        0 <= pos,
        pos + hunk_parts(h).len() <= p.len(),
        forall|x: int| 0 <= x < hunk_parts(h).len() ==> p[pos + x] == #[trigger] hunk_parts(h)[x],
        hunk_sound(h),
        forall|m: int| 0 <= m < h.lines.len() ==> body_text_ok((#[trigger] h.lines[m]).text()),
        last ==> pos + hunk_parts(h).len() == p.len(),
        !last ==> pos + hunk_parts(h).len() < p.len() && h.lines.len() > 0 && count_source(h.lines)
            >= h.source_length && count_target(h.lines) >= h.target_length,
    ensures
        hunk_body(
            q,
            pos + 1,
            h.source_start as int,
            h.target_start as int,
            h.source_start + h.source_length,
            h.target_start + h.target_length,
        ) matches Ok(b2) && same_lines(b2, h.lines),
        forall|i: int| pos + 1 <= i < pos + hunk_parts(h).len() && i < q.len() ==> not_header(
            #[trigger] q[i],
        ),
{
    let n = h.lines.len();
    let se = h.source_start + h.source_length;
    let te = h.target_start + h.target_length;
    lemma_rendered_body_lines(q, p, h, pos);
    if n > 0 {
        lemma_end_in_text(q, p, h, pos, last);
        lemma_body_again(q, pos + 1, h.lines, h.source_start as int, h.target_start as int, se, te);
    } else {
        lemma_empty_hunk_at_end(q, p, h, pos, last);
    }
}

/// A rendered hunk with lines lies within the text that is read back, and
/// ends it unless its sides are complete.
proof fn lemma_end_in_text(q: Seq<Seq<char>>, p: Seq<Seq<char>>, h: HunkView, pos: int, last: bool)
    requires
        reads_as(q, p),
        0 <= pos,
        h.lines.len() > 0,
        pos + hunk_parts(h).len() <= p.len(),
        forall|x: int| 0 <= x < hunk_parts(h).len() ==> p[pos + x] == #[trigger] hunk_parts(h)[x],
        forall|m: int| 0 <= m < h.lines.len() ==> valid_type((#[trigger] h.lines[m]).line_type),
        last ==> pos + hunk_parts(h).len() == p.len(),
        !last ==> pos + hunk_parts(h).len() < p.len(),
    ensures
        pos + 1 + h.lines.len() <= q.len(),
        last ==> pos + 1 + h.lines.len() == q.len(),
{
    let n = h.lines.len();
    let hp = hunk_parts(h);
    let texts = h.lines.map_values(|l: LineView| l.text());
    assert(hp.len() == n + 1);
    if last {
        assert(p.last() == p[pos + (hp.len() - 1)]);
        assert(hp[hp.len() - 1] == texts[n - 1]);
        assert(valid_type(h.lines[n - 1].line_type));
        assert(h.lines[n - 1].line_type.len() == 1);
        assert(p.last().len() > 0);
    }
}

/// A rendered hunk without lines ends the text that is read back.
proof fn lemma_empty_hunk_at_end(
    q: Seq<Seq<char>>,
    p: Seq<Seq<char>>,
    h: HunkView,
    pos: int,
    last: bool,
)
    requires
        reads_as(q, p),
        0 <= pos,
        h.lines.len() == 0,
        pos + hunk_parts(h).len() <= p.len(),
        forall|x: int| 0 <= x < hunk_parts(h).len() ==> p[pos + x] == #[trigger] hunk_parts(h)[x],
        last ==> pos + hunk_parts(h).len() == p.len(),
        !last ==> h.lines.len() > 0,
    ensures
        q.len() == pos + 1,
        hunk_body(
            q,
            pos + 1,
            h.source_start as int,
            h.target_start as int,
            h.source_start + h.source_length,
            h.target_start + h.target_length,
        ) matches Ok(b2) && same_lines(b2, h.lines),
{
    let hp = hunk_parts(h);
    assert(p.last() == p[pos + 1]);
    assert(p[pos + 1] == hp[1]);
    assert(hp[1] == Seq::<char>::empty());
    let b2 = hunk_body(
        q,
        pos + 1,
        h.source_start as int,
        h.target_start as int,
        h.source_start + h.source_length,
        h.target_start + h.target_length,
    )->Ok_0;
    assert(b2 =~= Seq::<LineView>::empty());
}

/// Reading a rendered hunk from its header line on adds a hunk of the same
/// shape to the file being read.
proof fn lemma_sim_hunk(
    st: ParseState,
    q: Seq<Seq<char>>,
    p: Seq<Seq<char>>,
    h: HunkView,
    pos: int,
    last: bool,
) -> (r: (ParseState, HunkView))
    requires
        reads_as(q, p),
        0 <= pos,
        pos + hunk_parts(h).len() <= p.len(),
        forall|x: int| 0 <= x < hunk_parts(h).len() ==> p[pos + x] == #[trigger] hunk_parts(h)[x],
        hunk_sound(h),
        forall|m: int| 0 <= m < h.lines.len() ==> body_text_ok((#[trigger] h.lines[m]).text()),
        last ==> pos + hunk_parts(h).len() == p.len(),
        !last ==> pos + hunk_parts(h).len() < p.len() && h.lines.len() > 0 && count_source(h.lines)
            >= h.source_length && count_target(h.lines) >= h.target_length,
        st.current is Some,
    ensures
        run(st, q, pos) == run(r.0, q, pos + hunk_parts(h).len()),
        r.0 == (ParseState {
            current: Some(FileView { hunks: st.current->0.hunks.push(r.1), ..st.current->0 }),
            ..st
        }),
        same_hunk_shape(r.1, h),
{
    let hp = hunk_parts(h);
    assert(p[pos + 0] == hp[0]);
    assert(pos < p.len() - 1);
    let l = q[pos];
    lemma_rendered_header(h, l);
    lemma_rendered_body(q, p, h, pos, last);
    let g = hunk_header(l)->0;
    let se = h.source_start + h.source_length;
    let te = h.target_start + h.target_length;
    let b2 = hunk_body(q, pos + 1, h.source_start as int, h.target_start as int, se, te)->Ok_0;
    let e = empty_hunk(
        g.source_start as usize,
        g.source_length as usize,
        g.target_start as usize,
        g.target_length as usize,
        g.section_header,
    );
    lemma_append_all_lines(e, b2);
    let h2 = append_all(e, b2);
    assert(e.lines + b2 =~= b2);
    assert(parsed_hunk(g, q, pos + 1) == Ok::<HunkView, Seq<char>>(h2));
    let c = st.current->0;
    let st1 = ParseState { current: Some(FileView { hunks: c.hunks.push(h2), ..c }), ..st };
    assert(step(st, q, pos) == Ok::<ParseState, crate::line::ErrorView>(st1));
    lemma_skip(st1, q, pos + 1, pos + hp.len());
    (st1, h2)
}

/// Two runs of hunks of the same shapes.
pub open spec fn same_hunks(a: Seq<HunkView>, b: Seq<HunkView>) -> bool {
    a.len() == b.len() && forall|j: int| 0 <= j < a.len() ==> same_hunk_shape(#[trigger] a[j], b[j])
}

/// Two runs of files with the same numbers of hunks, of the same shapes.
pub open spec fn same_files(a: Seq<FileView>, b: Seq<FileView>) -> bool {
    a.len() == b.len() && forall|k: int| 0 <= k < a.len() ==> same_hunks(#[trigger] a[k].hunks, b[k].hunks)
}

/// A hunk that holds lines and reaches both of its declared ends.
pub open spec fn complete(h: HunkView) -> bool {
    h.lines.len() > 0 && count_source(h.lines) >= h.source_length && count_target(h.lines)
        >= h.target_length
}

/// The files read so far, with the one being read.
pub open spec fn read_so_far(st: ParseState) -> Seq<FileView> {
    match st.current {
        Some(c) => st.files.push(c),
        None => st.files,
    }
}

/// A file header line of a rendered file reads back as a file header, and as
/// nothing else.
proof fn lemma_rendered_path(m: char, path: Seq<char>, l: Seq<char>)
    requires
        m == '-' || m == '+',
        path_ok(path),
        path != seq!['\r'],
        l == strip_cr(seq![m, m, m, ' '] + path),
    ensures
        file_header(l, m) is Some,
        file_header(l, if m == '-' { '+' } else { '-' }) is None,
        git_header(l) is None,
        hunk_header(l) is None,
{
    let pre = seq![m, m, m, ' '];
    lemma_strip_after(pre, path);
    let x = strip_cr(path);
    assert(l == pre + x);
    assert(x.len() > 0 && x[0] == path[0]) by {
        if path.last() == '\r' {
            assert(path.len() > 1) by {
                if path.len() == 1 {
                    assert(path =~= seq!['\r']);
                }
            }
        }
    }
    assert(l[0] == m);
    assert(l[4] == x[0]);
    assert(l.subrange(0, 4) =~= pre);
    assert(crate::grammar::non_tab_end(l, 4) > 4) by {
        assert(l[4] != '\t');
        assert(crate::grammar::non_tab_end(l, 4) == crate::grammar::non_tab_end(l, 5));
        lemma_non_tab_end_ge(l, 5);
    }
    let o = if m == '-' {
        '+'
    } else {
        '-'
    };
    assert(!has_at(l, 0, seq![o, o, o, ' '])) by {
        assert(l.subrange(0, 4)[0] != seq![o, o, o, ' '][0]);
    }
    lemma_not_header_by_first(l);
}

proof fn lemma_non_tab_end_ge(l: Seq<char>, i: int)
    requires
        0 <= i,
    ensures
        crate::grammar::non_tab_end(l, i) >= i,
    decreases l.len() - i,
{
    if i < l.len() && l[i] != '\t' {
        lemma_non_tab_end_ge(l, i + 1);
    }
}

/// The parts of the hunks of `f`.
pub open spec fn hunk_parts_of(f: FileView) -> Seq<Seq<Seq<char>>> {
    f.hunks.map_values(|h: HunkView| hunk_parts(h))
}

/// What re-reading needs of a file: it is sound, no path is a lone `\r`, no
/// rendered body line is a file header, and each hunk but possibly the last
/// (when `last`) holds lines and reaches both of its ends.
pub open spec fn file_rereadable(f: FileView, last: bool) -> bool {
    &&& file_sound(f)
    &&& f.source_file != seq!['\r']
    &&& f.target_file != seq!['\r']
    &&& forall|j: int, m: int|
        0 <= j < f.hunks.len() && 0 <= m < f.hunks[j].lines.len() ==> body_text_ok(
            (#[trigger] f.hunks[j].lines[m]).text(),
        )
    &&& forall|j: int|
        0 <= j < f.hunks.len() && (j < f.hunks.len() - 1 || !last) ==> complete(
            #[trigger] f.hunks[j],
        )
}

/// Where the rendered hunk `j` of `f` stands among the lines `p`.
proof fn lemma_hunk_position(p: Seq<Seq<char>>, f: FileView, pos: int, j: int, last: bool)
    requires
        0 <= pos,
        pos + file_parts(f).len() <= p.len(),
        forall|x: int| 0 <= x < file_parts(f).len() ==> p[pos + x] == #[trigger] file_parts(f)[x],
        0 <= j < f.hunks.len(),
        last ==> pos + file_parts(f).len() == p.len(),
        !last ==> pos + file_parts(f).len() < p.len(),
    ensures
        ({
            let hps = hunk_parts_of(f);
            let hp = hunk_parts(f.hunks[j]);
            let hpos = pos + 2 + offset(hps, j);
            &&& forall|x: int| 0 <= x < hp.len() ==> p[hpos + x] == #[trigger] hp[x]
            &&& offset(hps, j + 1) == offset(hps, j) + hp.len()
            &&& 0 <= offset(hps, j)
            &&& hpos + hp.len() <= p.len()
            &&& (last && j == f.hunks.len() - 1) ==> hpos + hp.len() == p.len()
            &&& !(last && j == f.hunks.len() - 1) ==> hpos + hp.len() < p.len()
            &&& offset(hps, f.hunks.len() as int) + 2 == file_parts(f).len()
        }),
{
    let hps = hunk_parts_of(f);
    let n = f.hunks.len() as int;
    assert(file_parts(f) == seq!["--- "@ + f.source_file, "+++ "@ + f.target_file] + flatten(hps));
    lemma_offset_bounds(hps, n);
    let h = f.hunks[j];
    let hp = hunk_parts(h);
    assert(hps[j] == hp);
    let hpos = pos + 2 + offset(hps, j);
    assert forall|x: int| 0 <= x < hp.len() implies p[hpos + x] == #[trigger] hp[x] by {
        lemma_flatten_index(hps, j, x);
        assert(file_parts(f)[2 + (offset(hps, j) + x)] == flatten(hps)[offset(hps, j) + x]);
        assert(p[pos + (2 + (offset(hps, j) + x))] == file_parts(f)[2 + (offset(hps, j) + x)]);
    }
    lemma_flatten_index(hps, j, 0);
    lemma_offset_bounds(hps, j);
    lemma_offset_bounds(hps, j + 1);
    if j < n - 1 {
        lemma_flatten_index(hps, j + 1, 0);
        lemma_offset_bounds(hps, j + 2);
        assert(hps[j + 1] == hunk_parts(f.hunks[j + 1]));
    }
}

/// Reading the rendered hunks of `f` from hunk `j` on adds hunks of the same
/// shapes to the file being read.
#[verifier::rlimit(100)]
proof fn lemma_sim_hunks(
    st: ParseState,
    q: Seq<Seq<char>>,
    p: Seq<Seq<char>>,
    f: FileView,
    pos: int,
    j: int,
    last: bool,
) -> (st2: ParseState)
    requires
        reads_as(q, p),
        0 <= pos,
        pos + file_parts(f).len() <= p.len(),
        forall|x: int| 0 <= x < file_parts(f).len() ==> p[pos + x] == #[trigger] file_parts(f)[x],
        f.hunks.len() > 0,
        0 <= j <= f.hunks.len(),
        file_rereadable(f, last),
        last ==> pos + file_parts(f).len() == p.len(),
        !last ==> pos + file_parts(f).len() < p.len(),
        st.current matches Some(c) && same_hunks(c.hunks, f.hunks.take(j)),
    ensures
        run(st, q, pos + 2 + offset(hunk_parts_of(f), j)) == run(st2, q, pos + file_parts(f).len()),
        st2.files == st.files,
        st2.git == st.git,
        st2.source_file == st.source_file,
        st2.current matches Some(c2) && same_hunks(c2.hunks, f.hunks),
    decreases f.hunks.len() - j,
{
    let hps = hunk_parts_of(f);
    let n = f.hunks.len() as int;
    lemma_hunk_position(p, f, pos, 0, last);
    if j == n {
        assert(f.hunks.take(j) =~= f.hunks);
        st
    } else {
        lemma_hunk_position(p, f, pos, j, last);
        let h = f.hunks[j];
        let hlast = last && j == n - 1;
        assert(complete(h) || hlast);
        assert forall|m: int| 0 <= m < h.lines.len() implies body_text_ok(
            (#[trigger] h.lines[m]).text(),
        ) by {
            assert(f.hunks[j].lines[m] == h.lines[m]);
        }
        let (st1, h2) = lemma_sim_hunk(st, q, p, h, pos + 2 + offset(hps, j), hlast);
        let c = st.current->0;
        assert(f.hunks.take(j + 1) =~= f.hunks.take(j).push(h));
        assert(same_hunks(c.hunks.push(h2), f.hunks.take(j + 1))) by {
            assert forall|i: int| 0 <= i < j + 1 implies same_hunk_shape(
                #[trigger] c.hunks.push(h2)[i],
                f.hunks.take(j + 1)[i],
            ) by {
                if i < j {
                    assert(c.hunks.push(h2)[i] == c.hunks[i]);
                    assert(f.hunks.take(j + 1)[i] == f.hunks.take(j)[i]);
                }
            }
        }
        lemma_sim_hunks(st1, q, p, f, pos, j + 1, last)
    }
}

/// Reading a rendered file from its `---` line on adds a file with hunks of
/// the same shapes.
#[verifier::rlimit(100)]
proof fn lemma_sim_file(
    st: ParseState,
    q: Seq<Seq<char>>,
    p: Seq<Seq<char>>,
    f: FileView,
    pos: int,
    last: bool,
) -> (st2: ParseState)
    requires
        reads_as(q, p),
        0 <= pos,
        pos + file_parts(f).len() <= p.len(),
        forall|x: int| 0 <= x < file_parts(f).len() ==> p[pos + x] == #[trigger] file_parts(f)[x],
        file_rereadable(f, last),
        last ==> pos + file_parts(f).len() == p.len(),
        !last ==> pos + file_parts(f).len() < p.len(),
        !st.git,
    ensures
        run(st, q, pos) == run(st2, q, pos + file_parts(f).len()),
        !st2.git,
        st2.files == read_so_far(st),
        st2.current matches Some(c2) && same_hunks(c2.hunks, f.hunks),
{
    reveal_strlit("--- ");
    reveal_strlit("+++ ");
    let fp = file_parts(f);
    assert(fp.len() >= 3);
    assert(p[pos + 0] == fp[0]);
    assert(p[pos + 1] == fp[1]);
    assert("--- "@ =~= seq!['-', '-', '-', ' ']);
    assert("+++ "@ =~= seq!['+', '+', '+', ' ']);
    let l0 = q[pos];
    let l1 = q[pos + 1];
    lemma_rendered_path('-', f.source_file, l0);
    lemma_rendered_path('+', f.target_file, l1);
    let (name, ts) = file_header(l0, '-')->0;
    let sa = ParseState {
        source_file: Some(name),
        source_timestamp: Some(crate::patchset::or_empty(ts)),
        ..flush(st)
    };
    assert(step(st, q, pos) == Ok::<ParseState, crate::line::ErrorView>(sa));
    let (tname, tts) = file_header(l1, '+')->0;
    let c0 = FileView {
        source_file: name,
        source_timestamp: sa.source_timestamp,
        target_file: tname,
        target_timestamp: Some(crate::patchset::or_empty(tts)),
        hunks: seq![],
    };
    let sb = ParseState { current: Some(c0), ..sa };
    assert(step(sa, q, pos + 1) == Ok::<ParseState, crate::line::ErrorView>(sb));
    assert(pos + 1 < q.len());
    assert(run(st, q, pos) == run(sa, q, pos + 1));
    assert(run(sa, q, pos + 1) == run(sb, q, pos + 2));
    if f.hunks.len() > 0 {
        assert(same_hunks(c0.hunks, f.hunks.take(0)));
        lemma_hunk_position(p, f, pos, 0, last);
        assert(offset(hunk_parts_of(f), 0) == 0) by {
            assert(hunk_parts_of(f).take(0) =~= Seq::<Seq<Seq<char>>>::empty());
        }
        lemma_sim_hunks(sb, q, p, f, pos, 0, last)
    } else {
        assert(p[pos + 2] == fp[2]);
        assert(fp[2] == Seq::<char>::empty());
        if pos + 2 < q.len() {
            assert(q[pos + 2] =~= Seq::<char>::empty());
            lemma_empty_not_header();
        }
        lemma_skip(sb, q, pos + 2, pos + 3);
        assert(same_hunks(c0.hunks, f.hunks));
        sb
    }
}

/// What re-reading needs of a patch set, besides soundness: no path is a lone
/// `\r`, no rendered body line is a file header, and every hunk but the last
/// hunk of the last file holds lines and reaches both of its declared ends.
pub open spec fn render_safe(fs: Seq<FileView>) -> bool {
    &&& forall|k: int|
        0 <= k < fs.len() ==> (#[trigger] fs[k]).source_file != seq!['\r'] && fs[k].target_file
            != seq!['\r']
    &&& forall|k: int, j: int, m: int|
        0 <= k < fs.len() && 0 <= j < fs[k].hunks.len() && 0 <= m < fs[k].hunks[j].lines.len()
            ==> body_text_ok((#[trigger] fs[k].hunks[j].lines[m]).text())
    &&& forall|k: int, j: int|
        0 <= k < fs.len() && 0 <= j < fs[k].hunks.len() && !(k == fs.len() - 1 && j
            == fs[k].hunks.len() - 1) ==> complete(#[trigger] fs[k].hunks[j])
}

/// Each file of a render-safe set of sound files can be read back.
proof fn lemma_file_rereadable(fs: Seq<FileView>, k: int)
    requires
        0 <= k < fs.len(),
        forall|i: int| 0 <= i < fs.len() ==> file_sound(#[trigger] fs[i]),
        render_safe(fs),
    ensures
        file_rereadable(fs[k], k == fs.len() - 1),
{
    let f = fs[k];
    let last = k == fs.len() - 1;
    assert forall|j: int, m: int|
        0 <= j < f.hunks.len() && 0 <= m < f.hunks[j].lines.len() implies body_text_ok(
        (#[trigger] f.hunks[j].lines[m]).text(),
    ) by {
        assert(fs[k].hunks[j].lines[m] == f.hunks[j].lines[m]);
    }
    assert forall|j: int|
        0 <= j < f.hunks.len() && (j < f.hunks.len() - 1 || !last) implies complete(
        #[trigger] f.hunks[j],
    ) by {
        assert(fs[k].hunks[j] == f.hunks[j]);
    }
}

/// Reading the rendered files from file `k` on adds files of the same shapes.
#[verifier::rlimit(100)]
proof fn lemma_sim_files(st: ParseState, q: Seq<Seq<char>>, fs: Seq<FileView>, k: int) -> (st2:
    ParseState)
    requires
        reads_as(q, set_parts(fs)),
        0 <= k <= fs.len(),
        forall|i: int| 0 <= i < fs.len() ==> file_sound(#[trigger] fs[i]),
        render_safe(fs),
        !st.git,
        same_files(read_so_far(st), fs.take(k)),
    ensures
        run(st, q, offset(fs.map_values(|f: FileView| file_parts(f)), k)) == run(
            st2,
            q,
            set_parts(fs).len() as int,
        ),
        same_files(read_so_far(st2), fs),
    decreases fs.len() - k,
{
    let fps = fs.map_values(|f: FileView| file_parts(f));
    let p = set_parts(fs);
    let n = fs.len() as int;
    lemma_offset_bounds(fps, n);
    if k == n {
        assert(fs.take(k) =~= fs);
        st
    } else {
        let f = fs[k];
        let fp = file_parts(f);
        assert(fps[k] == fp);
        let pos = offset(fps, k);
        lemma_offset_bounds(fps, k);
        lemma_offset_bounds(fps, k + 1);
        lemma_flatten_index(fps, k, 0);
        assert forall|x: int| 0 <= x < fp.len() implies p[pos + x] == #[trigger] fp[x] by {
            lemma_flatten_index(fps, k, x);
        }
        let last = k == n - 1;
        if !last {
            lemma_flatten_index(fps, k + 1, 0);
            lemma_offset_bounds(fps, k + 2);
            assert(fps[k + 1] == file_parts(fs[k + 1]));
        }
        lemma_file_rereadable(fs, k);
        let st1 = lemma_sim_file(st, q, p, f, pos, last);
        let c2 = st1.current->0;
        assert(read_so_far(st1) == read_so_far(st).push(c2));
        assert(fs.take(k + 1) =~= fs.take(k).push(f));
        assert(same_files(read_so_far(st1), fs.take(k + 1))) by {
            assert forall|i: int| 0 <= i < k + 1 implies same_hunks(
                #[trigger] read_so_far(st1)[i].hunks,
                fs.take(k + 1)[i].hunks,
            ) by {
                if i < k {
                    assert(read_so_far(st1)[i] == read_so_far(st)[i]);
                    assert(fs.take(k + 1)[i] == fs.take(k)[i]);
                }
            }
        }
        lemma_sim_files(st1, q, fs, k + 1)
    }
}

proof fn lemma_no_nl_concat(a: Seq<char>, b: Seq<char>)
    requires
        no_nl(a),
        no_nl(b),
    ensures
        no_nl(a + b),
{
    assert forall|i: int| 0 <= i < (a + b).len() implies (a + b)[i] != '\n' by {
        if i < a.len() {
            assert((a + b)[i] == a[i]);
        } else {
            assert((a + b)[i] == b[i - a.len()]);
        }
    }
}

proof fn lemma_flatten_no_nl(pp: Seq<Seq<Seq<char>>>)
    requires
        forall|k: int, x: int| 0 <= k < pp.len() && 0 <= x < pp[k].len() ==> no_nl(#[trigger] pp[k][x]),
    ensures
        forall|i: int| 0 <= i < flatten(pp).len() ==> no_nl(#[trigger] flatten(pp)[i]),
    decreases pp.len(),
{
    if pp.len() > 0 {
        let q = pp.drop_last();
        assert forall|k: int, x: int| 0 <= k < q.len() && 0 <= x < q[k].len() implies no_nl(
            #[trigger] q[k][x],
        ) by {
            assert(q[k] == pp[k]);
        }
        lemma_flatten_no_nl(q);
        let a = flatten(q);
        let b = pp.last();
        assert forall|i: int| 0 <= i < flatten(pp).len() implies no_nl(#[trigger] flatten(pp)[i]) by {
            if i < a.len() {
                assert(flatten(pp)[i] == a[i]);
            } else {
                assert(flatten(pp)[i] == b[i - a.len()]);
                assert(pp[pp.len() - 1][i - a.len()] == b[i - a.len()]);
            }
        }
    }
}

proof fn lemma_decimal_no_nl(n: nat)
    ensures
        no_nl(decimal(n)),
{
    lemma_decimal(n);
    assert forall|i: int| 0 <= i < decimal(n).len() implies decimal(n)[i] != '\n' by {
        assert(is_digit(decimal(n)[i]));
    }
}

proof fn lemma_hunk_parts_no_nl(h: HunkView)
    requires
        hunk_sound(h),
    ensures
        forall|x: int| 0 <= x < hunk_parts(h).len() ==> no_nl(#[trigger] hunk_parts(h)[x]),
{
    reveal_strlit("@@ -");
    reveal_strlit(",");
    reveal_strlit(" +");
    reveal_strlit(" @@ ");
    lemma_decimal_no_nl(h.source_start as nat);
    lemma_decimal_no_nl(h.source_length as nat);
    lemma_decimal_no_nl(h.target_start as nat);
    lemma_decimal_no_nl(h.target_length as nat);
    let d1 = decimal(h.source_start as nat);
    let d2 = decimal(h.source_length as nat);
    let d3 = decimal(h.target_start as nat);
    let d4 = decimal(h.target_length as nat);
    assert(no_nl("@@ -"@) && no_nl(","@) && no_nl(" +"@) && no_nl(" @@ "@));
    lemma_no_nl_concat("@@ -"@, d1);
    lemma_no_nl_concat("@@ -"@ + d1, ","@);
    lemma_no_nl_concat("@@ -"@ + d1 + ","@, d2);
    lemma_no_nl_concat("@@ -"@ + d1 + ","@ + d2, " +"@);
    lemma_no_nl_concat("@@ -"@ + d1 + ","@ + d2 + " +"@, d3);
    lemma_no_nl_concat("@@ -"@ + d1 + ","@ + d2 + " +"@ + d3, ","@);
    lemma_no_nl_concat("@@ -"@ + d1 + ","@ + d2 + " +"@ + d3 + ","@, d4);
    lemma_no_nl_concat("@@ -"@ + d1 + ","@ + d2 + " +"@ + d3 + ","@ + d4, " @@ "@);
    lemma_no_nl_concat(
        "@@ -"@ + d1 + ","@ + d2 + " +"@ + d3 + ","@ + d4 + " @@ "@,
        h.section_header,
    );
    assert forall|x: int| 0 <= x < hunk_parts(h).len() implies no_nl(#[trigger] hunk_parts(h)[x]) by {
        if x > 0 && h.lines.len() > 0 {
            let l = h.lines[x - 1];
            assert(valid_type(l.line_type));
            assert(l.line_type.len() == 1);
            assert(no_nl(l.line_type)) by {
                assert(l.line_type[0] != '\n') by {
                    assert(seq!['+'][0] != '\n' && seq!['-'][0] != '\n' && seq![' '][0] != '\n'
                        && seq!['\\'][0] != '\n');
                }
            }
            lemma_no_nl_concat(l.line_type, l.value);
        }
    }
}

proof fn lemma_file_parts_no_nl(f: FileView)
    requires
        file_sound(f),
    ensures
        forall|x: int| 0 <= x < file_parts(f).len() ==> no_nl(#[trigger] file_parts(f)[x]),
{
    reveal_strlit("--- ");
    reveal_strlit("+++ ");
    assert(no_nl("--- "@) && no_nl("+++ "@));
    lemma_no_nl_concat("--- "@, f.source_file);
    lemma_no_nl_concat("+++ "@, f.target_file);
    let hps = hunk_parts_of(f);
    assert forall|k: int, x: int| 0 <= k < hps.len() && 0 <= x < hps[k].len() implies no_nl(
        #[trigger] hps[k][x],
    ) by {
        lemma_hunk_parts_no_nl(f.hunks[k]);
    }
    lemma_flatten_no_nl(hps);
    assert forall|x: int| 0 <= x < file_parts(f).len() implies no_nl(#[trigger] file_parts(f)[x]) by {
        if x >= 2 && f.hunks.len() > 0 {
            assert(file_parts(f)[x] == flatten(hps)[x - 2]);
        }
    }
}

/// Rendering a parsed patch set and reading the text back gives as many
/// files, each with as many hunks, each with the same starts and lengths and
/// the same lines, as markers and line numbers on each side. This holds
/// unless a path is a lone `\r`, a rendered body line reads as a `---` or
/// `+++` line, or a hunk other than the very last one ends before both of its
/// sides are complete (or holds no line), in which case it would take lines
/// that follow it.
pub proof fn lemma_render_then_parse(text: Seq<char>)
    requires
        text.len() <= usize::MAX,
        parse_text(seq![], text).1 is Ok,
        render_safe(parse_text(seq![], text).0),
    ensures
        parse_text(seq![], patch_text(parse_text(seq![], text).0)).1 is Ok,
        same_files(
            parse_text(seq![], patch_text(parse_text(seq![], text).0)).0,
            parse_text(seq![], text).0,
        ),
{
    let fs = parse_text(seq![], text).0;
    lemma_parse_sound(seq![], text);
    assert forall|i: int| 0 <= i < fs.len() implies file_sound(#[trigger] fs[i]) by {}
    let st = start_state(seq![]);
    if fs.len() == 0 {
        assert(fs.map_values(|f: FileView| f.text()) =~= Seq::<Seq<char>>::empty());
        assert(patch_text(fs) =~= Seq::<char>::empty());
        assert(lines_of(patch_text(fs)) =~= Seq::<Seq<char>>::empty());
        assert(flush(st).files =~= Seq::<FileView>::empty());
    } else {
        lemma_patch_text(fs);
        let p = set_parts(fs);
        let fps = fs.map_values(|f: FileView| file_parts(f));
        assert forall|k: int, x: int| 0 <= k < fps.len() && 0 <= x < fps[k].len() implies no_nl(
            #[trigger] fps[k][x],
        ) by {
            lemma_file_parts_no_nl(fs[k]);
        }
        lemma_flatten_no_nl(fps);
        lemma_lines_of_join(p);
        let q = lines_of(patch_text(fs));
        assert(reads_as(q, p)) by {
            assert forall|i: int| 0 <= i < q.len() implies #[trigger] q[i] == if i < p.len() - 1 {
                strip_cr(p[i])
            } else {
                p[i]
            } by {
                if i < p.len() - 1 {
                    assert(stripped(p.drop_last())[i] == strip_cr(p.drop_last()[i]));
                }
            }
        }
        assert(read_so_far(st) =~= fs.take(0));
        assert(fps.take(0) =~= Seq::<Seq<Seq<char>>>::empty());
        let st2 = lemma_sim_files(st, q, fs, 0);
        assert(run(st2, q, p.len() as int) == (flush(st2).files, Ok::<(), crate::line::ErrorView>(())));
        assert(flush(st2).files == read_so_far(st2));
    }
}

} // verus!
