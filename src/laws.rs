//! Properties of the parser's results, stated over the specification and proved.
use vstd::prelude::*;
use crate::text::{has_at, lines_of, scan_lines, no_nl, lemma_lines_no_nl};
use crate::grammar::{Geometry, body_line, is_body_line, hunk_header, git_header, file_header};
use crate::line::{
    LineView, added_type, removed_type, context_type, on_source_side, on_target_side,
    lemma_types_distinct,
};
use crate::hunk::{HunkView, empty_hunk, append_all};
use crate::file::{FileView, dev_null, path_of, hunk_body, parsed_hunk};
use crate::patchset::{ParseState, flush, step, run, start_state, parse_text};

verus! {

/// Stripping the prefixes gives `x` for `a/x` and `b/x`, for `a/x` and
/// `/dev/null`, and for `/dev/null` and `b/x`.
pub proof fn lemma_path_strips_prefixes(x: Seq<char>)
    ensures
        path_of(seq!['a', '/'] + x, seq!['b', '/'] + x) == x,
        path_of(seq!['a', '/'] + x, dev_null()) == x,
        path_of(dev_null(), seq!['b', '/'] + x) == x,
{
    let a = seq!['a', '/'] + x;
    let b = seq!['b', '/'] + x;
    assert(a.subrange(0, 2) =~= seq!['a', '/']);
    assert(b.subrange(0, 2) =~= seq!['b', '/']);
    assert(a.subrange(2, a.len() as int) =~= x);
    assert(b.subrange(2, b.len() as int) =~= x);
    assert(!has_at(dev_null(), 0, seq!['a', '/'])) by {
        assert(dev_null().subrange(0, 2)[0] != seq!['a', '/'][0]);
    }
}

/// A line carries the numbers its kind calls for: an added line a target
/// number only, a removed line a source number only, a context line both, and
/// any other line none.
pub open spec fn numbers_match(l: LineView) -> bool {
    if l.line_type == added_type() {
        l.source_line_no is None && l.target_line_no is Some
    } else if l.line_type == removed_type() {
        l.source_line_no is Some && l.target_line_no is None
    } else if l.line_type == context_type() {
        l.source_line_no is Some && l.target_line_no is Some
    } else {
        l.source_line_no is None && l.target_line_no is None
    }
}

/// How many lines of `ls` have the marker `t`.
pub open spec fn count_type(ls: Seq<LineView>, t: Seq<char>) -> nat
    decreases ls.len(),
{
    if ls.len() == 0 {
        0
    } else {
        count_type(ls.drop_last(), t) + if ls.last().line_type == t {
            1nat
        } else {
            0nat
        }
    }
}

/// How many lines of `ls` carry a source line number.
pub open spec fn count_source(ls: Seq<LineView>) -> nat
    decreases ls.len(),
{
    if ls.len() == 0 {
        0
    } else {
        count_source(ls.drop_last()) + if ls.last().source_line_no is Some {
            1nat
        } else {
            0nat
        }
    }
}

/// How many lines of `ls` carry a target line number.
pub open spec fn count_target(ls: Seq<LineView>) -> nat
    decreases ls.len(),
{
    if ls.len() == 0 {
        0
    } else {
        count_target(ls.drop_last()) + if ls.last().target_line_no is Some {
            1nat
        } else {
            0nat
        }
    }
}

/// One of the four markers of a hunk's body.
pub open spec fn valid_type(t: Seq<char>) -> bool {
    t == added_type() || t == removed_type() || t == context_type() || t == seq!['\\']
}

/// Each line's numbers continue the count of its side from the hunk's start,
/// and stay below `usize::MAX`.
pub open spec fn numbered_from(ls: Seq<LineView>, src: int, tgt: int) -> bool {
    forall|m: int|
        0 <= m < ls.len() ==> {
            &&& (#[trigger] ls[m]).source_line_no == if on_source_side(ls[m].line_type) {
                Some((src + count_source(ls.take(m))) as usize)
            } else {
                None
            }
            &&& on_source_side(ls[m].line_type) ==> src + count_source(ls.take(m)) < usize::MAX
            &&& ls[m].target_line_no == if on_target_side(ls[m].line_type) {
                Some((tgt + count_target(ls.take(m))) as usize)
            } else {
                None
            }
            &&& on_target_side(ls[m].line_type) ==> tgt + count_target(ls.take(m)) < usize::MAX
        }
}

/// No proper prefix of the lines brings both sides to their ends.
pub open spec fn stops_at_end(ls: Seq<LineView>, src: int, tgt: int, se: int, te: int) -> bool {
    forall|m: int|
        0 <= m < ls.len() - 1 ==> !(src + count_source(#[trigger] ls.take(m + 1)) >= se && tgt
            + count_target(ls.take(m + 1)) >= te)
}

/// Every line carries the numbers of its kind, the lines come from consecutive
/// lines of the text, and the counters agree with the lines. Moreover each
/// line has one of the four markers and no line break, the numbers count
/// each side on from the hunk's start, and the hunk ends at the first line
/// where both sides reach their declared ends (or where the text ends).
pub open spec fn hunk_sound(h: HunkView) -> bool {
    &&& forall|m: int|
        0 <= m < h.lines.len() ==> valid_type((#[trigger] h.lines[m]).line_type) && no_nl(
            h.lines[m].value,
        )
    &&& no_nl(h.section_header)
    &&& numbered_from(h.lines, h.source_start as int, h.target_start as int)
    &&& stops_at_end(
        h.lines,
        h.source_start as int,
        h.target_start as int,
        h.source_start + h.source_length,
        h.target_start + h.target_length,
    )
    &&& forall|m: int| 0 <= m < h.lines.len() ==> numbers_match(#[trigger] h.lines[m])
    &&& forall|m: int|
        0 < m < h.lines.len() ==> (#[trigger] h.lines[m]).diff_line_no == h.lines[m
            - 1].diff_line_no + 1
    &&& h.added == count_type(h.lines, added_type())
    &&& h.removed == count_type(h.lines, removed_type())
    &&& h.source_count == count_source(h.lines)
    &&& h.target_count == count_target(h.lines)
}

proof fn lemma_counts_bounded(ls: Seq<LineView>, t: Seq<char>)
    ensures
        count_type(ls, t) <= ls.len(),
        count_source(ls) <= ls.len(),
        count_target(ls) <= ls.len(),
    decreases ls.len(),
{
    if ls.len() > 0 {
        lemma_counts_bounded(ls.drop_last(), t);
    }
}

/// Appending lines that carry the numbers of their kinds keeps the counters in
/// step with the lines.
proof fn lemma_append_all(g: HunkView, ls: Seq<LineView>)
    requires
        g.lines.len() == 0,
        g.added == 0 && g.removed == 0 && g.source_count == 0 && g.target_count == 0,
        ls.len() < usize::MAX,
        forall|m: int| 0 <= m < ls.len() ==> numbers_match(#[trigger] ls[m]),
    ensures
        append_all(g, ls).lines == ls,
        append_all(g, ls).added == count_type(ls, added_type()),
        append_all(g, ls).removed == count_type(ls, removed_type()),
        append_all(g, ls).source_count == count_source(ls),
        append_all(g, ls).target_count == count_target(ls),
        append_all(g, ls).source_start == g.source_start,
        append_all(g, ls).source_length == g.source_length,
        append_all(g, ls).target_start == g.target_start,
        append_all(g, ls).target_length == g.target_length,
        append_all(g, ls).section_header == g.section_header,
    decreases ls.len(),
{
    if ls.len() > 0 {
        let p = ls.drop_last();
        assert forall|m: int| 0 <= m < p.len() implies numbers_match(#[trigger] p[m]) by {
            assert(p[m] == ls[m]);
        }
        lemma_append_all(g, p);
        lemma_counts_bounded(p, added_type());
        lemma_counts_bounded(p, removed_type());
        lemma_types_distinct();
        assert(numbers_match(ls[ls.len() - 1]));
        assert(append_all(g, p).lines.push(ls.last()) =~= ls);
    }
}

/// The lines that a hunk takes from the text carry the numbers of their kinds
/// and come from consecutive lines, starting right after index `j`.
proof fn lemma_body_shape(ls: Seq<Seq<char>>, j: int, src: int, tgt: int, se: int, te: int)
    requires
        0 <= j,
        ls.len() <= usize::MAX,
    ensures
        hunk_body(ls, j, src, tgt, se, te) matches Ok(b) ==> {
            &&& j < ls.len() ==> b.len() > 0
            &&& b.len() <= ls.len() - j || b.len() == 0
            &&& forall|m: int| 0 <= m < b.len() ==> numbers_match(#[trigger] b[m])
            &&& forall|m: int| 0 <= m < b.len() ==> (#[trigger] b[m]).diff_line_no == j + m
        },
    decreases ls.len() - j,
{
    lemma_types_distinct();
    if j < ls.len() {
        let (ty, value) = body_line(ls[j]);
        let s = on_source_side(ty);
        let t = on_target_side(ty);
        let src2 = if s {
            src + 1
        } else {
            src
        };
        let tgt2 = if t {
            tgt + 1
        } else {
            tgt
        };
        lemma_body_shape(ls, j + 1, src2, tgt2, se, te);
        if let Ok(b) = hunk_body(ls, j, src, tgt, se, te) {
            let first = b[0];
            assert(numbers_match(first));
            if !(src2 >= se && tgt2 >= te) {
                let rest = hunk_body(ls, j + 1, src2, tgt2, se, te)->Ok_0;
                assert(b == seq![first] + rest);
                assert forall|m: int| 0 <= m < b.len() implies numbers_match(#[trigger] b[m])
                    && b[m].diff_line_no == j + m by {
                    if m > 0 {
                        assert(b[m] == rest[m - 1]);
                    }
                }
            }
        }
    }
}

proof fn lemma_body_line_valid(l: Seq<char>)
    requires
        no_nl(l),
    ensures
        valid_type(body_line(l).0),
        no_nl(body_line(l).1),
{
    if l.len() > 0 && (l[0] == '+' || l[0] == '-' || l[0] == ' ' || l[0] == '\\') {
        assert(body_line(l).0 =~= seq![l[0]]);
        assert forall|i: int| 0 <= i < body_line(l).1.len() implies body_line(l).1[i] != '\n' by {
            assert(body_line(l).1[i] == l[i + 1]);
        }
    }
}

/// The lines a hunk takes from the text have valid markers and no line
/// breaks, are numbered on from `src` and `tgt`, and end at the first line
/// where both sides reach `se` and `te`.
proof fn lemma_body_numbering(ls: Seq<Seq<char>>, j: int, src: int, tgt: int, se: int, te: int)
    requires
        0 <= j,
        forall|k: int| 0 <= k < ls.len() ==> no_nl(#[trigger] ls[k]),
    ensures
        hunk_body(ls, j, src, tgt, se, te) matches Ok(b) ==> {
            &&& forall|m: int|
                0 <= m < b.len() ==> valid_type((#[trigger] b[m]).line_type) && no_nl(b[m].value)
            &&& numbered_from(b, src, tgt)
            &&& stops_at_end(b, src, tgt, se, te)
        },
    decreases ls.len() - j,
{
    lemma_types_distinct();
    if j < ls.len() {
        let (ty, value) = body_line(ls[j]);
        lemma_body_line_valid(ls[j]);
        let s = on_source_side(ty);
        let t = on_target_side(ty);
        let src2 = if s {
            src + 1
        } else {
            src
        };
        let tgt2 = if t {
            tgt + 1
        } else {
            tgt
        };
        lemma_body_numbering(ls, j + 1, src2, tgt2, se, te);
        if let Ok(b) = hunk_body(ls, j, src, tgt, se, te) {
            let first = b[0];
            assert(b.take(0) =~= Seq::<LineView>::empty());
            assert(count_source(Seq::<LineView>::empty()) == 0);
            assert(count_target(Seq::<LineView>::empty()) == 0);
            if src2 >= se && tgt2 >= te {
                assert(b =~= seq![first]);
            } else {
                let rest = hunk_body(ls, j + 1, src2, tgt2, se, te)->Ok_0;
                assert(b == seq![first] + rest);
                assert forall|m: int| 1 <= m <= b.len() implies #[trigger] b.take(m) == seq![first]
                    + rest.take(m - 1) && count_source(b.take(m)) == (if s {
                    1int
                } else {
                    0int
                }) + count_source(rest.take(m - 1)) && count_target(b.take(m)) == (if t {
                    1int
                } else {
                    0int
                }) + count_target(rest.take(m - 1)) by {
                    assert(b.take(m) =~= seq![first] + rest.take(m - 1));
                    lemma_count_prepend(first, rest.take(m - 1));
                }
                assert forall|m: int| 0 <= m < b.len() implies valid_type(
                    (#[trigger] b[m]).line_type,
                ) && no_nl(b[m].value) by {
                    if m > 0 {
                        assert(b[m] == rest[m - 1]);
                    }
                }
                assert forall|m: int| 0 <= m < b.len() implies {
                    &&& (#[trigger] b[m]).source_line_no == if on_source_side(b[m].line_type) {
                        Some((src + count_source(b.take(m))) as usize)
                    } else {
                        None
                    }
                    &&& on_source_side(b[m].line_type) ==> src + count_source(b.take(m))
                        < usize::MAX
                    &&& b[m].target_line_no == if on_target_side(b[m].line_type) {
                        Some((tgt + count_target(b.take(m))) as usize)
                    } else {
                        None
                    }
                    &&& on_target_side(b[m].line_type) ==> tgt + count_target(b.take(m))
                        < usize::MAX
                } by {
                    if m > 0 {
                        assert(b[m] == rest[m - 1]);
                        assert(rest[m - 1] == rest[m - 1]);
                    }
                }
                assert forall|m: int| 0 <= m < b.len() - 1 implies !(src + count_source(
                    #[trigger] b.take(m + 1),
                ) >= se && tgt + count_target(b.take(m + 1)) >= te) by {
                    if m > 0 {
                        assert(rest.take(m) == rest.take((m - 1) + 1));
                    } else {
                        assert(rest.take(0) =~= Seq::<LineView>::empty());
                    }
                }
            }
        }
    }
}

/// A hunk read by the parser is sound.
pub proof fn lemma_parsed_hunk_sound(g: Geometry, ls: Seq<Seq<char>>, i: int)
    requires
        1 <= i,
        ls.len() <= usize::MAX,
        forall|k: int| 0 <= k < ls.len() ==> no_nl(#[trigger] ls[k]),
        0 <= g.source_start <= usize::MAX,
        0 <= g.source_length <= usize::MAX,
        0 <= g.target_start <= usize::MAX,
        0 <= g.target_length <= usize::MAX,
        no_nl(g.section_header),
    ensures
        parsed_hunk(g, ls, i) matches Ok(h) ==> hunk_sound(h),
{
    let se = g.source_start + g.source_length;
    let te = g.target_start + g.target_length;
    lemma_body_shape(ls, i, g.source_start, g.target_start, se, te);
    lemma_body_numbering(ls, i, g.source_start, g.target_start, se, te);
    if let Ok(b) = hunk_body(ls, i, g.source_start, g.target_start, se, te) {
        let e = empty_hunk(
            g.source_start as usize,
            g.source_length as usize,
            g.target_start as usize,
            g.target_length as usize,
            g.section_header,
        );
        lemma_append_all(e, b);
        let h = append_all(e, b);
        assert(h.lines == b);
        assert forall|m: int| 0 < m < h.lines.len() implies (#[trigger] h.lines[m]).diff_line_no
            == h.lines[m - 1].diff_line_no + 1 by {
            assert(b[m].diff_line_no == i + m);
            assert(b[m - 1].diff_line_no == i + (m - 1));
        }
    }
}

/// A path as a file header gives it: not empty, not starting with a tab, with
/// no line break.
pub open spec fn path_ok(p: Seq<char>) -> bool {
    p.len() > 0 && p[0] != '\t' && no_nl(p)
}

/// Every hunk of the file is sound, only the last one may be empty, and both
/// paths are as file headers give them.
pub open spec fn file_sound(f: FileView) -> bool {
    &&& path_ok(f.source_file)
    &&& path_ok(f.target_file)
    &&& forall|k: int| 0 <= k < f.hunks.len() ==> hunk_sound(#[trigger] f.hunks[k])
    &&& forall|k: int| 0 <= k < f.hunks.len() - 1 ==> (#[trigger] f.hunks[k]).lines.len() > 0
}

/// The files from index `n` on are sound.
pub open spec fn files_sound_from(fs: Seq<FileView>, n: int) -> bool {
    forall|k: int| n <= k < fs.len() ==> file_sound(#[trigger] fs[k])
}

/// The file being read is sound, its last hunk is empty only once the text is
/// used up, and the path of the last `---` line is as file headers give it.
pub open spec fn current_sound(st: ParseState, ls: Seq<Seq<char>>, i: int) -> bool {
    &&& st.current matches Some(f) ==> file_sound(f) && (f.hunks.len() > 0
        && f.hunks.last().lines.len() == 0 ==> i >= ls.len())
    &&& st.source_file matches Some(p) ==> path_ok(p)
}

proof fn lemma_flush_sound(st: ParseState, n: int, ls: Seq<Seq<char>>, i: int)
    requires
        0 <= n <= st.files.len(),
        files_sound_from(st.files, n),
        current_sound(st, ls, i),
    ensures
        files_sound_from(flush(st).files, n),
        flush(st).files.subrange(0, n) == st.files.subrange(0, n),
        flush(st).current is None,
{
    if let Some(f) = st.current {
        assert(flush(st).files.subrange(0, n) =~= st.files.subrange(0, n));
        assert forall|k: int| n <= k < flush(st).files.len() implies file_sound(
            #[trigger] flush(st).files[k],
        ) by {
            if k < st.files.len() {
                assert(flush(st).files[k] == st.files[k]);
            }
        }
    }
}

proof fn lemma_sub_path_ok(l: Seq<char>, a: int, b: int)
    requires
        0 <= a < b <= l.len(),
        no_nl(l),
        l[a] != '\t',
    ensures
        path_ok(l.subrange(a, b)),
{
    assert forall|i: int| 0 <= i < b - a implies l.subrange(a, b)[i] != '\n' by {
        assert(l.subrange(a, b)[i] == l[a + i]);
    }
}

/// One line keeps the reader's state sound.
#[verifier::rlimit(60)]
proof fn lemma_step_sound(st: ParseState, ls: Seq<Seq<char>>, i: int, n: int)
    requires
        0 <= i < ls.len(),
        0 <= n <= st.files.len(),
        ls.len() <= usize::MAX,
        forall|k: int| 0 <= k < ls.len() ==> no_nl(#[trigger] ls[k]),
        files_sound_from(st.files, n),
        current_sound(st, ls, i),
    ensures
        step(st, ls, i) matches Ok(next) ==> {
            &&& n <= next.files.len()
            &&& next.files.subrange(0, n) == st.files.subrange(0, n)
            &&& files_sound_from(next.files, n)
            &&& current_sound(next, ls, i + 1)
        },
{
    let l = ls[i];
    assert(no_nl(l));
    lemma_flush_sound(st, n, ls, i);
    if let Ok(next) = step(st, ls, i) {
        if git_header(l) is Some {
            let b = crate::grammar::non_ws_end(l, 11);
            let c = crate::grammar::non_ws_end(l, b + 1);
            lemma_non_ws_end(l, 11);
            lemma_non_ws_end(l, b + 1);
            lemma_sub_path_ok(l, 11, b);
            lemma_sub_path_ok(l, b + 1, c);
        } else if file_header(l, '-') is Some {
            lemma_non_tab_end(l, 4);
            lemma_sub_path_ok(l, 4, crate::grammar::non_tab_end(l, 4));
        } else if file_header(l, '+') is Some {
            lemma_non_tab_end(l, 4);
            lemma_sub_path_ok(l, 4, crate::grammar::non_tab_end(l, 4));
        } else if hunk_header(l) is Some {
            let f = st.current->0;
            let g = hunk_header(l)->0;
            crate::grammar::lemma_hunk_header_facts(l);
            let h = parsed_hunk(g, ls, i + 1)->Ok_0;
            lemma_parsed_hunk_sound(g, ls, i + 1);
            lemma_body_shape(
                ls,
                i + 1,
                g.source_start,
                g.target_start,
                g.source_start + g.source_length,
                g.target_start + g.target_length,
            );
            let e = empty_hunk(
                g.source_start as usize,
                g.source_length as usize,
                g.target_start as usize,
                g.target_length as usize,
                g.section_header,
            );
            let b = hunk_body(
                ls,
                i + 1,
                g.source_start,
                g.target_start,
                g.source_start + g.source_length,
                g.target_start + g.target_length,
            )->Ok_0;
            lemma_append_all(e, b);
            let f2 = next.current->0;
            assert(f2.hunks == f.hunks.push(h));
            assert forall|k: int| 0 <= k < f2.hunks.len() implies hunk_sound(
                #[trigger] f2.hunks[k],
            ) by {
                if k < f.hunks.len() {
                    assert(f2.hunks[k] == f.hunks[k]);
                }
            }
            assert forall|k: int| 0 <= k < f2.hunks.len() - 1 implies (
            #[trigger] f2.hunks[k]).lines.len() > 0 by {
                assert(f2.hunks[k] == f.hunks[k]);
            }
        }
    }
}

proof fn lemma_non_ws_end(l: Seq<char>, i: int)
    requires
        0 <= i,
    ensures
        crate::grammar::non_ws_end(l, i) > i ==> !crate::grammar::is_ws(l[i]) && i < l.len(),
        i <= crate::grammar::non_ws_end(l, i) <= if i <= l.len() {
            l.len() as int
        } else {
            i
        },
    decreases l.len() - i,
{
    if i < l.len() && !crate::grammar::is_ws(l[i]) {
        lemma_non_ws_end(l, i + 1);
    }
}

proof fn lemma_non_tab_end(l: Seq<char>, i: int)
    requires
        0 <= i,
    ensures
        crate::grammar::non_tab_end(l, i) > i ==> l[i] != '\t' && i < l.len(),
        i <= crate::grammar::non_tab_end(l, i) <= if i <= l.len() {
            l.len() as int
        } else {
            i
        },
    decreases l.len() - i,
{
    if i < l.len() && l[i] != '\t' {
        lemma_non_tab_end(l, i + 1);
    }
}

/// Reading keeps the files that were there and adds only sound files.
proof fn lemma_run_sound(st: ParseState, ls: Seq<Seq<char>>, i: int, n: int)
    requires
        0 <= i,
        0 <= n <= st.files.len(),
        ls.len() <= usize::MAX,
        forall|k: int| 0 <= k < ls.len() ==> no_nl(#[trigger] ls[k]),
        files_sound_from(st.files, n),
        current_sound(st, ls, i),
    ensures
        run(st, ls, i).0.len() >= n,
        run(st, ls, i).0.subrange(0, n) == st.files.subrange(0, n),
        files_sound_from(run(st, ls, i).0, n),
    decreases ls.len() - i,
{
    if i >= ls.len() {
        lemma_flush_sound(st, n, ls, i);
    } else {
        lemma_step_sound(st, ls, i, n);
        match step(st, ls, i) {
            Ok(next) => {
                lemma_run_sound(next, ls, i + 1, n);
                assert(run(next, ls, i + 1).0.subrange(0, n) =~= st.files.subrange(0, n));
            },
            Err(_) => {
                assert(run(st, ls, i).0.subrange(0, n) =~= st.files.subrange(0, n));
            },
        }
    }
}

proof fn lemma_scan_lines_len(t: Seq<char>)
    ensures
        scan_lines(t).0.len() + (if scan_lines(t).1.len() > 0 {
            1int
        } else {
            0int
        }) <= t.len(),
    decreases t.len(),
{
    if t.len() > 0 {
        lemma_scan_lines_len(t.drop_last());
    }
}

/// A text has no more lines than characters.
pub proof fn lemma_lines_of_len(t: Seq<char>)
    ensures
        lines_of(t).len() <= t.len(),
{
    lemma_scan_lines_len(t);
}

/// Reading a text keeps the files that were there, and every file it adds,
/// whether or not it ends in an error, is sound: each line carries the numbers
/// of its kind, lines of one hunk come from consecutive lines of the text, and
/// a hunk's counters count its lines, so that it is valid exactly when as many
/// lines carry a source number as it declares on the source side, and as many a
/// target number as it declares on the target side.
pub proof fn lemma_parse_sound(files: Seq<FileView>, text: Seq<char>)
    requires
        text.len() <= usize::MAX,
    ensures
        parse_text(files, text).0.len() >= files.len(),
        parse_text(files, text).0.subrange(0, files.len() as int) == files,
        forall|k: int|
            files.len() <= k < parse_text(files, text).0.len() ==> file_sound(
                #[trigger] parse_text(files, text).0[k],
            ),
{
    lemma_lines_of_len(text);
    lemma_lines_no_nl(text);
    let st = start_state(files);
    assert(files.subrange(0, files.len() as int) =~= files);
    lemma_run_sound(st, lines_of(text), 0, files.len() as int);
}

/// How many of the lines `ls[j..k]` stand in the source file, read as lines
/// of a hunk's body.
pub open spec fn source_lines_in(ls: Seq<Seq<char>>, j: int, k: int) -> int
    decreases k - j,
{
    if j >= k {
        0
    } else {
        (if on_source_side(body_line(ls[j]).0) {
            1int
        } else {
            0int
        }) + source_lines_in(ls, j + 1, k)
    }
}

/// How many of the lines `ls[j..k]` stand in the target file, read as lines
/// of a hunk's body.
pub open spec fn target_lines_in(ls: Seq<Seq<char>>, j: int, k: int) -> int
    decreases k - j,
{
    if j >= k {
        0
    } else {
        (if on_target_side(body_line(ls[j]).0) {
            1int
        } else {
            0int
        }) + target_lines_in(ls, j + 1, k)
    }
}

proof fn lemma_lines_in_nonneg(ls: Seq<Seq<char>>, j: int, k: int)
    ensures
        source_lines_in(ls, j, k) >= 0,
        target_lines_in(ls, j, k) >= 0,
    decreases k - j,
{
    if j < k {
        lemma_lines_in_nonneg(ls, j + 1, k);
    }
}

pub proof fn lemma_count_prepend(x: LineView, r: Seq<LineView>)
    ensures
        count_source(seq![x] + r) == (if x.source_line_no is Some {
            1int
        } else {
            0int
        }) + count_source(r),
        count_target(seq![x] + r) == (if x.target_line_no is Some {
            1int
        } else {
            0int
        }) + count_target(r),
    decreases r.len(),
{
    if r.len() > 0 {
        lemma_count_prepend(x, r.drop_last());
        assert((seq![x] + r).drop_last() =~= seq![x] + r.drop_last());
        assert((seq![x] + r).last() == r.last());
    } else {
        assert(seq![x] + r =~= seq![x]);
        assert(seq![x].drop_last() =~= Seq::<LineView>::empty());
        assert(count_source(Seq::<LineView>::empty()) == 0);
        assert(count_target(Seq::<LineView>::empty()) == 0);
        assert(seq![x].last() == x);
    }
}

/// A body whose lines `ls[j..k]` bring both sides exactly to their ends is
/// read up to line `k` and numbers each side up to its end.
proof fn lemma_conformant_body(
    ls: Seq<Seq<char>>,
    j: int,
    k: int,
    src: int,
    tgt: int,
    se: int,
    te: int,
)
    requires
        0 <= j < k <= ls.len(),
        ls.len() <= usize::MAX,
        forall|x: int| j <= x < k ==> is_body_line(#[trigger] ls[x]),
        src + source_lines_in(ls, j, k) == se,
        tgt + target_lines_in(ls, j, k) == te,
        se < usize::MAX,
        te < usize::MAX,
    ensures
        hunk_body(ls, j, src, tgt, se, te) matches Ok(b) && count_source(b) == se - src
            && count_target(b) == te - tgt,
    decreases k - j,
{
    lemma_types_distinct();
    lemma_lines_in_nonneg(ls, j + 1, k);
    let (ty, value) = body_line(ls[j]);
    let s = on_source_side(ty);
    let t = on_target_side(ty);
    let src2 = if s {
        src + 1
    } else {
        src
    };
    let tgt2 = if t {
        tgt + 1
    } else {
        tgt
    };
    if !(src2 >= se && tgt2 >= te) {
        lemma_conformant_body(ls, j + 1, k, src2, tgt2, se, te);
        let rest = hunk_body(ls, j + 1, src2, tgt2, se, te)->Ok_0;
        let b = hunk_body(ls, j, src, tgt, se, te)->Ok_0;
        lemma_count_prepend(b[0], rest);
        assert(b == seq![b[0]] + rest);
    } else {
        let b = hunk_body(ls, j, src, tgt, se, te)->Ok_0;
        lemma_count_prepend(b[0], Seq::<LineView>::empty());
        assert(seq![b[0]] + Seq::<LineView>::empty() =~= b);
    }
}

/// A hunk is valid when the lines after its header, from `ls[i]` up to some
/// line `ls[k - 1]`, can all stand in a hunk's body and hold exactly as many
/// lines on each side as its header declares (and its line numbers stay below
/// `usize::MAX`).
pub proof fn lemma_conformant_hunk_is_valid(g: Geometry, ls: Seq<Seq<char>>, i: int, k: int)
    requires
        0 <= i < k <= ls.len(),
        ls.len() < usize::MAX,
        forall|x: int| i <= x < k ==> is_body_line(#[trigger] ls[x]),
        0 <= g.source_start && 0 <= g.source_length,
        0 <= g.target_start && 0 <= g.target_length,
        g.source_start + g.source_length < usize::MAX,
        g.target_start + g.target_length < usize::MAX,
        source_lines_in(ls, i, k) == g.source_length,
        target_lines_in(ls, i, k) == g.target_length,
    ensures
        parsed_hunk(g, ls, i) matches Ok(h) && h.is_valid(),
{
    let se = g.source_start + g.source_length;
    let te = g.target_start + g.target_length;
    lemma_conformant_body(ls, i, k, g.source_start, g.target_start, se, te);
    lemma_body_shape(ls, i, g.source_start, g.target_start, se, te);
    let b = hunk_body(ls, i, g.source_start, g.target_start, se, te)->Ok_0;
    let e = empty_hunk(
        g.source_start as usize,
        g.source_length as usize,
        g.target_start as usize,
        g.target_length as usize,
        g.section_header,
    );
    lemma_append_all(e, b);
}

proof fn lemma_consecutive(h: HunkView, m: int)
    requires
        hunk_sound(h),
        0 <= m < h.lines.len(),
    ensures
        h.lines[m].diff_line_no == h.lines[0].diff_line_no + m,
    decreases m,
{
    if m > 0 {
        lemma_consecutive(h, m - 1);
        assert(h.lines[m].diff_line_no == h.lines[m - 1].diff_line_no + 1);
    }
}

/// In a sound file where each hunk's last line comes before the next hunk's
/// first line, the numbers of the lines in the text strictly increase in the
/// order the lines were appended: line `x` of hunk `a` comes before line `y` of
/// hunk `b` whenever it was appended earlier.
pub proof fn lemma_file_lines_increase(f: FileView, a: int, x: int, b: int, y: int)
    requires
        file_sound(f),
        forall|k: int|
            0 <= k < f.hunks.len() - 1 && f.hunks[k + 1].lines.len() > 0 && f.hunks[k].lines.len()
                > 0 ==> (#[trigger] f.hunks[k]).lines.last().diff_line_no < f.hunks[k
                + 1].lines[0].diff_line_no,
        0 <= a <= b < f.hunks.len(),
        0 <= x < f.hunks[a].lines.len(),
        0 <= y < f.hunks[b].lines.len(),
        a < b || x < y,
    ensures
        f.hunks[a].lines[x].diff_line_no < f.hunks[b].lines[y].diff_line_no,
    decreases b - a,
{
    let ha = f.hunks[a];
    assert(hunk_sound(ha));
    lemma_consecutive(ha, x);
    if a == b {
        lemma_consecutive(ha, y);
    } else {
        let n = ha.lines.len();
        lemma_consecutive(ha, n - 1);
        let hn = f.hunks[a + 1];
        if a + 1 < f.hunks.len() - 1 {
            assert(hn.lines.len() > 0);
        }
        assert(hn.lines.len() > 0);
        assert(ha.lines.last().diff_line_no < hn.lines[0].diff_line_no);
        if !(a + 1 == b && y == 0) {
            lemma_file_lines_increase(f, a + 1, 0, b, y);
        }
    }
}

} // verus!
