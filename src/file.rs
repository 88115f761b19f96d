//! Files of a patch, and the reading of a file's hunks.
use vstd::prelude::*;
use crate::text::{chars_of, has_at, matches_at, string_from, views, join, lemma_join_push};
use crate::hunk::{Hunk, HunkView, lemma_hunk_view_fields, empty_hunk, append_all};
use crate::line::{Line, LineView, Error, on_source_side, on_target_side};
use crate::grammar::{
    Geometry, hunk_header, body_line, is_body_line, match_hunk_header, match_body_line,
};

verus! {

broadcast use lemma_hunk_view_fields;

/// The changes to one file.
#[derive(Debug, PartialEq, Eq, Hash)]
pub struct PatchedFile {
    /// Path of the file before the change, as the header gives it.
    pub source_file: String,
    /// Timestamp of the file before the change.
    pub source_timestamp: Option<String>,
    /// Path of the file after the change, as the header gives it.
    pub target_file: String,
    /// Timestamp of the file after the change.
    pub target_timestamp: Option<String>,
    pub(crate) hunks: Vec<Hunk>,
}

pub struct FileView {
    pub source_file: Seq<char>,
    pub source_timestamp: Option<Seq<char>>,
    pub target_file: Seq<char>,
    pub target_timestamp: Option<Seq<char>>,
    pub hunks: Seq<HunkView>,
}

pub open spec fn opt_view(o: Option<String>) -> Option<Seq<char>> {
    match o {
        Some(s) => Some(s@),
        None => None,
    }
}

/// The views of a sequence of hunks.
pub open spec fn hunk_views(v: Seq<Hunk>) -> Seq<HunkView> {
    v.map_values(|h: Hunk| h@)
}

pub proof fn lemma_hunk_views_push(v: Seq<Hunk>, x: Hunk)
    ensures
        hunk_views(v.push(x)) == hunk_views(v).push(x@),
{
    assert(hunk_views(v.push(x)) =~= hunk_views(v).push(x@));
}

impl View for PatchedFile {
    type V = FileView;

    closed spec fn view(&self) -> FileView {
        FileView {
            source_file: self.source_file@,
            source_timestamp: opt_view(self.source_timestamp),
            target_file: self.target_file@,
            target_timestamp: opt_view(self.target_timestamp),
            hunks: hunk_views(self.hunks@),
        }
    }
}

/// The path that marks a side as absent.
pub open spec fn dev_null() -> Seq<char> {
    seq!['/', 'd', 'e', 'v', '/', 'n', 'u', 'l', 'l']
}

/// Where the repeated prefix `p` ends in `s`, reading from `i`.
pub open spec fn skip_repeated(s: Seq<char>, i: int, p: Seq<char>) -> int
    decreases s.len() - i,
{
    if p.len() > 0 && 0 <= i && has_at(s, i, p) {
        skip_repeated(s, i + p.len(), p)
    } else {
        i
    }
}

/// `s` with every leading copy of `p` removed.
pub open spec fn trim_prefix(s: Seq<char>, p: Seq<char>) -> Seq<char> {
    s.subrange(skip_repeated(s, 0, p), s.len() as int)
}

/// The path of a file: without the `a/` or `b/` prefix of the side that is
/// present.
pub open spec fn path_of(s: Seq<char>, t: Seq<char>) -> Seq<char> {
    if has_at(s, 0, seq!['a', '/']) && has_at(t, 0, seq!['b', '/']) {
        s.subrange(2, s.len() as int)
    } else if has_at(s, 0, seq!['a', '/']) && t == dev_null() {
        s.subrange(2, s.len() as int)
    } else if has_at(t, 0, seq!['b', '/']) && s == dev_null() {
        t.subrange(2, t.len() as int)
    } else {
        s
    }
}

/// The sum of the added counts of `hs`.
pub open spec fn sum_added(hs: Seq<HunkView>) -> int
    decreases hs.len(),
{
    if hs.len() == 0 {
        0
    } else {
        sum_added(hs.drop_last()) + hs.last().added
    }
}

/// The sum of the removed counts of `hs`.
pub open spec fn sum_removed(hs: Seq<HunkView>) -> int
    decreases hs.len(),
{
    if hs.len() == 0 {
        0
    } else {
        sum_removed(hs.drop_last()) + hs.last().removed
    }
}

/// The lines that a hunk takes from `ls`, reading from index `i`, when `src`
/// and `tgt` are the next line numbers on each side and the hunk ends once both
/// reach `src_end` and `tgt_end`. It takes at least one line unless the input
/// ends. `Err` holds the first line that cannot stand in a hunk's body, or
/// whose number would not stay below `usize::MAX`. Each line is numbered by its
/// index in `ls`, counted from 0.
pub open spec fn hunk_body(
    ls: Seq<Seq<char>>,
    i: int,
    src: int,
    tgt: int,
    src_end: int,
    tgt_end: int,
) -> Result<Seq<LineView>, Seq<char>>
    decreases ls.len() - i,
{
    if i < 0 || i >= ls.len() {
        Ok(seq![])
    } else if !is_body_line(ls[i]) {
        Err(ls[i])
    } else {
        let (ty, value) = body_line(ls[i]);
        let s = on_source_side(ty);
        let t = on_target_side(ty);
        if (s && src >= usize::MAX) || (t && tgt >= usize::MAX) {
            Err(ls[i])
        } else {
            let line = LineView {
                source_line_no: if s {
                    Some(src as usize)
                } else {
                    None
                },
                target_line_no: if t {
                    Some(tgt as usize)
                } else {
                    None
                },
                diff_line_no: i as usize,
                line_type: ty,
                value,
            };
            let src2 = if s {
                src + 1
            } else {
                src
            };
            let tgt2 = if t {
                tgt + 1
            } else {
                tgt
            };
            if src2 >= src_end && tgt2 >= tgt_end {
                Ok(seq![line])
            } else {
                match hunk_body(ls, i + 1, src2, tgt2, src_end, tgt_end) {
                    Ok(rest) => Ok(seq![line] + rest),
                    Err(l) => Err(l),
                }
            }
        }
    }
}

/// `r` with `p` put in front of its lines.
pub open spec fn after(p: Seq<LineView>, r: Result<Seq<LineView>, Seq<char>>) -> Result<
    Seq<LineView>,
    Seq<char>,
> {
    match r {
        Ok(b) => Ok(p + b),
        Err(l) => Err(l),
    }
}

/// The hunk whose header has geometry `g` and whose body is read from `ls`
/// starting at index `i`, or the line that could not be numbered.
pub open spec fn parsed_hunk(g: Geometry, ls: Seq<Seq<char>>, i: int) -> Result<
    HunkView,
    Seq<char>,
> {
    match hunk_body(
        ls,
        i,
        g.source_start,
        g.target_start,
        g.source_start + g.source_length,
        g.target_start + g.target_length,
    ) {
        Ok(body) => Ok(
            append_all(
                empty_hunk(
                    g.source_start as usize,
                    g.source_length as usize,
                    g.target_start as usize,
                    g.target_length as usize,
                    g.section_header,
                ),
                body,
            ),
        ),
        Err(l) => Err(l),
    }
}

impl FileView {
    /// The `---` and `+++` lines, then the hunks, each starting on a new line.
    pub open spec fn text(self) -> Seq<char> {
        "--- "@ + self.source_file + "\n"@ + "+++ "@ + self.target_file + "\n"@ + join(
            self.hunks.map_values(|h: HunkView| h.text()),
            "\n"@,
        )
    }

    pub open spec fn path(self) -> Seq<char> {
        path_of(self.source_file, self.target_file)
    }

    /// One hunk, which starts at 0 with length 0 on the source side.
    pub open spec fn is_added_file(self) -> bool {
        self.hunks.len() == 1 && self.hunks[0].source_start == 0 && self.hunks[0].source_length
            == 0
    }

    /// One hunk, which starts at 0 with length 0 on the target side.
    pub open spec fn is_removed_file(self) -> bool {
        self.hunks.len() == 1 && self.hunks[0].target_start == 0 && self.hunks[0].target_length
            == 0
    }

    /// The paths differ once their prefixes are stripped, and neither side is
    /// absent.
    pub open spec fn is_renamed_file(self) -> bool {
        trim_prefix(self.source_file, seq!['a', '/']) != trim_prefix(
            self.target_file,
            seq!['b', '/'],
        ) && self.source_file != dev_null() && self.target_file != dev_null()
    }

    /// Neither added nor removed, and not a rename without hunks.
    pub open spec fn is_modified_file(self) -> bool {
        !self.is_added_file() && !self.is_removed_file() && (self.hunks.len() > 0
            || !self.is_renamed_file())
    }
}

/// Whether `v[i..]` equals `w[j..]`.
fn tail_eq(v: &Vec<char>, i: usize, w: &Vec<char>, j: usize) -> (r: bool)
    requires
        i <= v@.len(),
        j <= w@.len(),
    ensures
        r == (v@.subrange(i as int, v@.len() as int) == w@.subrange(j as int, w@.len() as int)),
{
    if v.len() - i != w.len() - j {
        proof {
            if v@.subrange(i as int, v@.len() as int) == w@.subrange(j as int, w@.len() as int) {
                assert(v@.subrange(i as int, v@.len() as int).len() == w@.subrange(
                    j as int,
                    w@.len() as int,
                ).len());
            }
        }
        return false;
    }
    let mut k: usize = 0;
    let n = w.len();
    while k < v.len() - i
        invariant
            w@.len() == n,
            i <= v@.len(),
            j <= w@.len(),
            v@.len() - i == w@.len() - j,
            k <= v@.len() - i,
            forall|m: int|
                0 <= m < k ==> #[trigger] v@.subrange(i as int, v@.len() as int)[m] == w@.subrange(
                    j as int,
                    w@.len() as int,
                )[m],
        decreases v.len() - i - k,
    {
        if v[i + k] != w[j + k] {
            assert(v@.subrange(i as int, v@.len() as int)[k as int] != w@.subrange(
                j as int,
                w@.len() as int,
            )[k as int]);
            return false;
        }
        k = k + 1;
    }
    assert(v@.subrange(i as int, v@.len() as int) =~= w@.subrange(j as int, w@.len() as int));
    true
}

/// Whether `v` is `/dev/null`.
fn is_dev_null(v: &Vec<char>) -> (r: bool)
    ensures
        r == (v@ == dev_null()),
{
    let r = v.len() == 9 && matches_at(v, 0, &['/', 'd', 'e', 'v', '/', 'n', 'u', 'l', 'l']);
    proof {
        if v@.len() == 9 {
            assert(v@ =~= v@.subrange(0, 9));
        }
    }
    r
}

/// Where the repeated prefix `p` ends in `v`.
fn skip_prefixes(v: &Vec<char>, p: &[char]) -> (r: usize)
    requires
        p@.len() > 0,
    ensures
        r == skip_repeated(v@, 0, p@),
        r <= v@.len(),
{
    let mut i: usize = 0;
    let n = v.len();
    while matches_at(v, i, p)
        invariant
            v@.len() == n,
            p@.len() > 0,
            i <= v@.len(),
            skip_repeated(v@, 0, p@) == skip_repeated(v@, i as int, p@),
        decreases v@.len() - i,
    {
        i = i + p.len();
    }
    i
}

impl Clone for PatchedFile {
    fn clone(&self) -> (r: Self)
        ensures
            r@ == self@,
    {
        let mut hunks: Vec<Hunk> = Vec::new();
        let mut i: usize = 0;
        while i < self.hunks.len()
            invariant
                i <= self.hunks@.len(),
                hunk_views(hunks@) == hunk_views(self.hunks@.subrange(0, i as int)),
            decreases self.hunks.len() - i,
        {
            let h = self.hunks[i].clone();
            proof {
                assert(self.hunks@.subrange(0, i + 1) =~= self.hunks@.subrange(0, i as int).push(
                    self.hunks@[i as int],
                ));
                lemma_hunk_views_push(self.hunks@.subrange(0, i as int), self.hunks@[i as int]);
                lemma_hunk_views_push(hunks@, h);
            }
            hunks.push(h);
            i = i + 1;
        }
        assert(self.hunks@.subrange(0, i as int) =~= self.hunks@);
        PatchedFile {
            source_file: self.source_file.clone(),
            source_timestamp: match &self.source_timestamp {
                Some(t) => Some(t.clone()),
                None => None,
            },
            target_file: self.target_file.clone(),
            target_timestamp: match &self.target_timestamp {
                Some(t) => Some(t.clone()),
                None => None,
            },
            hunks,
        }
    }
}

impl PatchedFile {
    /// A file with the given paths, no timestamps and no hunks.
    pub fn new(source_file: &str, target_file: &str) -> (r: PatchedFile)
        ensures
            r@ == (FileView {
                source_file: source_file@,
                source_timestamp: None,
                target_file: target_file@,
                target_timestamp: None,
                hunks: seq![],
            }),
    {
        let r = PatchedFile {
            source_file: source_file.to_owned(),
            source_timestamp: None,
            target_file: target_file.to_owned(),
            target_timestamp: None,
            hunks: Vec::new(),
        };
        assert(hunk_views(r.hunks@) =~= seq![]);
        r
    }

    /// A file with the given paths and timestamps, and no hunks.
    pub(crate) fn from_header(
        source_file: String,
        source_timestamp: Option<String>,
        target_file: String,
        target_timestamp: Option<String>,
    ) -> (r: PatchedFile)
        ensures
            r@ == (FileView {
                source_file: source_file@,
                source_timestamp: opt_view(source_timestamp),
                target_file: target_file@,
                target_timestamp: opt_view(target_timestamp),
                hunks: seq![],
            }),
    {
        let r = PatchedFile {
            source_file,
            source_timestamp,
            target_file,
            target_timestamp,
            hunks: Vec::new(),
        };
        assert(hunk_views(r.hunks@) =~= seq![]);
        r
    }

    /// A file with the given paths and hunks, and no timestamps.
    pub fn with_hunks(source_file: &str, target_file: &str, hunks: Vec<Hunk>) -> (r: PatchedFile)
        ensures
            r@ == (FileView {
                source_file: source_file@,
                source_timestamp: None,
                target_file: target_file@,
                target_timestamp: None,
                hunks: hunk_views(hunks@),
            }),
    {
        PatchedFile {
            source_file: source_file.to_owned(),
            source_timestamp: None,
            target_file: target_file.to_owned(),
            target_timestamp: None,
            hunks,
        }
    }

    /// The path of the file, without its `a/` or `b/` prefix.
    pub fn path(&self) -> (r: String)
        ensures
            r@ == self@.path(),
    {
        let s = chars_of(self.source_file.as_str());
        let t = chars_of(self.target_file.as_str());
        let s_a = matches_at(&s, 0, &['a', '/']);
        let t_b = matches_at(&t, 0, &['b', '/']);
        if s_a && (t_b || is_dev_null(&t)) {
            return string_from(&s, 2, s.len());
        }
        if t_b && is_dev_null(&s) {
            return string_from(&t, 2, t.len());
        }
        self.source_file.clone()
    }

    /// Number of added lines over all hunks.
    pub fn added(&self) -> (r: usize)
        requires
            sum_added(self@.hunks) <= usize::MAX,
        ensures
            r == sum_added(self@.hunks),
    {
        let mut total: usize = 0;
        let mut i: usize = 0;
        while i < self.hunks.len()
            invariant
                i <= self.hunks@.len(),
                sum_added(hunk_views(self.hunks@)) <= usize::MAX,
                total == sum_added(hunk_views(self.hunks@).subrange(0, i as int)),
            decreases self.hunks.len() - i,
        {
            proof {
                lemma_sum_added_prefix(hunk_views(self.hunks@), i + 1);
                assert(hunk_views(self.hunks@)[i as int] == self.hunks@[i as int]@);
            }
            total = total + self.hunks[i].added();
            i = i + 1;
        }
        assert(hunk_views(self.hunks@).subrange(0, i as int) =~= hunk_views(self.hunks@));
        total
    }

    /// Number of removed lines over all hunks.
    pub fn removed(&self) -> (r: usize)
        requires
            sum_removed(self@.hunks) <= usize::MAX,
        ensures
            r == sum_removed(self@.hunks),
    {
        let mut total: usize = 0;
        let mut i: usize = 0;
        while i < self.hunks.len()
            invariant
                i <= self.hunks@.len(),
                sum_removed(hunk_views(self.hunks@)) <= usize::MAX,
                total == sum_removed(hunk_views(self.hunks@).subrange(0, i as int)),
            decreases self.hunks.len() - i,
        {
            proof {
                lemma_sum_removed_prefix(hunk_views(self.hunks@), i + 1);
                assert(hunk_views(self.hunks@)[i as int] == self.hunks@[i as int]@);
            }
            total = total + self.hunks[i].removed();
            i = i + 1;
        }
        assert(hunk_views(self.hunks@).subrange(0, i as int) =~= hunk_views(self.hunks@));
        total
    }

    /// Whether the file is new: one hunk, empty on the source side at 0.
    pub fn is_added_file(&self) -> (r: bool)
        ensures
            r == self@.is_added_file(),
    {
        proof {
            if self.hunks@.len() > 0 {
                assert(self@.hunks[0] == self.hunks@[0]@);
            }
        }
        self.hunks.len() == 1 && self.hunks[0].source_start == 0 && self.hunks[0].source_length
            == 0
    }

    /// Whether the file is deleted: one hunk, empty on the target side at 0.
    pub fn is_removed_file(&self) -> (r: bool)
        ensures
            r == self@.is_removed_file(),
    {
        proof {
            if self.hunks@.len() > 0 {
                assert(self@.hunks[0] == self.hunks@[0]@);
            }
        }
        self.hunks.len() == 1 && self.hunks[0].target_start == 0 && self.hunks[0].target_length
            == 0
    }

    /// Whether the file is changed in place.
    pub fn is_modified_file(&self) -> (r: bool)
        ensures
            r == self@.is_modified_file(),
    {
        (!self.is_added_file() && !self.is_removed_file()) && (self.hunks.len() > 0
            || !self.is_renamed_file())
    }

    /// Whether the file is moved to another path.
    pub fn is_renamed_file(&self) -> (r: bool)
        ensures
            r == self@.is_renamed_file(),
    {
        let s = chars_of(self.source_file.as_str());
        let t = chars_of(self.target_file.as_str());
        let i = skip_prefixes(&s, &['a', '/']);
        let j = skip_prefixes(&t, &['b', '/']);
        !tail_eq(&s, i, &t, j) && !is_dev_null(&s) && !is_dev_null(&t)
    }

    /// Reads the hunk whose header is `header` from the lines of `ls` that
    /// follow index `start`, and appends it.
    pub(crate) fn parse_hunk(&mut self, header: &Vec<char>, ls: &Vec<Vec<char>>, start: usize) -> (r:
        Result<(), Error>)
        requires
            hunk_header(header@) is Some,
            start <= ls@.len(),
        ensures
            match parsed_hunk(hunk_header(header@)->0, views(ls@), start as int) {
                Ok(h) => r is Ok && final(self)@ == (FileView {
                    hunks: old(self)@.hunks.push(h),
                    ..old(self)@
                }),
                Err(l) => r matches Err(e) && e@ == crate::line::ErrorView::ExpectLine(l)
                    && final(self)@ == old(self)@,
            },
    {
        let ghost g = hunk_header(header@)->0;
        let (ss, sl, ts, tl, sec) = match match_hunk_header(header) {
            Some(x) => x,
            None => {
                assert(false);
                return Ok(());
            },
        };
        let mut hunk = Hunk::new(ss, sl, ts, tl, sec.as_str());
        let ghost e0 = empty_hunk(ss, sl, ts, tl, sec@);
        let ghost lsv = views(ls@);
        let mut src: usize = ss;
        let mut tgt: usize = ts;
        let mut j: usize = start;
        proof {
            assert(hunk@.lines =~= seq![]);
            assert(after(seq![], hunk_body(lsv, j as int, src as int, tgt as int, ss + sl, ts + tl)) == hunk_body(lsv, j as int, src as int, tgt as int, ss + sl, ts + tl)) by {
                match hunk_body(lsv, j as int, src as int, tgt as int, ss + sl, ts + tl) {
                    Ok(b) => { assert(seq![] + b =~= b); },
                    Err(_) => {},
                }
            }
        }
        while j < ls.len()
            invariant_except_break
                start <= j <= ls@.len(),
                lsv == views(ls@),
                *self == *old(self),
                g == hunk_header(header@)->0,
                g.source_start == ss && g.target_start == ts && g.source_length == sl
                    && g.target_length == tl,
                ss <= src,
                ts <= tgt,
                hunk@.wf(),
                hunk@ == append_all(e0, hunk@.lines),
                hunk_body(lsv, start as int, ss as int, ts as int, ss + sl, ts + tl) == after(
                    hunk@.lines,
                    hunk_body(lsv, j as int, src as int, tgt as int, ss + sl, ts + tl),
                ),
            ensures
                hunk@.wf(),
                hunk@ == append_all(e0, hunk@.lines),
                hunk_body(lsv, start as int, ss as int, ts as int, ss + sl, ts + tl) == Ok::<
                    Seq<LineView>,
                    Seq<char>,
                >(hunk@.lines),
            decreases ls.len() - j,
        {
            let raw = &ls[j];
            assert(lsv[j as int] == raw@);
            let (ty, value) = match match_body_line(raw) {
                Some(x) => x,
                None => {
                    let text = string_from(raw, 0, raw.len());
                    assert(text@ =~= raw@);
                    return Err(Error::ExpectLine(text));
                },
            };
            let line = Line {
                source_line_no: None,
                target_line_no: None,
                diff_line_no: j,
                line_type: ty,
                value,
            };
            let s = line.is_removed() || line.is_context();
            let t = line.is_added() || line.is_context();
            let ghost rest = hunk_body(lsv, j as int, src as int, tgt as int, ss + sl, ts + tl);
            if (s && src == usize::MAX) || (t && tgt == usize::MAX) {
                assert(rest == Err::<Seq<LineView>, Seq<char>>(lsv[j as int]));
                let text = string_from(raw, 0, raw.len());
                assert(text@ =~= raw@);
                return Err(Error::ExpectLine(text));
            }
            let ghost lines0 = hunk@.lines;
            let mut line = line;
            if s {
                line.source_line_no = Some(src);
                src = src + 1;
            }
            if t {
                line.target_line_no = Some(tgt);
                tgt = tgt + 1;
            }
            let ghost lv = line@;
            hunk.append(line);
            assert(hunk@.lines == lines0.push(lv));
            assert(hunk@.lines.drop_last() == lines0);
            j = j + 1;
            if src - ss >= sl && tgt - ts >= tl {
                assert(rest == Ok::<Seq<LineView>, Seq<char>>(seq![lv]));
                assert(lines0 + seq![lv] =~= hunk@.lines);
                break;
            }
            proof {
                let next = hunk_body(lsv, j as int, src as int, tgt as int, ss + sl, ts + tl);
                assert(rest == after(seq![lv], next));
                match next {
                    Ok(b) => {
                        assert(lines0 + (seq![lv] + b) =~= hunk@.lines + b);
                    },
                    Err(_) => {},
                }
            }
        }
        proof {
            if j >= ls.len() {
                assert(hunk@.lines + seq![] =~= hunk@.lines);
            }
        }
        self.hunks.push(hunk);
        proof {
            lemma_hunk_views_push(old(self).hunks@, hunk);
        }
        Ok(())
    }

    /// The file as it stands in a diff: its `---` and `+++` lines, then its
    /// hunks.
    pub fn to_string(&self) -> (r: String)
        ensures
            r@ == self@.text(),
    {
        let mut r = String::from_str("--- ");
        r.append(self.source_file.as_str());
        r.append("\n");
        r.append("+++ ");
        r.append(self.target_file.as_str());
        r.append("\n");
        let ghost head = r@;
        let ghost texts = self@.hunks.map_values(|h: HunkView| h.text());
        let mut i: usize = 0;
        while i < self.hunks.len()
            invariant
                i <= self.hunks@.len(),
                texts == hunk_views(self.hunks@).map_values(|h: HunkView| h.text()),
                r@ == head + join(texts.subrange(0, i as int), "\n"@),
            decreases self.hunks.len() - i,
        {
            if i > 0 {
                r.append("\n");
            }
            let t = self.hunks[i].to_string();
            r.append(t.as_str());
            proof {
                assert(texts.subrange(0, i + 1) =~= texts.subrange(0, i as int).push(texts[i as int]));
                lemma_join_push(texts.subrange(0, i as int), "\n"@, texts[i as int]);
            }
            i = i + 1;
        }
        assert(texts.subrange(0, i as int) =~= texts);
        r
    }

    /// Number of hunks.
    pub fn len(&self) -> (r: usize)
        ensures
            r == self@.hunks.len(),
    {
        self.hunks.len()
    }

    /// Whether the file has no hunks.
    pub fn is_empty(&self) -> (r: bool)
        ensures
            r == (self@.hunks.len() == 0),
    {
        self.hunks.len() == 0
    }

    /// The hunks, in order.
    pub fn hunks(&self) -> (r: &[Hunk])
        ensures
            hunk_views(r@) == self@.hunks,
    {
        self.hunks.as_slice()
    }

    /// The hunks, for changing in place.
    pub fn hunks_mut(&mut self) -> (r: &mut [Hunk])
        ensures
            hunk_views(r@) == old(self)@.hunks,
            final(self)@ == (FileView { hunks: hunk_views(final(r)@), ..old(self)@ }),
    {
        self.hunks.as_mut_slice()
    }
}

proof fn lemma_sum_added_prefix(hs: Seq<HunkView>, k: int)
    requires
        0 < k <= hs.len(),
        sum_added(hs) <= usize::MAX,
    ensures
        sum_added(hs.subrange(0, k)) == sum_added(hs.subrange(0, k - 1)) + hs[k - 1].added,
        sum_added(hs.subrange(0, k)) <= usize::MAX,
    decreases hs.len() - k,
{
    assert(hs.subrange(0, k).drop_last() =~= hs.subrange(0, k - 1));
    if k < hs.len() {
        lemma_sum_added_prefix(hs, k + 1);
    } else {
        assert(hs.subrange(0, k) =~= hs);
    }
}

proof fn lemma_sum_removed_prefix(hs: Seq<HunkView>, k: int)
    requires
        0 < k <= hs.len(),
        sum_removed(hs) <= usize::MAX,
    ensures
        sum_removed(hs.subrange(0, k)) == sum_removed(hs.subrange(0, k - 1)) + hs[k - 1].removed,
        sum_removed(hs.subrange(0, k)) <= usize::MAX,
    decreases hs.len() - k,
{
    assert(hs.subrange(0, k).drop_last() =~= hs.subrange(0, k - 1));
    if k < hs.len() {
        lemma_sum_removed_prefix(hs, k + 1);
    } else {
        assert(hs.subrange(0, k) =~= hs);
    }
}

} // verus!
