//! Hunks: the blocks of change within a file.
use vstd::prelude::*;
use crate::text::{decimal, join, push_decimal, lemma_join_push};
use crate::line::{
    Line, LineView, added_type, removed_type, on_source_side, on_target_side, lemma_types_distinct,
};

verus! {

/// One block of change within a file, with its declared geometry.
#[derive(Debug, PartialEq, Eq, Hash)]
pub struct Hunk {
    pub(crate) added: usize,
    pub(crate) removed: usize,
    /// First line of the block in the source file.
    pub source_start: usize,
    /// Number of lines of the block in the source file.
    pub source_length: usize,
    /// First line of the block in the target file.
    pub target_start: usize,
    /// Number of lines of the block in the target file.
    pub target_length: usize,
    /// The text after the header's closing `@@`.
    pub section_header: String,
    pub(crate) lines: Vec<Line>,
    pub(crate) source_count: usize,
    pub(crate) target_count: usize,
}

pub struct HunkView {
    pub added: usize,
    pub removed: usize,
    pub source_start: usize,
    pub source_length: usize,
    pub target_start: usize,
    pub target_length: usize,
    pub section_header: Seq<char>,
    pub lines: Seq<LineView>,
    /// How many appended lines stand in the source file.
    pub source_count: usize,
    /// How many appended lines stand in the target file.
    pub target_count: usize,
}

/// The views of a sequence of lines.
pub open spec fn line_views(v: Seq<Line>) -> Seq<LineView> {
    v.map_values(|l: Line| l@)
}

pub proof fn lemma_line_views_push(v: Seq<Line>, x: Line)
    ensures
        line_views(v.push(x)) == line_views(v).push(x@),
{
    assert(line_views(v.push(x)) =~= line_views(v).push(x@));
}

pub proof fn lemma_line_views_prefix(v: Seq<Line>, i: int)
    requires
        0 <= i < v.len(),
    ensures
        line_views(v.subrange(0, i + 1)) == line_views(v.subrange(0, i)).push(v[i]@),
{
    assert(v.subrange(0, i + 1) =~= v.subrange(0, i).push(v[i]));
    lemma_line_views_push(v.subrange(0, i), v[i]);
}

impl View for Hunk {
    type V = HunkView;

    closed spec fn view(&self) -> HunkView {
        HunkView {
            added: self.added,
            removed: self.removed,
            source_start: self.source_start,
            source_length: self.source_length,
            target_start: self.target_start,
            target_length: self.target_length,
            section_header: self.section_header@,
            lines: line_views(self.lines@),
            source_count: self.source_count,
            target_count: self.target_count,
        }
    }
}

/// The public fields of a hunk are those of its view.
pub(crate) broadcast proof fn lemma_hunk_view_fields(h: Hunk)
    ensures
        (#[trigger] h@).source_start == h.source_start,
        h@.source_length == h.source_length,
        h@.target_start == h.target_start,
        h@.target_length == h.target_length,
        h@.section_header == h.section_header@,
{
}

impl HunkView {
    /// No counter exceeds the number of lines.
    pub open spec fn wf(self) -> bool {
        &&& self.lines.len() <= usize::MAX
        &&& self.added <= self.lines.len()
        &&& self.removed <= self.lines.len()
        &&& self.source_count <= self.lines.len()
        &&& self.target_count <= self.lines.len()
    }

    /// The hunk after `l` is appended: the counters of its kind go up by one.
    pub open spec fn append(self, l: LineView) -> HunkView
        recommends
            self.wf(),
            self.lines.len() < usize::MAX,
    {
        HunkView {
            added: if l.line_type == added_type() {
                (self.added + 1) as usize
            } else {
                self.added
            },
            removed: if l.line_type == removed_type() {
                (self.removed + 1) as usize
            } else {
                self.removed
            },
            lines: self.lines.push(l),
            source_count: if on_source_side(l.line_type) {
                (self.source_count + 1) as usize
            } else {
                self.source_count
            },
            target_count: if on_target_side(l.line_type) {
                (self.target_count + 1) as usize
            } else {
                self.target_count
            },
            ..self
        }
    }

    /// The header line: `@@ -<start>,<length> +<start>,<length> @@ <section>`,
    /// with its line break.
    pub open spec fn header_text(self) -> Seq<char> {
        "@@ -"@ + decimal(self.source_start as nat) + ","@ + decimal(self.source_length as nat)
            + " +"@ + decimal(self.target_start as nat) + ","@ + decimal(
            self.target_length as nat,
        ) + " @@ "@ + self.section_header + "\n"@
    }

    /// The header line, then the lines, one per line.
    pub open spec fn text(self) -> Seq<char> {
        self.header_text() + join(self.lines.map_values(|l: LineView| l.text()), "\n"@)
    }

    /// The source side holds as many lines as declared, and so does the target.
    pub open spec fn is_valid(self) -> bool {
        self.source_count == self.source_length && self.target_count == self.target_length
    }
}

/// A hunk with the given geometry and no lines.
pub open spec fn empty_hunk(
    source_start: usize,
    source_length: usize,
    target_start: usize,
    target_length: usize,
    section_header: Seq<char>,
) -> HunkView {
    HunkView {
        added: 0,
        removed: 0,
        source_start,
        source_length,
        target_start,
        target_length,
        section_header,
        lines: seq![],
        source_count: 0,
        target_count: 0,
    }
}

/// `h` after each of `ls` is appended, in order.
pub open spec fn append_all(h: HunkView, ls: Seq<LineView>) -> HunkView
    decreases ls.len(),
{
    if ls.len() == 0 {
        h
    } else {
        append_all(h, ls.drop_last()).append(ls.last())
    }
}

/// The lines of `ls` that stand in the source file, in order.
pub open spec fn source_side(ls: Seq<LineView>) -> Seq<LineView>
    decreases ls.len(),
{
    if ls.len() == 0 {
        seq![]
    } else if on_source_side(ls.last().line_type) {
        source_side(ls.drop_last()).push(ls.last())
    } else {
        source_side(ls.drop_last())
    }
}

/// The lines of `ls` that stand in the target file, in order.
pub open spec fn target_side(ls: Seq<LineView>) -> Seq<LineView>
    decreases ls.len(),
{
    if ls.len() == 0 {
        seq![]
    } else if on_target_side(ls.last().line_type) {
        target_side(ls.drop_last()).push(ls.last())
    } else {
        target_side(ls.drop_last())
    }
}

impl Clone for Hunk {
    fn clone(&self) -> (r: Self)
        ensures
            r@ == self@,
    {
        let mut lines: Vec<Line> = Vec::new();
        let mut i: usize = 0;
        while i < self.lines.len()
            invariant
                i <= self.lines@.len(),
                line_views(lines@) == line_views(self.lines@.subrange(0, i as int)),
            decreases self.lines.len() - i,
        {
            let l = self.lines[i].clone();
            proof {
                lemma_line_views_prefix(self.lines@, i as int);
                lemma_line_views_push(lines@, l);
            }
            lines.push(l);
            i = i + 1;
        }
        assert(self.lines@.subrange(0, i as int) =~= self.lines@);
        Hunk {
            added: self.added,
            removed: self.removed,
            source_start: self.source_start,
            source_length: self.source_length,
            target_start: self.target_start,
            target_length: self.target_length,
            section_header: self.section_header.clone(),
            lines,
            source_count: self.source_count,
            target_count: self.target_count,
        }
    }
}

impl Hunk {
    /// An empty hunk with the given geometry.
    pub fn new(
        source_start: usize,
        source_length: usize,
        target_start: usize,
        target_length: usize,
        section_header: &str,
    ) -> (r: Hunk)
        ensures
            r@ == empty_hunk(
                source_start,
                source_length,
                target_start,
                target_length,
                section_header@,
            ),
            r@.wf(),
    {
        let r = Hunk {
            added: 0,
            removed: 0,
            source_start,
            source_length,
            target_start,
            target_length,
            section_header: section_header.to_owned(),
            lines: Vec::new(),
            source_count: 0,
            target_count: 0,
        };
        assert(line_views(r.lines@) =~= seq![]);
        r
    }

    /// Number of added lines.
    pub fn added(&self) -> (r: usize)
        ensures
            r == self@.added,
    {
        self.added
    }

    /// Number of removed lines.
    pub fn removed(&self) -> (r: usize)
        ensures
            r == self@.removed,
    {
        self.removed
    }

    /// Whether each side holds as many lines as the header declares.
    pub fn is_valid(&self) -> (r: bool)
        ensures
            r == self@.is_valid(),
    {
        self.source_count == self.source_length && self.target_count == self.target_length
    }

    /// The context and removed lines, in order.
    pub fn source_lines(&self) -> (r: Vec<Line>)
        ensures
            line_views(r@) == source_side(self@.lines),
    {
        let mut r: Vec<Line> = Vec::new();
        let mut i: usize = 0;
        while i < self.lines.len()
            invariant
                i <= self.lines@.len(),
                line_views(r@) == source_side(line_views(self.lines@.subrange(0, i as int))),
            decreases self.lines.len() - i,
        {
            let l = &self.lines[i];
            assert(line_views(self.lines@.subrange(0, i + 1)).drop_last() =~= line_views(
                self.lines@.subrange(0, i as int),
            ));
            if l.is_context() || l.is_removed() {
                r.push(l.clone());
                assert(line_views(r@) =~= source_side(
                    line_views(self.lines@.subrange(0, i + 1)),
                ));
            }
            i = i + 1;
        }
        assert(self.lines@.subrange(0, i as int) =~= self.lines@);
        r
    }

    /// The context and added lines, in order.
    pub fn target_lines(&self) -> (r: Vec<Line>)
        ensures
            line_views(r@) == target_side(self@.lines),
    {
        let mut r: Vec<Line> = Vec::new();
        let mut i: usize = 0;
        while i < self.lines.len()
            invariant
                i <= self.lines@.len(),
                line_views(r@) == target_side(line_views(self.lines@.subrange(0, i as int))),
            decreases self.lines.len() - i,
        {
            let l = &self.lines[i];
            assert(line_views(self.lines@.subrange(0, i + 1)).drop_last() =~= line_views(
                self.lines@.subrange(0, i as int),
            ));
            if l.is_context() || l.is_added() {
                r.push(l.clone());
                assert(line_views(r@) =~= target_side(
                    line_views(self.lines@.subrange(0, i + 1)),
                ));
            }
            i = i + 1;
        }
        assert(self.lines@.subrange(0, i as int) =~= self.lines@);
        r
    }

    /// Appends a line and counts it on its side or sides.
    pub fn append(&mut self, line: Line)
        requires
            old(self)@.wf(),
        ensures
            final(self)@ == old(self)@.append(line@),
            final(self)@.wf(),
    {
        let is_added = line.is_added();
        let is_removed = line.is_removed();
        let is_context = line.is_context();
        self.lines.push(line);
        // the new length bounds each counter
        let _len = self.lines.len();
        proof {
            lemma_types_distinct();
        }
        assert(line_views(self.lines@) =~= line_views(old(self).lines@).push(line@));
        if is_added {
            self.added = self.added + 1;
            self.target_count = self.target_count + 1;
        } else if is_removed {
            self.removed = self.removed + 1;
            self.source_count = self.source_count + 1;
        } else if is_context {
            self.source_count = self.source_count + 1;
            self.target_count = self.target_count + 1;
        }
    }

    /// The hunk as it stands in a diff: its header line, then its lines.
    pub fn to_string(&self) -> (r: String)
        ensures
            r@ == self@.text(),
    {
        let mut r = String::from_str("@@ -");
        push_decimal(&mut r, self.source_start);
        r.append(",");
        push_decimal(&mut r, self.source_length);
        r.append(" +");
        push_decimal(&mut r, self.target_start);
        r.append(",");
        push_decimal(&mut r, self.target_length);
        r.append(" @@ ");
        r.append(self.section_header.as_str());
        r.append("\n");
        let ghost head = r@;
        assert(head == self@.header_text());
        let ghost texts = self@.lines.map_values(|l: LineView| l.text());
        let mut i: usize = 0;
        while i < self.lines.len()
            invariant
                i <= self.lines@.len(),
                texts == line_views(self.lines@).map_values(|l: LineView| l.text()),
                r@ == head + join(texts.subrange(0, i as int), "\n"@),
            decreases self.lines.len() - i,
        {
            if i > 0 {
                r.append("\n");
            }
            let t = self.lines[i].to_string();
            r.append(t.as_str());
            proof {
                assert(texts.subrange(0, i + 1) =~= texts.subrange(0, i as int).push(texts[i as int]));
                lemma_join_push(texts.subrange(0, i as int), "\n"@, texts[i as int]);
            }
            i = i + 1;
        }
        assert(texts.subrange(0, i as int) =~= texts);
        r
    }

    /// Number of lines.
    pub fn len(&self) -> (r: usize)
        ensures
            r == self@.lines.len(),
    {
        self.lines.len()
    }

    /// Whether the hunk has no lines.
    pub fn is_empty(&self) -> (r: bool)
        ensures
            r == (self@.lines.len() == 0),
    {
        self.lines.len() == 0
    }

    /// The lines, in order.
    pub fn lines(&self) -> (r: &[Line])
        ensures
            line_views(r@) == self@.lines,
    {
        self.lines.as_slice()
    }

    /// The lines, for changing in place.
    pub fn lines_mut(&mut self) -> (r: &mut [Line])
        ensures
            line_views(r@) == old(self)@.lines,
            final(self)@ == (HunkView { lines: line_views(final(r)@), ..old(self)@ }),
    {
        self.lines.as_mut_slice()
    }
}

} // verus!
