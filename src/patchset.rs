//! Patch sets: the files of a whole diff, and the reading of a diff text.
use vstd::prelude::*;
use encoding_rs::Encoding;
use crate::text::{chars_of, split_lines, lines_of, views, join, lemma_join_push, string_from};
use crate::grammar::{
    git_header, file_header, hunk_header, match_git_header, match_file_header, match_hunk_header,
};
use crate::line::{Error, ErrorView};
use crate::file::{PatchedFile, FileView, parsed_hunk, opt_view};
use crate::laws::{file_sound, lemma_parse_sound};

verus! {

/// `encoding_rs::Encoding`, carried through as an opaque value.
#[verifier::external_type_specification]
#[verifier::external_body]
pub struct ExEncoding(Encoding);

/// The encoding that a label of the Encoding Standard names, if any, as
/// `encoding_rs::Encoding::for_label` finds it.
pub uninterp spec fn encoding_of_label(label: Seq<char>) -> Option<&'static Encoding>;

/// The text that `encoding_rs::Encoding::decode` gives for the bytes in the
/// encoding.
pub uninterp spec fn decoded_of(encoding: &'static Encoding, bytes: Seq<u8>) -> Seq<char>;

/// Relies on `encoding_rs::UTF_8`, the encoding that the label `utf-8` names
/// (as the documentation of `Encoding::for_label` shows).
#[verifier::external_body]
fn utf_8() -> (r: &'static Encoding)
    ensures
        encoding_of_label("utf-8"@) == Some(r),
{
    encoding_rs::UTF_8
}

/// Relies on `encoding_rs::Encoding::for_label`: the encoding that a label of
/// the Encoding Standard names, if any; it depends on the label alone.
#[verifier::external_body]
fn encoding_for_label(label: &str) -> (r: Option<&'static Encoding>)
    ensures
        r == encoding_of_label(label@),
{
    Encoding::for_label(label.as_bytes())
}

/// Relies on `encoding_rs::Encoding::decode`: the text that the bytes encode,
/// after BOM sniffing, with malformed sequences replaced; it depends on the
/// encoding and the bytes alone. Its buffer size computation overflows on
/// inputs near `usize::MAX` bytes, where it panics.
#[verifier::external_body]
fn decode(encoding: &'static Encoding, input: &[u8]) -> (r: String)
    requires
        input@.len() <= usize::MAX / 8,
    ensures
        r@ == decoded_of(encoding, input@),
{
    encoding.decode(input).0.into_owned()
}

/// A whole diff: its files, in order, and the encoding that bytes are read in.
#[derive(Debug)]
pub struct PatchSet {
    pub(crate) files: Vec<PatchedFile>,
    encoding: &'static Encoding,
}

/// The views of a sequence of files.
pub open spec fn file_views(v: Seq<PatchedFile>) -> Seq<FileView> {
    v.map_values(|f: PatchedFile| f@)
}

pub proof fn lemma_file_views_push(v: Seq<PatchedFile>, x: PatchedFile)
    ensures
        file_views(v.push(x)) == file_views(v).push(x@),
{
    assert(file_views(v.push(x)) =~= file_views(v).push(x@));
}

impl View for PatchSet {
    type V = Seq<FileView>;

    closed spec fn view(&self) -> Seq<FileView> {
        file_views(self.files@)
    }
}

/// What the reader knows between two lines of the text.
pub struct ParseState {
    /// The files completed so far.
    pub files: Seq<FileView>,
    /// The file being read, once its paths are known.
    pub current: Option<FileView>,
    /// Whether the file being read was opened by a `diff --git` line.
    pub git: bool,
    /// The path of the last `---` line.
    pub source_file: Option<Seq<char>>,
    /// The timestamp of the last `---` line (empty when it has none).
    pub source_timestamp: Option<Seq<char>>,
}

pub open spec fn or_empty(t: Option<Seq<char>>) -> Seq<char> {
    match t {
        Some(t) => t,
        None => seq![],
    }
}

/// Closes the file being read, if any, and forgets the `---` line and the
/// `diff --git` line.
pub open spec fn flush(st: ParseState) -> ParseState {
    match st.current {
        Some(f) => ParseState {
            files: st.files.push(f),
            current: None,
            git: false,
            source_file: None,
            source_timestamp: None,
        },
        None => st,
    }
}

/// What line `i` of `ls` does to the state.
pub open spec fn step(st: ParseState, ls: Seq<Seq<char>>, i: int) -> Result<ParseState, ErrorView> {
    let l = ls[i];
    if git_header(l) is Some {
        let (s, t) = git_header(l)->0;
        Ok(
            ParseState {
                current: Some(
                    FileView {
                        source_file: s,
                        source_timestamp: None,
                        target_file: t,
                        target_timestamp: None,
                        hunks: seq![],
                    },
                ),
                git: true,
                ..flush(st)
            },
        )
    } else if file_header(l, '-') is Some {
        let (name, ts) = file_header(l, '-')->0;
        let f = if st.git {
            st
        } else {
            flush(st)
        };
        Ok(ParseState { source_file: Some(name), source_timestamp: Some(or_empty(ts)), ..f })
    } else if file_header(l, '+') is Some {
        let (name, ts) = file_header(l, '+')->0;
        if st.source_file is None || (!st.git && st.current is Some) {
            Err(ErrorView::TargetWithoutSource(l))
        } else {
            Ok(
                ParseState {
                    current: Some(
                        FileView {
                            source_file: st.source_file->0,
                            source_timestamp: st.source_timestamp,
                            target_file: name,
                            target_timestamp: Some(or_empty(ts)),
                            hunks: seq![],
                        },
                    ),
                    ..st
                },
            )
        }
    } else if hunk_header(l) is Some {
        match st.current {
            None => Err(ErrorView::UnexpectedHunk(l)),
            Some(f) => match parsed_hunk(hunk_header(l)->0, ls, i + 1) {
                Ok(h) => Ok(
                    ParseState { current: Some(FileView { hunks: f.hunks.push(h), ..f }), ..st },
                ),
                Err(bad) => Err(ErrorView::ExpectLine(bad)),
            },
        }
    } else {
        Ok(st)
    }
}

/// The files and the outcome of reading `ls` from line `i` in state `st`: on an
/// error, the files completed before the offending line.
pub open spec fn run(st: ParseState, ls: Seq<Seq<char>>, i: int) -> (
    Seq<FileView>,
    Result<(), ErrorView>,
)
    decreases ls.len() - i,
{
    if i < 0 || i >= ls.len() {
        (flush(st).files, Ok(()))
    } else {
        match step(st, ls, i) {
            Ok(next) => run(next, ls, i + 1),
            Err(e) => (st.files, Err(e)),
        }
    }
}

/// The state before the first line, with `files` already read.
pub open spec fn start_state(files: Seq<FileView>) -> ParseState {
    ParseState {
        files,
        current: None,
        git: false,
        source_file: None,
        source_timestamp: None,
    }
}

/// The files after `text` is read on top of `files`, and the outcome.
pub open spec fn parse_text(files: Seq<FileView>, text: Seq<char>) -> (
    Seq<FileView>,
    Result<(), ErrorView>,
) {
    run(start_state(files), lines_of(text), 0)
}

pub open spec fn opt_file_view(o: Option<PatchedFile>) -> Option<FileView> {
    match o {
        Some(f) => Some(f@),
        None => None,
    }
}

/// The reader's state, from the values it keeps.
pub open spec fn state_of(
    files: Seq<FileView>,
    current: Option<PatchedFile>,
    git: bool,
    source_file: Option<String>,
    source_timestamp: Option<String>,
) -> ParseState {
    ParseState {
        files,
        current: opt_file_view(current),
        git,
        source_file: opt_view(source_file),
        source_timestamp: opt_view(source_timestamp),
    }
}

/// The files, each starting on a new line.
pub open spec fn patch_text(fs: Seq<FileView>) -> Seq<char> {
    join(fs.map_values(|f: FileView| f.text()), "\n"@)
}

/// The files of `fs` that meet `p`, in order.
pub open spec fn select(fs: Seq<FileView>, p: spec_fn(FileView) -> bool) -> Seq<FileView>
    decreases fs.len(),
{
    if fs.len() == 0 {
        seq![]
    } else if p(fs.last()) {
        select(fs.drop_last(), p).push(fs.last())
    } else {
        select(fs.drop_last(), p)
    }
}

/// The files of `fs` that are added.
pub open spec fn added_of(fs: Seq<FileView>) -> Seq<FileView> {
    select(fs, |f: FileView| f.is_added_file())
}

/// The files of `fs` that are removed.
pub open spec fn removed_of(fs: Seq<FileView>) -> Seq<FileView> {
    select(fs, |f: FileView| f.is_removed_file())
}

/// The files of `fs` that are modified.
pub open spec fn modified_of(fs: Seq<FileView>) -> Seq<FileView> {
    select(fs, |f: FileView| f.is_modified_file())
}

impl Clone for PatchSet {
    fn clone(&self) -> (r: Self)
        ensures
            r@ == self@,
    {
        let mut files: Vec<PatchedFile> = Vec::new();
        let mut i: usize = 0;
        while i < self.files.len()
            invariant
                i <= self.files@.len(),
                file_views(files@) == file_views(self.files@.subrange(0, i as int)),
            decreases self.files.len() - i,
        {
            let f = self.files[i].clone();
            proof {
                assert(self.files@.subrange(0, i + 1) =~= self.files@.subrange(0, i as int).push(
                    self.files@[i as int],
                ));
                lemma_file_views_push(self.files@.subrange(0, i as int), self.files@[i as int]);
                lemma_file_views_push(files@, f);
            }
            files.push(f);
            i = i + 1;
        }
        assert(self.files@.subrange(0, i as int) =~= self.files@);
        PatchSet { files, encoding: self.encoding }
    }
}

impl Default for PatchSet {
    fn default() -> (r: Self)
        ensures
            r@ == Seq::<FileView>::empty(),
    {
        PatchSet::new()
    }
}

impl std::str::FromStr for PatchSet {
    type Err = Error;

    fn from_str(s: &str) -> Result<PatchSet, Error> {
        PatchSet::from_text(s)
    }
}

impl PatchSet {
    /// Copies of the files that are added (`kind` 0), removed (1) or
    /// modified (2), in order.
    fn files_where(&self, kind: u8) -> (r: Vec<PatchedFile>)
        requires
            kind <= 2,
        ensures
            file_views(r@) == if kind == 0 {
                added_of(self@)
            } else if kind == 1 {
                removed_of(self@)
            } else {
                modified_of(self@)
            },
    {
        let ghost p = if kind == 0 {
            |f: FileView| f.is_added_file()
        } else if kind == 1 {
            |f: FileView| f.is_removed_file()
        } else {
            |f: FileView| f.is_modified_file()
        };
        let mut r: Vec<PatchedFile> = Vec::new();
        let mut i: usize = 0;
        while i < self.files.len()
            invariant
                i <= self.files@.len(),
                kind <= 2,
                p == if kind == 0 {
                    |f: FileView| f.is_added_file()
                } else if kind == 1 {
                    |f: FileView| f.is_removed_file()
                } else {
                    |f: FileView| f.is_modified_file()
                },
                file_views(r@) == select(file_views(self.files@).subrange(0, i as int), p),
            decreases self.files.len() - i,
        {
            let f = &self.files[i];
            let keep = if kind == 0 {
                f.is_added_file()
            } else if kind == 1 {
                f.is_removed_file()
            } else {
                f.is_modified_file()
            };
            proof {
                assert(file_views(self.files@).subrange(0, i + 1).drop_last() =~= file_views(
                    self.files@,
                ).subrange(0, i as int));
                assert(file_views(self.files@)[i as int] == f@);
            }
            if keep {
                let c = f.clone();
                proof {
                    lemma_file_views_push(r@, c);
                }
                r.push(c);
            }
            i = i + 1;
        }
        assert(file_views(self.files@).subrange(0, i as int) =~= file_views(self.files@));
        r
    }

    /// The files that are added, in order.
    pub fn added_files(&self) -> (r: Vec<PatchedFile>)
        ensures
            file_views(r@) == added_of(self@),
    {
        self.files_where(0)
    }

    /// The files that are removed, in order.
    pub fn removed_files(&self) -> (r: Vec<PatchedFile>)
        ensures
            file_views(r@) == removed_of(self@),
    {
        self.files_where(1)
    }

    /// The files that are modified, in order.
    pub fn modified_files(&self) -> (r: Vec<PatchedFile>)
        ensures
            file_views(r@) == modified_of(self@),
    {
        self.files_where(2)
    }

    /// An empty patch set that reads bytes as UTF-8.
    pub fn new() -> (r: PatchSet)
        ensures
            r@ == Seq::<FileView>::empty(),
            encoding_of_label("utf-8"@) == Some(r.encoding()),
    {
        let r = PatchSet { files: Vec::new(), encoding: utf_8() };
        assert(file_views(r.files@) =~= Seq::<FileView>::empty());
        r
    }

    /// An empty patch set that reads bytes in `coding`.
    pub fn with_encoding(coding: &'static Encoding) -> (r: PatchSet)
        ensures
            r@ == Seq::<FileView>::empty(),
            r.encoding() == coding,
    {
        let r = PatchSet { files: Vec::new(), encoding: coding };
        assert(file_views(r.files@) =~= Seq::<FileView>::empty());
        r
    }

    /// An empty patch set that reads bytes in the encoding that the label
    /// `coding` names, or in UTF-8 when it names none.
    pub fn from_encoding(coding: &str) -> (r: PatchSet)
        ensures
            r@ == Seq::<FileView>::empty(),
            encoding_of_label(coding@) matches Some(e) ==> r.encoding() == e,
            encoding_of_label(coding@) is None ==> encoding_of_label("utf-8"@) == Some(
                r.encoding(),
            ),
    {
        let encoding = match encoding_for_label(coding) {
            Some(e) => e,
            None => utf_8(),
        };
        PatchSet::with_encoding(encoding)
    }

    /// The encoding that bytes are read in.
    pub closed spec fn encoding(&self) -> &'static Encoding {
        self.encoding
    }

    /// Decodes the bytes in the patch set's encoding, then reads the text as
    /// `parse` does.
    pub fn parse_bytes(&mut self, input: &[u8]) -> (r: Result<(), Error>)
        requires
            input@.len() <= usize::MAX / 8,
        ensures
            final(self)@ == parse_text(old(self)@, decoded_of(old(self).encoding(), input@)).0,
            match parse_text(old(self)@, decoded_of(old(self).encoding(), input@)).1 {
                Ok(()) => r is Ok,
                Err(e) => r matches Err(x) && x@ == e,
            },
            final(self).encoding() == old(self).encoding(),
    {
        let text = decode(self.encoding, input);
        self.parse(text.as_str())
    }

    /// Reads a diff text into a new patch set.
    pub fn from_text(s: &str) -> (r: Result<PatchSet, Error>)
        ensures
            match parse_text(seq![], s@) {
                (files, Ok(())) => r matches Ok(p) && p@ == files,
                (_, Err(e)) => r matches Err(x) && x@ == e,
            },
    {
        let mut p = PatchSet::new();
        match p.parse(s) {
            Ok(()) => Ok(p),
            Err(e) => Err(e),
        }
    }

    /// The patch set as a unified diff: its files, each starting on a new line.
    pub fn to_string(&self) -> (r: String)
        ensures
            r@ == patch_text(self@),
    {
        let mut r = String::new();
        let ghost texts = self@.map_values(|f: FileView| f.text());
        let mut i: usize = 0;
        while i < self.files.len()
            invariant
                i <= self.files@.len(),
                texts == file_views(self.files@).map_values(|f: FileView| f.text()),
                r@ == join(texts.subrange(0, i as int), "\n"@),
            decreases self.files.len() - i,
        {
            if i > 0 {
                r.append("\n");
            }
            let t = self.files[i].to_string();
            r.append(t.as_str());
            proof {
                assert(texts.subrange(0, i + 1) =~= texts.subrange(0, i as int).push(texts[i as int]));
                lemma_join_push(texts.subrange(0, i as int), "\n"@, texts[i as int]);
            }
            i = i + 1;
        }
        assert(texts.subrange(0, i as int) =~= texts);
        r
    }

    /// Number of files.
    pub fn len(&self) -> (r: usize)
        ensures
            r == self@.len(),
    {
        self.files.len()
    }

    /// Whether there are no files.
    pub fn is_empty(&self) -> (r: bool)
        ensures
            r == (self@.len() == 0),
    {
        self.files.len() == 0
    }

    /// The files, in order.
    pub fn files(&self) -> (r: &[PatchedFile])
        ensures
            file_views(r@) == self@,
    {
        self.files.as_slice()
    }

    /// The files, for changing in place.
    pub fn files_mut(&mut self) -> (r: &mut [PatchedFile])
        ensures
            file_views(r@) == old(self)@,
            final(self)@ == file_views(final(r)@),
    {
        self.files.as_mut_slice()
    }
}

impl PatchSet {
    /// Adds `current`, if it holds a file, to the files.
    fn flush(&mut self, current: Option<PatchedFile>) -> (flushed: bool)
        ensures
            flushed == current is Some,
            final(self)@ == match current {
                Some(f) => old(self)@.push(f@),
                None => old(self)@,
            },
            final(self).encoding == old(self).encoding,
    {
        match current {
            Some(f) => {
                proof {
                    lemma_file_views_push(self.files@, f);
                }
                self.files.push(f);
                true
            },
            None => false,
        }
    }

    /// Reads a diff text and appends its files. On an error, the files
    /// completed before the offending line have been appended. The files
    /// already there stay, and every file added is sound: each line carries
    /// the line numbers of its kind, and each hunk's counters count its lines,
    /// so a hunk is valid exactly when as many of its lines carry a source
    /// (target) number as it declares on the source (target) side.
    pub fn parse(&mut self, input: &str) -> (r: Result<(), Error>)
        ensures
            final(self)@ == parse_text(old(self)@, input@).0,
            match parse_text(old(self)@, input@).1 {
                Ok(()) => r is Ok,
                Err(e) => r matches Err(x) && x@ == e,
            },
            final(self).encoding() == old(self).encoding(),
            final(self)@.len() >= old(self)@.len(),
            final(self)@.subrange(0, old(self)@.len() as int) == old(self)@,
            forall|k: int|
                old(self)@.len() <= k < final(self)@.len() ==> file_sound(
                    #[trigger] final(self)@[k],
                ),
    {
        let chars = chars_of(input);
        let _len = chars.len();
        proof {
            lemma_parse_sound(self@, input@);
        }
        self.read_text(&chars)
    }

    /// Reads the characters of a diff text and appends its files, as `parse`
    /// describes.
    fn read_text(&mut self, chars: &Vec<char>) -> (r: Result<(), Error>)
        ensures
            final(self)@ == parse_text(old(self)@, chars@).0,
            match parse_text(old(self)@, chars@).1 {
                Ok(()) => r is Ok,
                Err(e) => r matches Err(x) && x@ == e,
            },
            final(self).encoding() == old(self).encoding(),
    {
        let ls = split_lines(chars);
        let ghost lsv = views(ls@);
        let mut current: Option<PatchedFile> = None;
        let mut git = false;
        let mut source_file: Option<String> = None;
        let mut source_timestamp: Option<String> = None;
        let mut i: usize = 0;
        while i < ls.len()
            invariant
                lsv == views(ls@),
                lsv == lines_of(chars@),
                i <= ls@.len(),
                self.encoding == old(self).encoding,
                run(state_of(self@, current, git, source_file, source_timestamp), lsv, i as int)
                    == parse_text(old(self)@, chars@),
            decreases ls.len() - i,
        {
            let l = &ls[i];
            assert(lsv[i as int] == l@);
            let ghost st = state_of(self@, current, git, source_file, source_timestamp);
            match match_git_header(l) {
                Some((s, t)) => {
                    let flushed = self.flush(current);
                    if flushed {
                        source_file = None;
                        source_timestamp = None;
                    }
                    current = Some(PatchedFile::from_header(s, None, t, None));
                    git = true;
                },
                None => match match_file_header(l, '-') {
                    Some((name, ts)) => {
                        if !git {
                            let flushed = self.flush(current);
                            current = None;
                            if flushed {
                                git = false;
                                source_file = None;
                                source_timestamp = None;
                            }
                        }
                        source_file = Some(name);
                        source_timestamp = match ts {
                            Some(t) => Some(t),
                            None => Some(String::new()),
                        };
                    },
                    None => match match_file_header(l, '+') {
                        Some((name, ts)) => {
                            if source_file.is_none() || (!git && current.is_some()) {
                                let text = string_from(l, 0, l.len());
                                assert(text@ =~= l@);
                                return Err(Error::TargetWithoutSource(text));
                            }
                            let src = match &source_file {
                                Some(s) => s.clone(),
                                None => String::new(),
                            };
                            let src_ts = match &source_timestamp {
                                Some(t) => Some(t.clone()),
                                None => None,
                            };
                            let tgt_ts = match ts {
                                Some(t) => Some(t),
                                None => Some(String::new()),
                            };
                            current = Some(PatchedFile::from_header(src, src_ts, name, tgt_ts));
                        },
                        None => {
                            if match_hunk_header(l).is_some() {
                                match current {
                                    None => {
                                        let text = string_from(l, 0, l.len());
                                        assert(text@ =~= l@);
                                        return Err(Error::UnexpectedHunk(text));
                                    },
                                    Some(f) => {
                                        let mut f = f;
                                        match f.parse_hunk(l, &ls, i + 1) {
                                            Ok(()) => {
                                                current = Some(f);
                                            },
                                            Err(e) => {
                                                return Err(e);
                                            },
                                        }
                                    },
                                }
                            }
                        },
                    },
                },
            }
            assert(step(st, lsv, i as int) == Ok::<ParseState, ErrorView>(
                state_of(self@, current, git, source_file, source_timestamp),
            ));
            i = i + 1;
        }
        self.flush(current);
        Ok(())
    }
}

} // verus!
