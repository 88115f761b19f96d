use unidiff::{Error, Hunk, Line, PatchSet, PatchedFile};

#[test]
fn single_file_addition() {
    let mut patch = PatchSet::new();
    patch.parse("--- /dev/null\n+++ b/f\n@@ -0,0 +1,2 @@\n+one\n+two").unwrap();
    assert_eq!(1, patch.len());
    let file = &patch.files()[0];
    assert!(file.is_added_file());
    assert_eq!(2, file.added());
    assert_eq!(0, file.removed());
    assert_eq!("f", file.path());
}

#[test]
fn target_without_source() {
    let mut patch = PatchSet::new();
    match patch.parse("+++ b/f\n@@ -0,0 +1,1 @@\n+x") {
        Err(Error::TargetWithoutSource(l)) => assert_eq!("+++ b/f", l),
        other => panic!("unexpected outcome: {:?}", other),
    }
    assert_eq!(0, patch.len());
}

#[test]
fn second_target_in_classic_file() {
    let mut patch = PatchSet::new();
    let r = patch.parse("--- a/f\n+++ b/f\n+++ b/g\n");
    assert!(matches!(r, Err(Error::TargetWithoutSource(_))));
}

#[test]
fn unexpected_hunk() {
    let mut patch = PatchSet::new();
    match patch.parse("@@ -0,0 +1,1 @@\n+x") {
        Err(Error::UnexpectedHunk(l)) => assert_eq!("@@ -0,0 +1,1 @@", l),
        other => panic!("unexpected outcome: {:?}", other),
    }
}

#[test]
fn line_number_beyond_usize() {
    let text = format!("--- a/f\n+++ b/f\n@@ -{},2 +1,2 @@\n x\n y\n", usize::MAX);
    let mut patch = PatchSet::new();
    match patch.parse(&text) {
        Err(Error::ExpectLine(l)) => assert_eq!(" x", l),
        other => panic!("unexpected outcome: {:?}", other),
    }
}

#[test]
fn unmarked_body_line() {
    let mut patch = PatchSet::new();
    match patch.parse("--- a/f\n+++ b/f\n@@ -1,2 +1,2 @@\n x\nnoise") {
        Err(Error::ExpectLine(l)) => assert_eq!("noise", l),
        other => panic!("unexpected outcome: {:?}", other),
    }
    assert_eq!(0, patch.len());
}

#[test]
fn hunk_header_inside_body_is_context() {
    let mut patch = PatchSet::new();
    patch.parse("--- a/f\n+++ b/f\n@@ -1,2 +1,2 @@\n x\n@@ -5,1 +5,1 @@\n y\n").unwrap();
    let file = &patch.files()[0];
    assert_eq!(2, file.len());
    assert_eq!(" ", file.hunks()[0].lines()[1].line_type);
    assert_eq!("@@ -5,1 +5,1 @@", file.hunks()[0].lines()[1].value);
    assert_eq!(" y", file.hunks()[1].lines()[0].to_string());
}

#[test]
fn error_keeps_flushed_files() {
    let mut patch = PatchSet::new();
    let r = patch.parse("--- a/f\n+++ b/f\n@@ -1 +1 @@\n-a\n+b\n--- a/g\n+++ b/g\n+++ b/h\n");
    assert!(r.is_err());
    assert_eq!(1, patch.len());
    assert_eq!("f", patch.files()[0].path());
}

#[test]
fn error_descriptions() {
    let e = Error::UnexpectedHunk("@@ x".to_string());
    assert_eq!("Unexpected hunk found", e.description());
    assert_eq!("Unexpected hunk found: @@ x", e.to_string());
    assert_eq!("Target without source", Error::TargetWithoutSource(String::new()).description());
    assert_eq!("Hunk line expected", Error::ExpectLine(String::new()).description());
}

#[test]
fn parse_appends() {
    let mut patch = PatchSet::new();
    patch.parse("--- a/f\n+++ b/f\n@@ -1 +1 @@\n-a\n+b\n").unwrap();
    patch.parse("--- a/g\n+++ b/g\n@@ -1 +1 @@\n-a\n+b\n").unwrap();
    assert_eq!(2, patch.len());
    assert_eq!("g", patch.files()[1].path());
}

#[test]
fn omitted_lengths_default_to_one() {
    let mut patch = PatchSet::new();
    patch.parse("--- a/f\n+++ b/f\n@@ -3 +4 @@ ctx\n-a\n+b\n").unwrap();
    let hunk = &patch.files()[0].hunks()[0];
    assert_eq!((3, 1, 4, 1), (hunk.source_start, hunk.source_length, hunk.target_start, hunk.target_length));
    assert_eq!("ctx", hunk.section_header);
    assert!(hunk.is_valid());
}

#[test]
fn timestamps_and_paths() {
    let mut patch = PatchSet::new();
    patch.parse("--- a/x\t2020-01-01\n+++ b/x\n@@ -1 +1 @@\n-a\n+b\n").unwrap();
    let file = &patch.files()[0];
    assert_eq!("a/x", file.source_file);
    assert_eq!(Some("2020-01-01".to_string()), file.source_timestamp);
    assert_eq!(Some(String::new()), file.target_timestamp);
    assert_eq!("x", file.path());
}

#[test]
fn line_kinds_carry_numbers() {
    let mut patch = PatchSet::new();
    patch.parse("--- a/f\n+++ b/f\n@@ -10,2 +20,2 @@\n-a\n+b\n c\n").unwrap();
    let lines = patch.files()[0].hunks()[0].lines();
    assert!(lines[0].is_removed());
    assert_eq!((Some(10), None), (lines[0].source_line_no, lines[0].target_line_no));
    assert!(lines[1].is_added());
    assert_eq!((None, Some(20)), (lines[1].source_line_no, lines[1].target_line_no));
    assert!(lines[2].is_context());
    assert_eq!((Some(11), Some(21)), (lines[2].source_line_no, lines[2].target_line_no));
    assert_eq!(vec![3, 4, 5], lines.iter().map(|l| l.diff_line_no).collect::<Vec<_>>());
}

#[test]
fn blank_line_is_context() {
    let mut patch = PatchSet::new();
    patch.parse("--- a/f\n+++ b/f\n@@ -1,2 +1,2 @@\n\n x\n").unwrap();
    let hunk = &patch.files()[0].hunks()[0];
    assert_eq!(" ", hunk.lines()[0].line_type);
    assert_eq!("", hunk.lines()[0].value);
    assert!(hunk.is_valid());
}

#[test]
fn crlf_line_endings() {
    let mut patch = PatchSet::new();
    patch.parse("--- a/f\r\n+++ b/f\r\n@@ -1 +1 @@\r\n-a\r\n+b\r\n").unwrap();
    let file = &patch.files()[0];
    assert_eq!("a/f", file.source_file);
    assert_eq!("b", file.hunks()[0].lines()[1].value);
}

#[test]
fn git_header_paths() {
    let mut patch = PatchSet::new();
    patch.parse("diff --git a/old b/new\nsimilarity index 100%\nrename from old\nrename to new\n").unwrap();
    let file = &patch.files()[0];
    assert_eq!("a/old", file.source_file);
    assert_eq!("b/new", file.target_file);
    assert!(file.is_renamed_file());
    assert!(!file.is_modified_file());
    assert_eq!(0, patch.modified_files().len());
}

#[test]
fn path_variants() {
    assert_eq!("x", PatchedFile::new("a/x", "b/x").path());
    assert_eq!("x", PatchedFile::new("a/x", "/dev/null").path());
    assert_eq!("x", PatchedFile::new("/dev/null", "b/x").path());
    assert_eq!("x/y", PatchedFile::new("x/y", "z").path());
}

#[test]
fn renamed_detection() {
    assert!(!PatchedFile::new("a/a/x", "b/x").is_renamed_file());
    assert!(PatchedFile::new("a/x", "b/y").is_renamed_file());
    assert!(!PatchedFile::new("/dev/null", "b/y").is_renamed_file());
    assert!(!PatchedFile::new("a/x", "b/y").is_modified_file());
    let changed = PatchedFile::with_hunks("a/x", "b/y", vec![Hunk::new(1, 1, 1, 1, "")]);
    assert!(changed.is_renamed_file() && changed.is_modified_file());
}

#[test]
fn hunk_counts_and_sides() {
    let mut hunk = Hunk::new(1, 2, 1, 2, "");
    hunk.append(Line::new("a", "-"));
    hunk.append(Line::new("b", "+"));
    hunk.append(Line::new("c", " "));
    hunk.append(Line::new("no newline", "\\"));
    assert_eq!(1, hunk.added());
    assert_eq!(1, hunk.removed());
    assert_eq!(4, hunk.len());
    assert!(!hunk.is_empty());
    assert!(hunk.is_valid());
    assert_eq!(vec!["a", "c"], hunk.source_lines().iter().map(|l| l.value.as_str()).collect::<Vec<_>>());
    assert_eq!(vec!["b", "c"], hunk.target_lines().iter().map(|l| l.value.as_str()).collect::<Vec<_>>());
}

#[test]
fn rendering() {
    let mut hunk = Hunk::new(1, 1, 1, 2, "fn main");
    hunk.append(Line::new("a", " "));
    hunk.append(Line::new("b", "+"));
    assert_eq!("@@ -1,1 +1,2 @@ fn main\n a\n+b", hunk.to_string());
    let file = PatchedFile::with_hunks("a/f", "b/f", vec![hunk]);
    assert_eq!("--- a/f\n+++ b/f\n@@ -1,1 +1,2 @@ fn main\n a\n+b", file.to_string());
    assert_eq!("+b", Line::new("b", "+").to_string());
}

#[test]
fn render_then_parse_keeps_shape() {
    let text = "--- a/f\n+++ b/f\n@@ -1,3 +1,3 @@ head\n a\n-b\n+c\n d\n@@ -10,1 +10,2 @@\n e\n+f\n--- /dev/null\n+++ b/g\n@@ -0,0 +1 @@\n+g\n";
    let first: PatchSet = text.parse().unwrap();
    let second: PatchSet = first.to_string().parse().unwrap();
    assert_eq!(first.len(), second.len());
    for (f1, f2) in first.files().iter().zip(second.files().iter()) {
        assert_eq!(f1.len(), f2.len());
        for (h1, h2) in f1.hunks().iter().zip(f2.hunks().iter()) {
            assert_eq!(
                (h1.source_start, h1.source_length, h1.target_start, h1.target_length),
                (h2.source_start, h2.source_length, h2.target_start, h2.target_length)
            );
            assert_eq!(h1.len(), h2.len());
            for (l1, l2) in h1.lines().iter().zip(h2.lines().iter()) {
                assert_eq!(l1.line_type, l2.line_type);
                assert_eq!(l1.source_line_no, l2.source_line_no);
                assert_eq!(l1.target_line_no, l2.target_line_no);
            }
        }
    }
}

#[test]
fn diff_line_numbers_increase_within_file() {
    let mut patch = PatchSet::new();
    patch.parse("--- a/f\n+++ b/f\n@@ -1 +1 @@\n-a\n+b\n@@ -5 +5 @@\n-c\n+d\n").unwrap();
    let nos: Vec<usize> = patch.files()[0].hunks().iter().flat_map(|h| h.lines().iter().map(|l| l.diff_line_no)).collect();
    assert_eq!(vec![3, 4, 6, 7], nos);
}

#[test]
fn encoding_labels() {
    let mut patch = PatchSet::from_encoding("latin1");
    patch.parse_bytes(b"--- a/f\n+++ b/f\n@@ -1 +1 @@\n-a\n+\xe9\n").unwrap();
    assert_eq!("\u{e9}", patch.files()[0].hunks()[0].lines()[1].value);
    let mut fallback = PatchSet::from_encoding("no such encoding");
    fallback.parse_bytes("--- a/f\n+++ b/f\n@@ -1 +1 @@\n-a\n+é\n".as_bytes()).unwrap();
    assert_eq!("é", fallback.files()[0].hunks()[0].lines()[1].value);
    let mut explicit = PatchSet::with_encoding(encoding_rs::UTF_8);
    explicit.parse_bytes(b"").unwrap();
    assert!(explicit.is_empty());
}

#[test]
fn filtered_views_and_clone() {
    let patch: PatchSet = "--- /dev/null\n+++ b/n\n@@ -0,0 +1 @@\n+x\n--- a/o\n+++ /dev/null\n@@ -1 +0,0 @@\n-y\n--- a/m\n+++ b/m\n@@ -1 +1 @@\n-p\n+q\n".parse().unwrap();
    assert_eq!("n", patch.added_files()[0].path());
    assert_eq!("o", patch.removed_files()[0].path());
    assert_eq!("m", patch.modified_files()[0].path());
    let copy = patch.clone();
    assert_eq!(patch.files(), copy.files());
    assert!(PatchSet::default().is_empty());
}
