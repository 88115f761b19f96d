use unidiff::PatchSet;

const SAMPLE0: &str = "--- /path/to/old\t''timestamp without timezone''
+++ /path/to/new\t''timestamp without timezone''
@@ -1,3 +1,9 @@ Section Header
+This is an important
+notice! It should
+therefore be located at
+the beginning of this
+document!
+
 This part of the
 documentation has been
 cut for the test
@@ -5,16 +11,10 @@
 be shown if it doesn't
 change.  Otherwise, that
 would not be helping to
-compress the size of the
-changes.
-
-This paragraph contains
-text that is outdated.
-It will be deleted in the
-near future.
+compress anything.
 It is important to spell
 check this dokument. On
-the other hand, a
+the other hand, a misspelled word
 isn't the end of the world.
 Nothing in the rest of
 this paragraph needs to
@@ -22,3 +22,7 @@
 be changed. Things can
 be added after it.
 This is the end.
+
+This paragraph was added
+after the end of the
+document.
--- /dev/null\t''timestamp without timezone''
+++ /path/to/another_new\t''timestamp without timezone''
@@ -0,0 +1,9 @@
+This is an important
+notice! It should
+therefore be located at
+the beginning of this
+document!
+
+This part of the
+documentation has been
+cut for the test
--- /path/to/existing\t''timestamp without timezone''
+++ /dev/null\t''timestamp without timezone''
@@ -1,9 +0,0 @@
-This is an important
-notice! It should
-therefore be located at
-the beginning of this
-document!
-
-This part of the
-documentation has been
-cut for the test
";

const GIT_DIFF: &str = "diff --git a/added_file b/added_file
new file mode 100644
index 0000000..9b710f3
--- /dev/null
+++ b/added_file
@@ -0,0 +1,4 @@
+This was missing!
+Adding it now.
+
+Only for testing purposes.
\\ No newline at end of file
diff --git a/modified_file b/modified_file
index c7921f5..8946660 100644
--- a/modified_file
+++ b/modified_file
@@ -1,5 +1,7 @@
 This is the initial content.
 
-This should be updated.
+This is now updated.
+
+This is a new line.
 
 This will stay.
\\ No newline at end of file
diff --git a/removed_file b/removed_file
deleted file mode 100644
index 1f38447..0000000
--- a/removed_file
+++ /dev/null
@@ -1,3 +0,0 @@
-This content shouldn't be here.
-
-This file will be removed.
\\ No newline at end of file
";

const BZR_DIFF: &str = "=== added file 'added_file'
--- added_file\t1970-01-01 00:00:00 +0000
+++ added_file\t2013-10-13 23:44:04 +0000
@@ -0,0 +1,4 @@
+This was missing!
+Adding it now.
+
+Only for testing purposes.
\\ No newline at end of file

=== modified file 'modified_file'
--- modified_file\t2013-10-13 23:53:13 +0000
+++ modified_file\t2013-10-13 23:53:26 +0000
@@ -1,5 +1,7 @@
 This is the initial content.
 
-This should be updated.
+This is now updated.
+
+This is a new line.
 
 This will stay.
\\ No newline at end of file

=== removed file 'removed_file'
--- removed_file\t2013-10-13 23:53:13 +0000
+++ removed_file\t1970-01-01 00:00:00 +0000
@@ -1,3 +0,0 @@
-This content shouldn't be here.
-
-This file will be removed.
\\ No newline at end of file

";

const HG_DIFF: &str = "diff -r 44299fd3d1a8 added_file
--- /dev/null\tThu Jan 01 00:00:00 1970 +0000
+++ b/added_file\tSun Oct 13 23:59:04 2013 -0300
@@ -0,0 +1,4 @@
+This was missing!
+Adding it now.
+
+Only for testing purposes.
\\ No newline at end of file
diff -r 44299fd3d1a8 modified_file
--- a/modified_file\tSun Oct 13 23:56:38 2013 -0300
+++ b/modified_file\tSun Oct 13 23:59:04 2013 -0300
@@ -1,5 +1,7 @@
 This is the initial content.
 
-This should be updated.
+This is now updated.
+
+This is a new line.
 
 This will stay.
\\ No newline at end of file
diff -r 44299fd3d1a8 removed_file
--- a/removed_file\tSun Oct 13 23:56:38 2013 -0300
+++ /dev/null\tThu Jan 01 00:00:00 1970 +0000
@@ -1,3 +0,0 @@
-This content shouldn't be here.
-
-This file will be removed.
\\ No newline at end of file
";

const SVN_DIFF: &str = "Index: added_file
===================================================================
--- added_file\t(revision 0)
+++ added_file\t(revision 7)
@@ -0,0 +1,4 @@
+This was missing!
+Adding it now.
+
+Only for testing purposes.
\\ No newline at end of file
Index: modified_file
===================================================================
--- modified_file\t(revision 7)
+++ modified_file\t(working copy)
@@ -1,5 +1,7 @@
 This is the initial content.
 
-This should be updated.
+This is now updated.
+
+This is a new line.
 
 This will stay.
\\ No newline at end of file
Index: removed_file
===================================================================
--- removed_file\t(revision 7)
+++ removed_file\t(working copy)
@@ -1,3 +0,0 @@
-This content shouldn't be here.
-
-This file will be removed.
\\ No newline at end of file
";

const SAMPLE3: &str = "--- a/greeting
+++ b/greeting
@@ -1,2 +1,3 @@
 hola
+holá mundo!
 adiós
--- a/added
+++ b/added
@@ -0,0 +1,1 @@
+¿qué tal?
--- a/removed
+++ b/removed
@@ -1,1 +0,0 @@
-año nuevo
";

const SAMPLE4: &str = "diff --git a/sample.txt b/sample.txt
new file mode 100644
index 0000000..2b3e5c4
--- /dev/null
+++ b/sample.txt
@@ -0,0 +1 @@
+Single line
";

const SAMPLE5: &str = "diff --git a/sample.txt b/sample.txt
deleted file mode 100644
index 2b3e5c4..0000000
--- a/sample.txt
+++ /dev/null
@@ -1 +0,0 @@
-Single line
";

const SAMPLE4_PLUS: &str = "diff --git a/sample.txt b/sample.txt
new file mode 100644
index 0000000..2b3e5c4
--- /dev/null
+++ b/sample.txt
@@ -0,0 +1 @@
+sample
\\ No newline at end of file
diff --git a/sample2.txt b/sample2.txt
new file mode 100644
index 0000000..2b3e5c4
--- /dev/null
+++ b/sample2.txt
@@ -0,0 +1 @@
+sample2
\\ No newline at end of file
diff --git a/sample3.txt b/sample3.txt
new file mode 100644
index 0000000..2b3e5c4
--- /dev/null
+++ b/sample3.txt
@@ -0,0 +1 @@
+sample3
\\ No newline at end of file
";

#[test]
fn test_parse_sample0_diff() {
    let buf = SAMPLE0;

    let mut patch = PatchSet::new();
    patch.parse(&buf).unwrap();

    // three file in the patch
    assert_eq!(3, patch.len());
    // three hunks
    assert_eq!(3, patch.files()[0].len());

    // first file is modified
    assert!(patch.files()[0].is_modified_file());
    assert!(!patch.files()[0].is_added_file());
    assert!(!patch.files()[0].is_removed_file());

    // Hunk 1: five additions, no deletions, a section header
    assert_eq!(6, patch.files()[0].hunks()[0].added());
    assert_eq!(0, patch.files()[0].hunks()[0].removed());
    assert_eq!("Section Header", &patch.files()[0].hunks()[0].section_header);

    // Hunk 2: 2 additions, 8 deletions, no section header
    assert_eq!(2, patch.files()[0].hunks()[1].added());
    assert_eq!(8, patch.files()[0].hunks()[1].removed());
    assert_eq!("", &patch.files()[0].hunks()[1].section_header);

    // Hunk 3: four additions, no deletions, no section header
    assert_eq!(4, patch.files()[0].hunks()[2].added());
    assert_eq!(0, patch.files()[0].hunks()[2].removed());
    assert_eq!("", &patch.files()[0].hunks()[2].section_header);

    // Check file totals
    assert_eq!(12, patch.files()[0].added());
    assert_eq!(8, patch.files()[0].removed());

    // second file is added
    assert!(!patch.files()[1].is_modified_file());
    assert!(patch.files()[1].is_added_file());
    assert!(!patch.files()[1].is_removed_file());

    // third file is removed
    assert!(!patch.files()[2].is_modified_file());
    assert!(!patch.files()[2].is_added_file());
    assert!(patch.files()[2].is_removed_file());
}

#[test]
fn test_parse_git_diff() {
    let buf = GIT_DIFF;

    let mut patch = PatchSet::new();
    patch.parse(&buf).unwrap();

    assert_eq!(3, patch.len());

    let added_files = patch.added_files();
    assert_eq!(1, added_files.len());
    assert_eq!("added_file", added_files[0].path());
    assert_eq!(4, added_files[0].added());
    assert_eq!(0, added_files[0].removed());

    let removed_files = patch.removed_files();
    assert_eq!(1, removed_files.len());
    assert_eq!("removed_file", removed_files[0].path());
    assert_eq!(0, removed_files[0].added());
    assert_eq!(3, removed_files[0].removed());

    let modified_files = patch.modified_files();
    assert_eq!(1, modified_files.len());
    assert_eq!("modified_file", modified_files[0].path());
    assert_eq!(3, modified_files[0].added());
    assert_eq!(1, modified_files[0].removed());
}

#[test]
fn test_parse_bzr_diff() {
    let buf = BZR_DIFF;

    let mut patch = PatchSet::new();
    patch.parse(&buf).unwrap();

    assert_eq!(3, patch.len());

    let added_files = patch.added_files();
    assert_eq!(1, added_files.len());
    assert_eq!("added_file", added_files[0].path());
    assert_eq!(4, added_files[0].added());
    assert_eq!(0, added_files[0].removed());

    let removed_files = patch.removed_files();
    assert_eq!(1, removed_files.len());
    assert_eq!("removed_file", removed_files[0].path());
    assert_eq!(0, removed_files[0].added());
    assert_eq!(3, removed_files[0].removed());

    let modified_files = patch.modified_files();
    assert_eq!(1, modified_files.len());
    assert_eq!("modified_file", modified_files[0].path());
    assert_eq!(3, modified_files[0].added());
    assert_eq!(1, modified_files[0].removed());
}

#[test]
fn test_parse_hg_diff() {
    let buf = HG_DIFF;

    let mut patch = PatchSet::new();
    patch.parse(&buf).unwrap();

    assert_eq!(3, patch.len());

    let added_files = patch.added_files();
    assert_eq!(1, added_files.len());
    assert_eq!("added_file", added_files[0].path());
    assert_eq!(4, added_files[0].added());
    assert_eq!(0, added_files[0].removed());

    let removed_files = patch.removed_files();
    assert_eq!(1, removed_files.len());
    assert_eq!("removed_file", removed_files[0].path());
    assert_eq!(0, removed_files[0].added());
    assert_eq!(3, removed_files[0].removed());

    let modified_files = patch.modified_files();
    assert_eq!(1, modified_files.len());
    assert_eq!("modified_file", modified_files[0].path());
    assert_eq!(3, modified_files[0].added());
    assert_eq!(1, modified_files[0].removed());
}

#[test]
fn test_parse_svn_diff() {
    let buf = SVN_DIFF;

    let mut patch = PatchSet::new();
    patch.parse(&buf).unwrap();

    assert_eq!(3, patch.len());

    let added_files = patch.added_files();
    assert_eq!(1, added_files.len());
    assert_eq!("added_file", added_files[0].path());
    assert_eq!(4, added_files[0].added());
    assert_eq!(0, added_files[0].removed());

    let removed_files = patch.removed_files();
    assert_eq!(1, removed_files.len());
    assert_eq!("removed_file", removed_files[0].path());
    assert_eq!(0, removed_files[0].added());
    assert_eq!(3, removed_files[0].removed());

    let modified_files = patch.modified_files();
    assert_eq!(1, modified_files.len());
    assert_eq!("modified_file", modified_files[0].path());
    assert_eq!(3, modified_files[0].added());
    assert_eq!(1, modified_files[0].removed());
}

#[test]
fn test_parse_line_numbers() {
    let buf = SAMPLE0;

    let mut patch = PatchSet::new();
    patch.parse(&buf).unwrap();

    let mut target_line_nos = vec![];
    let mut source_line_nos = vec![];
    let mut diff_line_nos = vec![];

    for diff_file in patch.files() {
        for hunk in diff_file.hunks() {
            for line in hunk.lines() {
                source_line_nos.push(line.source_line_no.clone());
                target_line_nos.push(line.target_line_no.clone());
                diff_line_nos.push(line.diff_line_no);
            }
        }
    }

    let expected_target_line_nos = vec![
        // File: 1, Hunk: 1
        Some(1),
        Some(2),
        Some(3),
        Some(4),
        Some(5),
        Some(6),
        Some(7),
        Some(8),
        Some(9),
        // File: 1, Hunk: 2
        Some(11),
        Some(12),
        Some(13),
        None,
        None,
        None,
        None,
        None,
        None,
        None,
        Some(14),
        Some(15),
        Some(16),
        None,
        Some(17),
        Some(18),
        Some(19),
        Some(20),
        // File: 1, Hunk: 3
        Some(22),
        Some(23),
        Some(24),
        Some(25),
        Some(26),
        Some(27),
        Some(28),
        // File: 2, Hunk 1
        Some(1),
        Some(2),
        Some(3),
        Some(4),
        Some(5),
        Some(6),
        Some(7),
        Some(8),
        Some(9),
        // File: 3, Hunk 1
        None,
        None,
        None,
        None,
        None,
        None,
        None,
        None,
        None,
    ];
    let expected_source_line_nos = vec![
        // File: 1, Hunk: 1
        None,
        None,
        None,
        None,
        None,
        None,
        Some(1),
        Some(2),
        Some(3),
        // File: 1, Hunk: 2
        Some(5),
        Some(6),
        Some(7),
        Some(8),
        Some(9),
        Some(10),
        Some(11),
        Some(12),
        Some(13),
        Some(14),
        None,
        Some(15),
        Some(16),
        Some(17),
        None,
        Some(18),
        Some(19),
        Some(20),
        // File: 1, Hunk: 3
        Some(22),
        Some(23),
        Some(24),
        None,
        None,
        None,
        None,
        // File: 2, Hunk 1
        None,
        None,
        None,
        None,
        None,
        None,
        None,
        None,
        None,
        // File: 3, Hunk 1
        Some(1),
        Some(2),
        Some(3),
        Some(4),
        Some(5),
        Some(6),
        Some(7),
        Some(8),
        Some(9),
    ];
    let expected_diff_line_nos = vec![
        // File: 1, Hunk: 1
        3, 4, 5, 6, 7, 8, 9, 10, 11, // File: 1, Hunk: 2
        13, 14, 15, 16, 17, 18, 19, 20, 21, 22, 23, 24, 25, 26, 27, 28, 29, 30,
        // File: 1, Hunk: 3
        32, 33, 34, 35, 36, 37, 38, // File: 2, Hunk 1
        42, 43, 44, 45, 46, 47, 48, 49, 50, // File: 3, Hunk 1
        54, 55, 56, 57, 58, 59, 60, 61, 62,
    ];

    assert_eq!(expected_source_line_nos, source_line_nos);
    assert_eq!(expected_target_line_nos, target_line_nos);
    assert_eq!(expected_diff_line_nos, diff_line_nos);
}

#[test]
fn test_parse_from_encoding() {
    let buf = SAMPLE3.as_bytes();

    let mut patch = PatchSet::from_encoding("utf-8");
    patch.parse_bytes(buf).unwrap();

    assert_eq!(3, patch.len());
    assert_eq!("holá mundo!", patch.files()[0].hunks()[0].lines()[1].value);
}

#[test]
fn test_single_line_diff() {
    {
        let buf = SAMPLE4;

        let mut patch = PatchSet::new();
        patch.parse(&buf).unwrap();

        assert_eq!(1, patch.len());

        let added_files = patch.added_files();
        assert_eq!(1, added_files.len());
        assert_eq!("sample.txt", added_files[0].path());
        assert_eq!(1, added_files[0].added());
        assert_eq!(0, added_files[0].removed());
    }
    {
        let buf = SAMPLE5;

        let mut patch = PatchSet::new();
        patch.parse(&buf).unwrap();

        assert_eq!(1, patch.len());

        let removed_files = patch.removed_files();
        assert_eq!(1, removed_files.len());
        assert_eq!("sample.txt", removed_files[0].path());
        assert_eq!(0, removed_files[0].added());
        assert_eq!(1, removed_files[0].removed());
    }
}

#[test]
fn test_single_line_diff_with_trailer() {
    let buf = SAMPLE4_PLUS;

    let mut patch = PatchSet::new();
    patch.parse(&buf).unwrap();

    assert_eq!(3, patch.len());

    let added_files = patch.added_files();
    assert_eq!(3, added_files.len());
    assert_eq!("sample.txt", added_files[0].path());
    assert_eq!(1, added_files[0].added());
    assert_eq!(0, added_files[0].removed());

    assert_eq!("sample2.txt", added_files[1].path());
    assert_eq!(1, added_files[1].added());
    assert_eq!(0, added_files[1].removed());

    assert_eq!("sample3.txt", added_files[2].path());
    assert_eq!(1, added_files[2].added());
    assert_eq!(0, added_files[2].removed());
}

#[test]
fn test_parse_patchset_from_str() {
    let buf = SAMPLE0;

    let patch: PatchSet = buf.parse().unwrap();

    // three file in the patch
    assert_eq!(3, patch.len());
    // three hunks
    assert_eq!(3, patch.files()[0].len());
}
