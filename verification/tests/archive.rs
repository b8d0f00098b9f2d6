use typepaste::archive::{
    is_excluded, is_left_out, keep, pattern_errors, pick, some_excluded, some_matches, visit,
    zip_directory, zip_stamp, Found, Visit,
};
use typepaste::utils::md5_of_bytes;

fn found(rel: &str, is_dir: bool, data: &[u8]) -> Found {
    Found {
        rel: rel.to_string(),
        is_dir,
        modified: 1_700_000_000,
        data: data.to_vec(),
    }
}

fn listing(tree: &[(&str, bool, &[u8])]) -> Vec<Found> {
    tree.iter().map(|&(rel, is_dir, data)| found(rel, is_dir, data)).collect()
}

fn zip(tree: Vec<Found>, patterns: &[&str]) -> Result<Vec<u8>, String> {
    let patterns: Vec<String> = patterns.iter().map(|p| p.to_string()).collect();
    zip_directory("tree", "root", tree, &patterns, '/')
}

fn names(bytes: &[u8]) -> Vec<String> {
    let mut archive = zip::ZipArchive::new(std::io::Cursor::new(bytes)).unwrap();
    (0..archive.len())
        .map(|i| archive.by_index(i).unwrap().name().to_string())
        .collect()
}

#[test]
fn zip_directory_some_dir_multi_times_has_same_md5() {
    let tree = || vec![found("", true, b""), found("test.txt", false, b"test")];
    let data1 = zip(tree(), &[]).unwrap();
    let data2 = zip(tree(), &[]).unwrap();
    let md5_1 = md5_of_bytes(&data1);
    let md5_2 = md5_of_bytes(&data2);
    assert_eq!(md5_1, md5_2);
}

#[test]
fn zip_directory_excludes_matching_files() {
    let tree: [(&str, bool, &[u8]); 5] = [
        ("keep.txt", false, b"keep"),
        ("skip.tmp", false, b"skip"),
        ("sub", true, b""),
        ("sub/keep.txt", false, b"keep2"),
        ("sub/skip.tmp", false, b"skip2"),
    ];
    let zip_bytes = zip(listing(&tree), &["*.tmp"]).unwrap();
    let names = names(&zip_bytes);
    assert!(names.iter().any(|n| n.contains("keep.txt")));
    assert!(!names.iter().any(|n| n.contains("skip.tmp")));
    assert_eq!(names, vec!["root/keep.txt", "root/sub/", "root/sub/keep.txt"]);
}

#[test]
fn zip_directory_excludes_directory_subtree() {
    let tree: [(&str, bool, &[u8]); 4] = [
        ("node_modules", true, b""),
        ("node_modules/pkg.json", false, b"{}"),
        ("src", true, b""),
        ("src/main.rs", false, b"fn main(){}"),
    ];
    let zip_bytes = zip(listing(&tree), &["node_modules"]).unwrap();
    let names = names(&zip_bytes);
    assert!(names.iter().any(|n| n.contains("main.rs")));
    assert!(!names.iter().any(|n| n.contains("node_modules")));
    assert!(!names.iter().any(|n| n.contains("pkg.json")));
}

#[test]
fn archive_is_read_back() {
    let long = vec![b'z'; 5000];
    let tree = vec![
        found("", true, b""),
        found("a.txt", false, b"alpha"),
        found("中 文", true, b""),
        found("中 文/z", false, &long),
        found("empty", false, b""),
    ];
    let bytes = zip(tree, &[]).unwrap();
    let mut archive = zip::ZipArchive::new(std::io::Cursor::new(&bytes)).unwrap();
    let mut seen = Vec::new();
    for i in 0..archive.len() {
        let mut f = archive.by_index(i).unwrap();
        let mut data = Vec::new();
        std::io::Read::read_to_end(&mut f, &mut data).unwrap();
        let t = f.last_modified().unwrap();
        // 22:13:20 on 14 November 2023.
        assert_eq!((t.year(), t.month(), t.day()), (2023, 11, 14));
        assert_eq!((t.hour(), t.minute(), t.second()), (22, 13, 20));
        seen.push((f.name().to_string(), data));
    }
    assert_eq!(
        seen,
        vec![
            ("root/".to_string(), vec![]),
            ("root/a.txt".to_string(), b"alpha".to_vec()),
            ("root/中 文/".to_string(), vec![]),
            ("root/中 文/z".to_string(), long),
            ("root/empty".to_string(), vec![]),
        ]
    );
    assert!(bytes.len() < 2000);
}

#[test]
fn names_that_are_there_twice() {
    let tree = vec![found("a", false, b"1"), found("a", false, b"2")];
    assert!(zip(tree, &[]).is_err());
}

#[test]
fn excluded_root_leaves_nothing() {
    let tree = listing(&[("", true, b""), ("a", false, b"1")]);
    assert!(names(&zip(tree, &["t*e"]).unwrap()).is_empty());
}

#[test]
fn names_with_a_backslash() {
    let tree = vec![found("a\\b", false, b"1")];
    assert_eq!(names(&zip(tree, &[]).unwrap()), vec!["root/a\\b"]);
}

#[test]
fn backslashes_in_names_and_patterns() {
    let p = |pattern: &str, name: &str| is_excluded(&[pattern.to_string()], name);
    assert!(p("*.tmp", "a\\b.tmp"));
    assert!(!p("*.tmp", "a\\b.txt"));
    assert!(p("a\\?", "a\\b"));
    assert!(!p("a\\?", "ab"));
    let tree = || vec![found("a\\b", false, b"1"), found("c", false, b"2")];
    let first = zip(tree(), &["a?b"]).unwrap();
    assert_eq!(names(&first), vec!["root/c"]);
    assert_eq!(first, zip(tree(), &["a?b"]).unwrap());
}

#[test]
fn outcomes_of_patterns() {
    let bad = || Err("bad".to_string());
    assert!(some_matches(&[bad(), Ok(false), Ok(true)]));
    assert!(!some_matches(&[bad(), Ok(false)]));
    assert!(!some_matches(&[]));
    assert!(some_excluded(&[false, true, false]));
    assert!(!some_excluded(&[false, false]));
    assert!(!some_excluded(&[]));
}

#[test]
fn marked_is_dropped() {
    let tree = listing(&[("a", false, b"1"), ("b", false, b"2"), ("c", false, b"3")]);
    let kept = pick(tree, &[false, true, false]);
    let rels: Vec<&str> = kept.iter().map(|f| f.rel.as_str()).collect();
    assert_eq!(rels, vec!["a", "c"]);
}

#[test]
fn many_entries() {
    for n in [65534usize, 65536, 65537] {
        let tree: Vec<Found> = (0..n).map(|i| found(&format!("{i}"), true, b"")).collect();
        let names = names(&zip(tree, &[]).unwrap());
        assert_eq!(names.len(), n);
        assert_eq!(names[n - 1], format!("root/{}/", n - 1));
    }
}

#[test]
fn kept_of_a_listing() {
    let tree = listing(&[
        ("", true, b""),
        ("a", true, b""),
        ("a/.git", true, b""),
        ("a/.git/objects", true, b""),
        ("a/.git/objects/01", false, b"x"),
        ("a/.gitignore", false, b"y"),
        ("b.tmp", false, b"z"),
    ]);
    let patterns = vec![".git".to_string(), "[".to_string(), "*.tmp".to_string()];
    let kept = keep(tree, &patterns, "tree", '/');
    let rels: Vec<&str> = kept.iter().map(|f| f.rel.as_str()).collect();
    assert_eq!(rels, vec!["", "a", "a/.gitignore"]);
    assert_eq!(kept[2].data, b"y");
    assert!(kept[1].is_dir);
}

#[test]
fn paths_that_are_left_out() {
    let out = |root: &str, rel: &str, sep: char| is_left_out(&["x?".to_string()], root, rel, sep);
    assert!(out("x1", "", '/'));
    assert!(out("x1", "a", '/'));
    assert!(out("t", "a/x2/b/c", '/'));
    assert!(out("t", "a/x2", '/'));
    assert!(out("t", "x2", '/'));
    assert!(!out("t", "a/b/c", '/'));
    assert!(!out("t", "", '/'));
    assert!(!out("t", "a/xyz", '/'));
    // The separator is that of the paths.
    assert!(out("t", "a:x2", ':'));
    assert!(!out("t", "a:x2", '/'));
}

#[test]
fn visits() {
    assert!(matches!(visit(false, false), Visit::Keep));
    assert!(matches!(visit(false, true), Visit::Keep));
    assert!(matches!(visit(true, false), Visit::Skip));
    assert!(matches!(visit(true, true), Visit::SkipTree));
}

#[test]
fn errors_in_patterns() {
    let patterns: Vec<String> = ["*.tmp", "a[", "***"].iter().map(|p| p.to_string()).collect();
    let errors = pattern_errors(&patterns);
    assert_eq!(errors.len(), 3);
    assert_eq!(errors[0], None);
    for i in 1..3 {
        let expected = glob::Pattern::new(&patterns[i]).unwrap_err().to_string();
        assert_eq!(errors[i], Some(expected));
    }
}

#[test]
fn longest_names() {
    // A name takes at most 65535 bytes with the directory's own.
    let long = "n".repeat(65535 - "root/".len());
    let bytes = zip(vec![found(&long, false, b"1")], &[]).unwrap();
    assert_eq!(names(&bytes), vec![format!("root/{long}")]);
    // What is left out may be longer.
    let longer = format!("x/{long}{long}");
    assert!(names(&zip(vec![found(&longer, false, b"1")], &["x"]).unwrap()).is_empty());
}

#[test]
fn patterns() {
    let p = |v: &[&str], name: &str| {
        let v: Vec<String> = v.iter().map(|s| s.to_string()).collect();
        is_excluded(&v, name)
    };
    assert!(!p(&[], "a"));
    assert!(p(&[".git"], ".git"));
    assert!(!p(&[".git"], ".gitignore"));
    assert!(p(&["x", "*.tmp"], "a.tmp"));
    assert!(p(&["[ab]?"], "b1"));
    assert!(!p(&["[ab]?"], "c1"));
    // A pattern that is none is passed over.
    assert!(p(&["a[", "***", "a*"], "abc"));
    assert!(!p(&["a["], "a["));
}

#[test]
fn stamps() {
    assert_eq!(zip_stamp(1_700_000_000), (2023, 11, 14, 22, 13, 20));
    assert_eq!(zip_stamp(315_532_800), (1980, 1, 1, 0, 0, 0));
    assert_eq!(zip_stamp(951_782_399), (2000, 2, 28, 23, 59, 59));
    assert_eq!(zip_stamp(951_782_400), (2000, 2, 29, 0, 0, 0));
    assert_eq!(zip_stamp(4_354_819_199), (2107, 12, 31, 23, 59, 59));
    for other in [
        i64::MIN,
        -8_334_601_228_801,
        -1,
        0,
        315_532_799,
        4_354_819_200,
        8_210_266_876_799,
        i64::MAX,
    ] {
        assert_eq!(zip_stamp(other), (1980, 1, 1, 0, 0, 0));
    }
}
