//! Exclude patterns.
use diskghost::glob::{
    any_hit, build_globset, invalid_ones, is_excluded, leaves_out, set_or_empty,
};
use diskghost::raw::RawStyle;
use diskghost::{validate_globs, FilePath, Options, PathPart};

fn texts(v: &[&str]) -> Vec<String> {
    v.iter().map(|s| s.to_string()).collect()
}

fn excluded(patterns: &[&str], path: &str) -> bool {
    let set = build_globset(&texts(patterns));
    let parts: Vec<Vec<u8>> = path.split('/').map(|p| p.as_bytes().to_vec()).collect();
    is_excluded(&set, &path.as_bytes().to_vec(), &parts)
}

#[test]
fn typos_are_found() {
    assert_eq!(validate_globs(&texts(&["*.tmp", "[bad", "ok", "{a,b"])), texts(&["[bad", "{a,b"]));
    assert!(validate_globs(&texts(&["node_modules"])).is_empty());
    assert!(validate_globs(&Vec::new()).is_empty());
}

#[test]
fn the_invalid_ones_are_picked_in_order() {
    let patterns = texts(&["a", "b", "c"]);
    assert_eq!(invalid_ones(&patterns, &vec![false, true, false]), texts(&["a", "c"]));
    assert!(invalid_ones(&patterns, &vec![true, true, true]).is_empty());
}

#[test]
fn a_pattern_matches_a_name_a_component_or_the_whole_path() {
    assert!(excluded(&["*.tmp"], "work/junk.tmp"));
    assert!(excluded(&["node_modules"], "work/node_modules/x/y.js"));
    assert!(excluded(&["work/*/y.js"], "work/deep/y.js"));
    assert!(!excluded(&["*.tmp"], "work/junk.txt"));
    assert!(!excluded(&["node_modules"], "work/other/y.js"));
}

#[test]
fn a_component_counts_whatever_the_path_looks_like() {
    let parts = |names: &[&str]| names.iter().map(|n| n.as_bytes().to_vec()).collect();
    let whole = b"C:\\work\\node_modules\\x.js".to_vec();
    let names = parts(&["C:", "\\", "work", "node_modules", "x.js"]);
    let set = build_globset(&texts(&["node_modules"]));
    assert!(is_excluded(&set, &whole, &names));
    let other = build_globset(&texts(&["*.tmp"]));
    assert!(!is_excluded(&other, &whole, &names));
}

#[test]
fn invalid_patterns_are_ignored() {
    assert!(excluded(&["[bad", "*.tmp"], "junk.tmp"));
    assert!(!excluded(&["[bad"], "[bad"));
}

#[test]
fn a_set_that_cannot_be_compiled_excludes_nothing() {
    let failed = globset::Glob::new("[bad").unwrap_err();
    assert!(set_or_empty(Err(failed)).is_empty());
    let set = build_globset(&texts(&["*.tmp"]));
    assert_eq!(set_or_empty(Ok(set)).len(), 1);
}

#[test]
fn without_patterns_nothing_is_excluded() {
    assert!(!excluded(&[], "anything/at/all"));
}

#[test]
fn more_patterns_exclude_more() {
    let path = "a/b.log";
    assert!(!excluded(&["*.tmp"], path));
    assert!(excluded(&["*.tmp", "*.log"], path));
    assert!(excluded(&["*.log", "*.tmp"], path));
}

#[test]
fn one_hit_is_enough() {
    assert!(any_hit(&vec![false, true, false]));
    assert!(!any_hit(&vec![false, false]));
    assert!(!any_hit(&Vec::new()));
}

#[test]
fn options_are_compared_field_by_field() {
    let with = |depth: Option<usize>, links: bool, exclude: &[&str]| Options {
        max_depth: depth,
        follow_symlinks: links,
        exclude: texts(exclude),
    };
    let a = with(Some(2), true, &["x", "y"]);
    assert!(a.same(&with(Some(2), true, &["x", "y"])));
    assert!(!a.same(&with(Some(3), true, &["x", "y"])));
    assert!(!a.same(&with(None, true, &["x", "y"])));
    assert!(!a.same(&with(Some(2), false, &["x", "y"])));
    assert!(!a.same(&with(Some(2), true, &["y", "x"])));
    assert!(!a.same(&with(Some(2), true, &["x"])));
    assert!(Options::default().same(&with(None, false, &[])));
}

#[test]
fn names_and_extensions_always_compile() {
    let many: Vec<String> = (0..2000).map(|i| format!("*.ext{i}")).collect();
    assert_eq!(build_globset(&many).len(), 2000);
    assert_eq!(build_globset(&texts(&["a,b", "x/y", "..", "!n]", "*.t-m,p"])).len(), 5);
    assert!(validate_globs(&texts(&["a,b", "!n]", "*.x"])).is_empty());
}

#[test]
fn a_name_matches_what_it_spells_and_an_extension_the_end() {
    let hit = |pattern: &str, text: &str| {
        is_excluded(&build_globset(&texts(&[pattern])), &text.as_bytes().to_vec(), &Vec::new())
    };
    for (pattern, text, expected) in [
        ("node_modules", "node_modules", true),
        ("node_modules", "x/node_modules", false),
        ("node_modules", "node_modules2", false),
        ("a/b,c", "a/b,c", true),
        ("..", "..", true),
        ("ü", "ü", true),
        ("*.tmp", "a.tmp", true),
        ("*.tmp", ".tmp", true),
        ("*.tmp", "d.x/a.b.tmp", true),
        ("*.tmp", "a.tmp/", false),
        ("*.tmp", "atmp", false),
        ("*.tmp", "a.tmp2", false),
        ("*.ü", "a.ü", true),
        ("*.ü", "a.u", false),
    ] {
        assert_eq!(hit(pattern, text), expected, "{pattern} {text}");
    }
}

#[test]
fn a_walk_leaves_out_paths_as_they_are_spelled() {
    let name = |n: &str| PathPart::Normal(n.as_bytes().to_vec());
    let given = FilePath::new(vec![name("d"), name("sub")]);
    let style = RawStyle::of(&b"/".to_vec(), &given, &b"d//sub".to_vec());
    let file = FilePath::new(vec![name("d"), name("sub"), name("x"), name("f.tmp")]);
    assert_eq!(file.raw(&style), b"d//sub/x/f.tmp".to_vec());
    assert_eq!(given.raw(&style), b"d//sub".to_vec());
    assert_eq!(file.raw_parts(&style)[3], b"f.tmp".to_vec());
    let out = |patterns: &[&str]| leaves_out(&build_globset(&texts(patterns)), &file, &style);
    assert!(out(&["*.tmp"]));
    assert!(out(&["x"]));
    assert!(out(&["d//sub/x/f.tmp"]));
    assert!(!out(&["d/sub/x/f.tmp"]));
    assert!(!out(&["y", "*.log"]));
    assert!(!out(&[]));
    // A separator that was given is not doubled.
    let open = RawStyle::of(&b"/".to_vec(), &given, &b"d/sub/".to_vec());
    assert_eq!(file.raw(&open), b"d/sub/x/f.tmp".to_vec());
    let up = FilePath::new(vec![PathPart::RootDir, PathPart::ParentDir, name("q")]);
    assert_eq!(up.raw(&open), b"/../q".to_vec());
    assert_eq!(FilePath::new(vec![PathPart::CurDir, name("q")]).raw(&open), b"./q".to_vec());
}

#[test]
fn nothing_below_an_excluded_folder_is_walked() {
    let name = |n: &str| PathPart::Normal(n.as_bytes().to_vec());
    let style = RawStyle::of(&b"/".to_vec(), &FilePath::new(vec![]), &Vec::new());
    let set = build_globset(&texts(&["node_modules"]));
    let folder = FilePath::new(vec![name("w"), name("node_modules")]);
    assert!(leaves_out(&set, &folder, &style));
    assert!(leaves_out(&set, &folder.child(name("deep")).child(name("f")), &style));
}
