use std::path::{Component, Path};
use syncd::ignore::{char_is_space, rule_file_for, IgnoreError, IgnoreMatcher, RuleFile};
use syncd::path::{PartKind, PartName, PathPart, SyncPath};

fn part(component: Component) -> PathPart {
    let kind = match component {
        Component::Prefix(_) => PartKind::Prefix,
        Component::RootDir => PartKind::Root,
        Component::CurDir => PartKind::CurDir,
        Component::ParentDir => PartKind::ParentDir,
        Component::Normal(_) => PartKind::Normal,
    };
    let written = component.as_os_str();
    let name = match written.to_str() {
        Some(text) => PartName::Text(text.to_string()),
        None => PartName::Bytes {
            raw: written.as_encoded_bytes().to_vec(),
            shown: written.to_string_lossy().into_owned(),
        },
    };
    PathPart { kind, name }
}

fn path(text: &str) -> SyncPath {
    SyncPath::from_parts(Path::new(text).components().map(part).collect())
}

fn builtin_only() -> IgnoreMatcher {
    IgnoreMatcher::new(&RuleFile::Missing).unwrap()
}

fn from_text(text: &str) -> IgnoreMatcher {
    IgnoreMatcher::new(&RuleFile::Text(text.to_string())).unwrap()
}

#[test]
fn ignore_git_directory() {
    let p = path("/repo/.git/config");
    let ignore = builtin_only();

    assert!(ignore.is_ignored(&p));
}

#[test]
fn ignores_nested_target_directory() {
    let p = path("/repo/crate/target/debug/app");
    let ignore = builtin_only();

    assert!(ignore.is_ignored(&p));
}

#[test]
fn does_not_ignore_normal_paths() {
    let p = path("/repo/src/main.rs");
    let ignore = builtin_only();

    assert!(!ignore.is_ignored(&p));
}

#[test]
fn loads_ignore_file_and_builtin_rules() {
    let root = path("/tmp/root");
    let ignore = from_text("dist\n# comment\nbuild\n");

    assert!(ignore.is_ignored(&root.join(&path("dist/file.txt"))));
    assert!(ignore.is_ignored(&root.join(&path("build/out"))));
    assert!(ignore.is_ignored(&root.join(&path(".git/config"))));
    assert!(!ignore.is_ignored(&root.join(&path("src/main.rs"))));
}

#[test]
fn comment_line_adds_no_rule() {
    let ignore = from_text("dist\n# comment\nbuild\n");

    assert_eq!(ignore.len(), 5);
    assert!(ignore.contains(&"dist".to_string()));
    assert!(ignore.contains(&"build".to_string()));
    assert!(!ignore.contains(&"# comment".to_string()));
    assert!(!ignore.contains(&"comment".to_string()));
    assert!(!ignore.is_ignored(&path("/repo/comment/file")));
    assert!(!ignore.is_ignored(&path("/repo/# comment/file")));
}

#[test]
fn builtin_names_are_exactly_three() {
    let ignore = builtin_only();

    assert_eq!(ignore.len(), 3);
    assert!(ignore.contains(&".git".to_string()));
    assert!(ignore.contains(&"target".to_string()));
    assert!(ignore.contains(&"node_modules".to_string()));
    assert!(ignore.is_ignored(&path("/repo/web/node_modules/left-pad/index.js")));
}

#[test]
fn builtin_names_hold_whatever_the_rule_file_says() {
    let ignore = from_text("dist\n");

    assert!(ignore.is_ignored(&path("/repo/.git")));
    assert!(ignore.is_ignored(&path("/repo/a/target")));
    assert!(ignore.is_ignored(&path("node_modules")));
}

#[test]
fn unreadable_rule_file_is_an_error() {
    let built = IgnoreMatcher::new(&RuleFile::Unreadable);

    assert_eq!(built.err(), Some(IgnoreError::RuleFileUnreadable));
}

#[test]
fn empty_rule_file_adds_nothing() {
    assert_eq!(from_text("").len(), 3);
    assert_eq!(from_text("\n\n   \n\t\n").len(), 3);
}

#[test]
fn rule_lines_are_trimmed() {
    let ignore = from_text("  dist  \r\n\tout dir\t\n   # not a rule\nlast");

    assert_eq!(ignore.len(), 6);
    assert!(ignore.contains(&"dist".to_string()));
    assert!(ignore.contains(&"out dir".to_string()));
    assert!(ignore.contains(&"last".to_string()));
    assert!(!ignore.contains(&"  dist  ".to_string()));
    assert!(!ignore.contains(&"# not a rule".to_string()));
}

#[test]
fn rule_text_beyond_ascii_is_kept() {
    let ignore = from_text("\u{a0}sch\u{f6}n\u{3000}\n\u{2003}#x\n");

    assert_eq!(ignore.len(), 4);
    assert!(ignore.contains(&"sch\u{f6}n".to_string()));
    assert!(ignore.is_ignored(&path("/repo/sch\u{f6}n/a.txt")));
}

#[test]
fn repeated_rules_count_once() {
    let ignore = from_text("dist\ndist\n.git\ntarget\n");

    assert_eq!(ignore.len(), 4);
}

#[test]
fn rules_match_whole_components_only() {
    let ignore = from_text("dist\n");

    assert!(!ignore.is_ignored(&path("/repo/dist2/file")));
    assert!(!ignore.is_ignored(&path("/repo/my.dist/file")));
    assert!(!ignore.is_ignored(&path("/repo/targets/file")));
    assert!(!ignore.is_ignored(&path("/repo/.gitignore")));
    assert!(!ignore.is_ignored(&path("/repo/Dist/file")));
    assert!(ignore.is_ignored(&path("/repo/a/b/dist")));
}

#[test]
fn hash_in_the_middle_of_a_line_is_part_of_the_rule() {
    let ignore = from_text("a#b\n");

    assert!(ignore.contains(&"a#b".to_string()));
}

#[test]
fn name_that_is_not_text_matches_no_rule() {
    let ignore = from_text("f\u{fffd}\ntarget\n");
    let odd = PathPart {
        kind: PartKind::Normal,
        name: PartName::Bytes { raw: vec![b'f', 0xff], shown: "f\u{fffd}".to_string() },
    };
    let mut p = path("/repo/src");
    p.parts.push(odd);

    assert!(ignore.contains(&"f\u{fffd}".to_string()));
    assert!(!ignore.is_ignored(&p));
    p.parts.push(PathPart::named("target".to_string()));
    assert!(ignore.is_ignored(&p));
}

#[test]
fn rules_are_held_against_every_kind_of_component() {
    assert!(from_text("/\n").is_ignored(&path("/repo/a")));
    assert!(!from_text("/\n").is_ignored(&path("repo/a")));
    assert!(from_text("..\n").is_ignored(&path("repo/../a")));
}

#[test]
fn empty_path_is_not_ignored() {
    assert!(!builtin_only().is_ignored(&SyncPath::from_parts(Vec::new())));
}

#[test]
fn cloned_matcher_holds_the_same_rules() {
    let ignore = from_text("dist\n");
    let copy = ignore.clone();

    assert_eq!(copy.len(), 4);
    assert!(copy.is_ignored(&path("/repo/dist/x")));
    assert!(!copy.is_ignored(&path("/repo/src/x")));
}

#[test]
fn rule_file_lies_directly_under_the_source_root() {
    assert_eq!(rule_file_for(&path("/repo")), path("/repo/.syncdignore"));
}

#[test]
fn white_space_is_what_unicode_says() {
    for c in ['\t', '\n', '\u{b}', '\u{c}', '\r', ' ', '\u{85}', '\u{a0}', '\u{1680}', '\u{2000}',
        '\u{200a}', '\u{2028}', '\u{2029}', '\u{202f}', '\u{205f}', '\u{3000}']
    {
        assert!(char_is_space(c));
    }
    for c in ['a', '#', '\u{8}', '\u{e}', '\u{200b}', '\u{feff}', '\u{180e}'] {
        assert!(!char_is_space(c));
    }
    let mut n: u32 = 0;
    while n < 0x3100 {
        if let Some(c) = char::from_u32(n) {
            assert_eq!(char_is_space(c), c.is_whitespace());
        }
        n += 1;
    }
}
