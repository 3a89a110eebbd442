use path2enum::config::{parse_extensions, Options};
use path2enum::ident::{identifier, identifier_with, DotPolicy};
use path2enum::model::{build, build_with, Entry};
use path2enum::scan::has_allowed_extension;

fn exts(list: &[&str]) -> Vec<String> {
    list.iter().map(|s| s.to_string()).collect()
}

#[test]
fn digit_leading_segments_are_escaped() {
    assert_eq!(identifier("11-test"), "_11Test");
    assert_eq!(identifier("11-test/11.svg"), "_11Test\u{30CE}_11\u{30FB}svg");
}

#[test]
fn extension_is_a_marked_word() {
    assert_eq!(identifier("arrow-left.svg"), "ArrowLeft\u{30FB}svg");
    assert_eq!(identifier("a.tar.gz"), "A\u{30FB}tar\u{30FB}gz");
}

#[test]
fn dot_as_separator_policy() {
    assert_eq!(identifier_with("arrow-left.svg", DotPolicy::Separator), "ArrowLeftSvg");
    assert_eq!(identifier_with("a.tar.gz", DotPolicy::Separator), "ATarGz");
}

#[test]
fn ampersand_becomes_and() {
    assert_eq!(identifier("salt&pepper"), "SaltAndpepper");
    assert_eq!(identifier("salt & pepper"), "SaltAndPepper");
    assert_eq!(identifier("&"), "And");
}

#[test]
fn empty_and_separator_only_segments() {
    assert_eq!(identifier(""), "_");
    assert_eq!(identifier("-_ "), "_");
    assert_eq!(identifier("a//b"), "A\u{30CE}_\u{30CE}B");
}

#[test]
fn unicode_letters_are_cased() {
    assert_eq!(identifier("émoi"), "Émoi");
    assert_eq!(identifier("ßtraße"), "SStraße");
    assert_eq!(identifier("カタカナ"), "カタカナ");
}

#[test]
fn other_characters_become_word_breaks() {
    assert_eq!(identifier("$cash"), "Cash");
    assert_eq!(identifier("(1)"), "_1");
    assert_eq!(identifier("a+b.svg"), "AB\u{30FB}svg");
    assert_eq!(identifier("c (1).svg"), "C1\u{30FB}svg");
}

#[test]
fn child_identifier_extends_parent() {
    let parent = identifier("nested_dir");
    let child = identifier("nested_dir/icon.svg");
    assert_eq!(child, format!("{}\u{30CE}{}", parent, identifier("icon.svg")));
}

#[test]
fn allowed_extension_is_a_plain_suffix() {
    assert!(has_allowed_extension("a.tar.gz", &exts(&["gz"])));
    assert!(has_allowed_extension("icon.svg", &exts(&["rs", "svg"])));
    assert!(!has_allowed_extension("icon.SVG", &exts(&["svg"])));
    assert!(!has_allowed_extension("svg", &exts(&["svg"])));
    assert!(!has_allowed_extension("iconsvg", &exts(&["svg"])));
    assert!(has_allowed_extension(".svg", &exts(&["svg"])));
    assert!(!has_allowed_extension("icon.svg", &exts(&[])));
}

#[test]
fn extension_list_is_trimmed_and_filtered() {
    assert_eq!(parse_extensions(" rs, svg,,toml "), exts(&["rs", "svg", "toml"]));
    assert_eq!(parse_extensions(""), Vec::<String>::new());
    assert_eq!(parse_extensions(" , "), Vec::<String>::new());
    assert_eq!(parse_extensions("svg"), exts(&["svg"]));
}

#[test]
fn options_default_and_override() {
    let cfg = Options::new().resolve();
    assert_eq!(cfg.root, ".");
    assert_eq!(cfg.extensions, exts(&["svg"]));
    assert_eq!(cfg.prefix, "");

    let mut opts = Options::new();
    assert!(opts.set("path", "tests/assets").is_ok());
    assert!(opts.set("ext", "svg, toml").is_ok());
    assert!(opts.set("prefix", "assets").is_ok());
    let cfg = opts.resolve();
    assert_eq!(cfg.root, "tests/assets");
    assert_eq!(cfg.extensions, exts(&["svg", "toml"]));
    assert_eq!(cfg.prefix, "assets");
}

#[test]
fn unknown_option_is_refused() {
    let mut opts = Options::new();
    let err = opts.set("root", "x").unwrap_err();
    assert_eq!(err.name, "root");
    assert!(opts.root.is_none());
}

fn entry(path: &str, dir: bool) -> Entry {
    Entry { logical_path: path.to_string(), is_directory: dir }
}

#[test]
fn collision_names_both_paths() {
    let entries = vec![entry("x.svg", false), entry("a-b", true), entry("a_b", true)];
    let err = build(&entries).err().expect("collision");
    assert_eq!(err.first, "a-b");
    assert_eq!(err.second, "a_b");
    assert_eq!(err.identifier, "AB");
}

#[test]
fn collision_report_ignores_entry_order() {
    let forward = vec![
        entry("z-y", false),
        entry("z_y", false),
        entry("b c", false),
        entry("b-c", false),
        entry("b_c", false),
    ];
    let mut backward = forward.clone();
    backward.reverse();
    for entries in [forward, backward] {
        let err = build(&entries).err().expect("collision");
        assert_eq!(err.identifier, "BC");
        assert_eq!(err.first, "b c");
        assert_eq!(err.second, "b-c");
    }
}

#[test]
fn duplicate_paths_collapse_before_collision_check() {
    let entries = vec![entry("a-b", true), entry("a-b", false), entry("c", false)];
    let set = build(&entries).expect("no collision");
    assert_eq!(set.len(), 2);
    assert_eq!(set.entries()[0].identifier, "AB");
    assert!(set.entries()[0].is_directory);
    assert_eq!(set.entries()[1].identifier, "C");
}

#[test]
fn rows_ordered_by_code_point() {
    let entries = vec![entry("b", false), entry("B", false), entry("a", false), entry("_z", false)];
    let err = build(&entries).err().expect("b and B collide");
    assert_eq!(err.identifier, "B");
    assert_eq!(err.first, "B");
    assert_eq!(err.second, "b");

    let entries = vec![entry("zeta", false), entry("émoi", false), entry("alpha", false), entry("Beta", false)];
    let set = build(&entries).expect("no collision");
    let ids: Vec<&str> = set.entries().iter().map(|e| e.identifier.as_str()).collect();
    assert_eq!(ids, vec!["Alpha", "Beta", "Zeta", "Émoi"]);
}

#[test]
fn empty_input_compiles_to_empty_set() {
    let set = build(&Vec::new()).expect("no collision");
    assert_eq!(set.len(), 0);
    assert_eq!(set.lookup("_"), None);
}

#[test]
fn dot_policy_reaches_the_compiled_set() {
    let entries = vec![entry("a.svg", false), entry("a-svg", false)];
    let set = build_with(&entries, DotPolicy::Marker).expect("distinct under the marker");
    assert_eq!(set.len(), 2);
    let err = build_with(&entries, DotPolicy::Separator).err().expect("same words");
    assert_eq!(err.identifier, "ASvg");
    assert_eq!(err.first, "a-svg");
    assert_eq!(err.second, "a.svg");
}
