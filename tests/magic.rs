use path2enum::config::parse_extensions;
use path2enum::model::{build, CompiledSet};
use path2enum::scan::{DirItem, ItemKind, Scan};

enum Node {
    Dir(&'static str, Vec<Node>),
    File(&'static str),
}

fn walk(scan: &mut Scan, nodes: &[Node], rel: &str, prefix: &str, exts: &[String]) {
    let listing: Vec<DirItem> = nodes
        .iter()
        .map(|n| match n {
            Node::Dir(name, _) => DirItem { name: name.to_string(), kind: ItemKind::Directory },
            Node::File(name) => DirItem { name: name.to_string(), kind: ItemKind::File },
        })
        .collect();
    let subdirs = scan.visit_listing(Some(listing), rel, prefix, exts);
    let children: Vec<&Vec<Node>> = nodes
        .iter()
        .filter_map(|n| match n {
            Node::Dir(_, c) => Some(c),
            Node::File(_) => None,
        })
        .collect();
    assert_eq!(subdirs.len(), children.len());
    for (sub, kids) in subdirs.iter().zip(children) {
        walk(scan, kids, sub, prefix, exts);
    }
}

fn compile(tree: &[Node], ext: &str, prefix: &str) -> CompiledSet {
    let exts = parse_extensions(ext);
    let mut scan = Scan::new();
    walk(&mut scan, tree, "", prefix, &exts);
    build(&scan.into_entries()).expect("no collision")
}

fn assets() -> Vec<Node> {
    vec![
        Node::File("arrow-left.svg"),
        Node::File("home.svg"),
        Node::Dir("11-test", vec![Node::File("11.svg")]),
        Node::Dir(
            "nested_dir",
            vec![
                Node::File("icon.svg"),
                Node::Dir("deep_dir", vec![Node::File("deep-icon.svg")]),
            ],
        ),
    ]
}

fn project() -> Vec<Node> {
    vec![
        Node::File("Cargo.toml"),
        Node::File("README.md"),
        Node::Dir("src", vec![Node::File("lib.rs")]),
        Node::Dir(
            "tests",
            vec![Node::File("magic.rs"), Node::Dir("assets", assets())],
        ),
    ]
}

fn path(set: &CompiledSet, id: &str) -> String {
    set.lookup(id).expect("identifier present")
}

#[test]
fn magic_generation() {
    let public_paths = compile(&assets(), "svg,toml", "");

    assert_eq!(path(&public_paths, "ArrowLeft\u{30FB}svg"), "arrow-left.svg");
    assert_eq!(
        path(&public_paths, "NestedDir\u{30CE}Icon\u{30FB}svg"),
        "nested_dir/icon.svg"
    );
    assert_eq!(
        path(&public_paths, "NestedDir\u{30CE}DeepDir\u{30CE}DeepIcon\u{30FB}svg"),
        "nested_dir/deep_dir/deep-icon.svg"
    );
}

#[test]
fn publicpaths_directories_and_files() {
    let public_paths = compile(&assets(), "svg,toml", "");

    assert_eq!(path(&public_paths, "ArrowLeft\u{30FB}svg"), "arrow-left.svg");
    assert_eq!(
        path(&public_paths, "NestedDir\u{30CE}Icon\u{30FB}svg"),
        "nested_dir/icon.svg"
    );
    assert_eq!(
        path(&public_paths, "NestedDir\u{30CE}DeepDir\u{30CE}DeepIcon\u{30FB}svg"),
        "nested_dir/deep_dir/deep-icon.svg"
    );

    assert_eq!(path(&public_paths, "NestedDir"), "nested_dir");
    assert_eq!(
        path(&public_paths, "NestedDir\u{30CE}DeepDir"),
        "nested_dir/deep_dir"
    );
}

#[test]
fn magic() {
    let project_paths = compile(&project(), "rs,svg,toml", "");
    assert_eq!(path(&project_paths, "Src\u{30CE}Lib\u{30FB}rs"), "src/lib.rs");
    assert_eq!(
        path(&project_paths, "Tests\u{30CE}Assets\u{30CE}ArrowLeft\u{30FB}svg"),
        "tests/assets/arrow-left.svg"
    );
    assert_eq!(path(&project_paths, "Cargo\u{30FB}toml"), "Cargo.toml");
}

#[test]
fn icons() {
    let icons = compile(&assets(), "svg", "assets");

    assert_eq!(path(&icons, "Assets\u{30CE}Home\u{30FB}svg"), "assets/home.svg");
    assert_eq!(
        path(&icons, "Assets\u{30CE}_11Test\u{30CE}_11\u{30FB}svg"),
        "assets/11-test/11.svg"
    );
    assert_eq!(
        path(&icons, "Assets\u{30CE}NestedDir\u{30CE}DeepDir\u{30CE}DeepIcon\u{30FB}svg"),
        "assets/nested_dir/deep_dir/deep-icon.svg"
    );
}

#[test]
fn icons_directories_and_files() {
    let icons = compile(&assets(), "svg", "assets");

    assert_eq!(path(&icons, "Assets\u{30CE}Home\u{30FB}svg"), "assets/home.svg");
    assert_eq!(
        path(&icons, "Assets\u{30CE}_11Test\u{30CE}_11\u{30FB}svg"),
        "assets/11-test/11.svg"
    );
    assert_eq!(
        path(&icons, "Assets\u{30CE}NestedDir\u{30CE}DeepDir\u{30CE}DeepIcon\u{30FB}svg"),
        "assets/nested_dir/deep_dir/deep-icon.svg"
    );
    assert_eq!(path(&icons, "Assets\u{30CE}_11Test"), "assets/11-test");
    assert_eq!(
        path(&icons, "Assets\u{30CE}NestedDir\u{30CE}DeepDir"),
        "assets/nested_dir/deep_dir"
    );

    assert_ne!(
        path(&icons, "Assets\u{30CE}_11Test"),
        path(&icons, "Assets\u{30CE}_11Test\u{30CE}_11\u{30FB}svg")
    );
}

#[test]
fn compiled_rows_are_sorted_and_complete() {
    let set = compile(&assets(), "svg", "");
    let ids: Vec<&str> = set.entries().iter().map(|e| e.identifier.as_str()).collect();
    let mut sorted = ids.clone();
    sorted.sort();
    assert_eq!(ids, sorted);
    // five files, three directories
    assert_eq!(set.len(), 8);
    assert_eq!(set.entries().iter().filter(|e| e.is_directory).count(), 3);
}

#[test]
fn compiling_twice_gives_the_same_rows() {
    let a = compile(&project(), "rs,svg,toml", "p");
    let b = compile(&project(), "rs,svg,toml", "p");
    let rows = |s: &CompiledSet| -> Vec<(String, String, bool)> {
        s.entries()
            .iter()
            .map(|e| (e.identifier.clone(), e.logical_path.clone(), e.is_directory))
            .collect()
    };
    assert_eq!(rows(&a), rows(&b));
}

#[test]
fn every_identifier_looks_up_its_own_path() {
    let set = compile(&project(), "rs,svg,toml,md", "");
    for e in set.entries() {
        assert_eq!(set.lookup(&e.identifier), Some(e.logical_path.clone()));
    }
    assert_eq!(set.lookup("NoSuchThing"), None);
}

#[test]
fn unreadable_directory_yields_only_its_own_entry() {
    let exts = parse_extensions("svg");
    let mut scan = Scan::new();
    let listing = vec![
        DirItem { name: "locked".to_string(), kind: ItemKind::Directory },
        DirItem { name: "ok.svg".to_string(), kind: ItemKind::File },
    ];
    let subdirs = scan.visit_listing(Some(listing), "", "", &exts);
    assert_eq!(subdirs, vec!["locked".to_string()]);
    let below = scan.visit_listing(None, "locked", "", &exts);
    assert!(below.is_empty());
    let set = build(&scan.into_entries()).expect("no collision");
    assert_eq!(set.len(), 2);
    assert_eq!(set.lookup("Locked"), Some("locked".to_string()));
    assert_eq!(set.lookup("Ok\u{30FB}svg"), Some("ok.svg".to_string()));
}

#[test]
fn directory_and_file_coexist() {
    let tree = vec![Node::Dir("nested_dir", vec![Node::File("icon.svg")])];
    let set = compile(&tree, "svg", "");
    assert_eq!(set.len(), 2);
    let dir = &set.entries()[0];
    let file = &set.entries()[1];
    assert_eq!(dir.logical_path, "nested_dir");
    assert!(dir.is_directory);
    assert_eq!(file.logical_path, "nested_dir/icon.svg");
    assert!(!file.is_directory);
    assert_ne!(dir.identifier, file.identifier);
    assert!(file.identifier.starts_with(&format!("{}\u{30CE}", dir.identifier)));
}

#[test]
fn prefix_leads_paths_and_identifiers() {
    let tree = vec![Node::File("home.svg")];
    let set = compile(&tree, "svg", "assets");
    assert_eq!(set.len(), 1);
    let row = &set.entries()[0];
    assert_eq!(row.logical_path, "assets/home.svg");
    assert!(row.identifier.starts_with("Assets\u{30CE}"));
    assert_eq!(row.identifier, "Assets\u{30CE}Home\u{30FB}svg");
}

#[test]
fn other_items_and_unlisted_extensions_are_skipped() {
    let exts = parse_extensions("svg");
    let mut scan = Scan::new();
    let listing = vec![
        DirItem { name: "link.svg".to_string(), kind: ItemKind::Other },
        DirItem { name: "notes.txt".to_string(), kind: ItemKind::File },
        DirItem { name: "logo.SVG".to_string(), kind: ItemKind::File },
        DirItem { name: "logo.svg".to_string(), kind: ItemKind::File },
    ];
    let subdirs = scan.visit_listing(Some(listing), "img", "", &exts);
    assert!(subdirs.is_empty());
    let entries = scan.into_entries();
    assert_eq!(entries.len(), 1);
    assert_eq!(entries[0].logical_path, "img/logo.svg");
    assert!(!entries[0].is_directory);
}

#[test]
fn repeated_paths_are_kept_once() {
    let exts = parse_extensions("svg");
    let mut scan = Scan::new();
    let listing = vec![DirItem { name: "a.svg".to_string(), kind: ItemKind::File }];
    scan.visit_listing(Some(listing.clone()), "", "", &exts);
    scan.visit_listing(Some(listing), "", "", &exts);
    let entries = scan.into_entries();
    assert_eq!(entries.len(), 1);
}
