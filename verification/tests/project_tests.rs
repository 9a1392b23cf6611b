use lune_modules::bundler::Bundler;
use lune_modules::metadata::{check, Metadata, MetadataError};
use lune_modules::project::{
    find_project_home, get_child, get_declared_path, project_tree, resolve_through_project, Node,
};
use lune_modules::script::{
    get_current_script_path, get_script_path_from_stack, pop_script_path, push_script_path,
};
use lune_modules::snapshot::{Entry, Listing, Query, Snapshot};

fn parts(list: &[&str]) -> Vec<String> {
    list.iter().map(|s| s.to_string()).collect()
}

fn text(s: &str) -> Node {
    Node { text: Some(s.to_string()), members: None }
}

fn object(members: Vec<(&str, Node)>) -> Node {
    Node {
        text: None,
        members: Some(members.into_iter().map(|(k, v)| (k.to_string(), v)).collect()),
    }
}

fn project() -> Node {
    object(vec![
        ("name", text("demo")),
        (
            "tree",
            object(vec![
                ("$className", text("DataModel")),
                (
                    "src",
                    object(vec![
                        ("$path", text("src")),
                        ("Packages", object(vec![("$path", text("vendor/pkgs"))])),
                        ("NoPath", object(vec![])),
                        ("notAnObject", text("x")),
                    ]),
                ),
                ("Shared", object(vec![("$path", text("lib/shared"))])),
            ]),
        ),
    ])
}

#[test]
fn children_and_declared_paths() {
    let file = project();
    let tree = project_tree(&file).unwrap();
    assert!(get_child(tree, "$className").is_none());
    let src = get_child(tree, "src").unwrap();
    assert_eq!(get_declared_path(src), Some(&"src".to_string()));
    assert!(get_child(src, "notAnObject").is_none());
    assert!(get_child(src, "missing").is_none());
    assert_eq!(get_declared_path(get_child(src, "NoPath").unwrap()), None);
}

#[test]
fn child_is_mapped_through_the_project_tree() {
    let file = project();
    let tree = project_tree(&file).unwrap();
    let root = parts(&["proj"]);
    assert_eq!(
        resolve_through_project(tree, &root, &parts(&["proj", "src"]), "Packages"),
        Some(parts(&["proj", "vendor", "pkgs"]))
    );
    assert_eq!(
        resolve_through_project(tree, &root, &root, "Shared"),
        Some(parts(&["proj", "lib", "shared"]))
    );
    assert_eq!(resolve_through_project(tree, &root, &parts(&["proj", "src"]), "NoPath"), None);
    assert_eq!(resolve_through_project(tree, &root, &parts(&["proj", "src"]), "other"), None);
    assert_eq!(resolve_through_project(tree, &root, &parts(&["elsewhere"]), "Shared"), None);
    assert_eq!(
        resolve_through_project(tree, &root, &parts(&["proj", "unknown"]), "Packages"),
        None
    );
}

#[test]
fn project_home_is_the_nearest_directory_with_a_project_file() {
    let snap = Snapshot {
        listings: vec![
            Listing { path: "/w/default.project.json".to_string(), entry: Entry::File(Vec::new()) },
            Listing {
                path: "/w/proj/default.project.json".to_string(),
                entry: Entry::File(Vec::new()),
            },
        ],
        configs: Vec::new(),
        sealed: true,
    };
    assert_eq!(find_project_home(&snap, &parts(&["w", "proj", "src"])), Ok(Some(parts(&["w", "proj"]))));
    assert_eq!(find_project_home(&snap, &parts(&["w", "other"])), Ok(Some(parts(&["w"]))));
    assert_eq!(find_project_home(&snap, &parts(&["x"])), Ok(None));
    let open = Snapshot::new();
    assert_eq!(
        find_project_home(&open, &parts(&["x"])),
        Err(Query::Entry("/x/default.project.json".to_string()))
    );
}

#[test]
fn script_path_stack() {
    let mut stack: Vec<String> = Vec::new();
    assert_eq!(get_current_script_path(&stack), None);
    pop_script_path(&mut stack);
    assert!(stack.is_empty());
    push_script_path(&mut stack, "/p/a.luau");
    push_script_path(&mut stack, "/p/b.luau");
    assert_eq!(get_current_script_path(&stack), Some("/p/b.luau".to_string()));
    pop_script_path(&mut stack);
    assert_eq!(get_current_script_path(&stack), Some("/p/a.luau".to_string()));
    pop_script_path(&mut stack);
    assert_eq!(get_current_script_path(&stack), None);
}

#[test]
fn running_script_from_location_or_stack() {
    let stack = vec!["[C]".to_string(), "=stdin".to_string(), "@/p/a.luau".to_string()];
    assert_eq!(get_script_path_from_stack(Some("/p/cur.luau"), &stack), "/p/cur.luau");
    assert_eq!(get_script_path_from_stack(None, &stack), "/p/a.luau");
    assert_eq!(get_script_path_from_stack(None, &vec!["[C]".to_string()]), "[unknown]");
}

#[test]
fn patched_binary_is_host_plus_encoding() {
    let host = b"host bytes".to_vec();
    let files = vec![("/main.luau".to_string(), b"return 1".to_vec())];
    let bin = Metadata::create_env_patched_bin(
        host.clone(),
        b"return 1".to_vec(),
        "/main.luau".to_string(),
        files.clone(),
        Vec::new(),
    );
    assert!(bin.starts_with(&host));
    assert!(bin.ends_with(b"cr3sc3nt"));
    let meta = Metadata::from_bytes(&bin).unwrap();
    assert_eq!(meta.source, b"return 1".to_vec());
    assert_eq!(meta.entry_path, "/main.luau");
    assert_eq!(meta.files, files);
    assert_eq!(Metadata::check_env(bin.clone()), (true, bin.clone()));
    assert_eq!(check(bin.clone()), Some(bin));
    assert_eq!(check(host.clone()), None);
    assert_eq!(Metadata::check_env(host.clone()), (false, host));
}

#[test]
fn large_payload_round_trip() {
    let big: Vec<u8> = (0..3_000_000u32).map(|i| (i % 251) as u8).collect();
    let m = Metadata {
        source: big.clone(),
        entry_path: "/e".to_string(),
        files: vec![("/big".to_string(), big)],
        aliases: Vec::new(),
    };
    let bytes = m.to_bytes();
    assert_eq!(Metadata::from_bytes(&bytes), Ok(m));
}

#[test]
fn malformed_payload_is_corrupt() {
    let frame = |payload: &[u8]| {
        let mut bytes = payload.to_vec();
        bytes.extend_from_slice(&(payload.len() as u64).to_be_bytes());
        bytes.extend_from_slice(b"cr3sc3nt");
        bytes
    };
    // an unknown tag
    assert_eq!(Metadata::from_bytes(&frame(&[9, 0, 0, 0, 0, 0, 0, 0, 0])), Err(MetadataError::CorruptMetadata));
    // a chunk that announces more than there is
    assert_eq!(Metadata::from_bytes(&frame(&[1, 0, 0, 0, 0, 0, 0, 0, 5, 1])), Err(MetadataError::CorruptMetadata));
    // an entry path that is no UTF-8
    let mut payload = vec![1u8, 0, 0, 0, 0, 0, 0, 0, 0, 2, 0, 0, 0, 0, 0, 0, 0, 1, 0xFF];
    assert_eq!(Metadata::from_bytes(&frame(&payload)), Err(MetadataError::CorruptMetadata));
    // no entry path at all
    payload.truncate(9);
    assert_eq!(Metadata::from_bytes(&frame(&payload)), Err(MetadataError::CorruptMetadata));
    // an empty payload
    assert_eq!(Metadata::from_bytes(&frame(&[])), Err(MetadataError::CorruptMetadata));
}

#[test]
fn key_of_a_path_under_and_outside_the_root() {
    let snap = Snapshot {
        listings: vec![Listing { path: "/p/a.luau".to_string(), entry: Entry::File(Vec::new()) }],
        configs: Vec::new(),
        sealed: true,
    };
    let bundler = Bundler::new(&snap, "/p/a.luau").unwrap();
    assert_eq!(bundler.base_dir(), "/p");
    assert_eq!(bundler.normalize_path(&parts(&["p", "x", "y.luau"])), "/x/y.luau");
    assert_eq!(bundler.normalize_path(&parts(&["q", "y.luau"])), "/q/y.luau");
    assert_eq!(bundler.normalize_path(&parts(&["p"])), "/");
}
