use lune_modules::bundler::{find_project_root, BundleResult, Bundler};
use lune_modules::scan::scan_requires;
use lune_modules::snapshot::{Alias, Config, Entry, Listing, Query, Snapshot};
use lune_modules::walk::BundleError;

fn file(path: &str, source: &str) -> Listing {
    Listing { path: path.to_string(), entry: Entry::File(source.as_bytes().to_vec()) }
}

fn dir(path: &str) -> Listing {
    Listing { path: path.to_string(), entry: Entry::Directory }
}

fn sealed(listings: Vec<Listing>, configs: Vec<Config>) -> Snapshot {
    Snapshot { listings, configs, sealed: true }
}

fn bundle(snap: &Snapshot, entry: &str) -> (Result<BundleResult, BundleError>, String) {
    let mut bundler = Bundler::new(snap, entry).expect("the pattern compiles");
    let result = bundler.bundle(snap, entry);
    (result, bundler.base_dir())
}

fn keys(bundle: &BundleResult) -> Vec<String> {
    let mut keys: Vec<String> = bundle.files.iter().map(|f| f.0.clone()).collect();
    keys.sort();
    keys
}

#[test]
fn scan_finds_literal_requires_in_order() {
    let source = b"local a = require(\"./a\")\nlocal b = require ( './b' )\nrequire(name)\n-- require(\"@lune/fs\")".to_vec();
    assert_eq!(
        scan_requires(&source),
        Some(vec!["./a".to_string(), "./b".to_string(), "@lune/fs".to_string()])
    );
    assert_eq!(scan_requires(&b"print('no requires here')".to_vec()), Some(Vec::new()));
}

#[test]
fn chain_of_three_files() {
    let snap = sealed(
        vec![
            dir("/proj"),
            file("/proj/a.luau", "local b = require(\"./b\")"),
            file("/proj/b.luau", "local c = require('./c')"),
            file("/proj/c.luau", "return 1"),
            file("/proj/unrelated.luau", "return 2"),
        ],
        Vec::new(),
    );
    let (result, base) = bundle(&snap, "/proj/a.luau");
    let result = result.unwrap();
    assert_eq!(keys(&result), vec!["/a.luau", "/b.luau", "/c.luau"]);
    assert_eq!(base, "/proj");
    assert!(result.aliases.is_empty());
    let b = result.files.iter().find(|f| f.0 == "/b.luau").unwrap();
    assert_eq!(b.1, b"local c = require('./c')".to_vec());
}

#[test]
fn cycle_terminates_with_both_files() {
    let snap = sealed(
        vec![
            file("/proj/a.luau", "require('./b')"),
            file("/proj/b.luau", "require('./a')"),
        ],
        Vec::new(),
    );
    let (result, _) = bundle(&snap, "/proj/a.luau");
    assert_eq!(keys(&result.unwrap()), vec!["/a.luau", "/b.luau"]);
}

#[test]
fn diamond_is_bundled_once() {
    let snap = sealed(
        vec![
            file("/p/a.luau", "require('./b') require('./c')"),
            file("/p/b.luau", "require('./d')"),
            file("/p/c.luau", "require('./d') require('./d.luau')"),
            file("/p/d.luau", "return {}"),
        ],
        Vec::new(),
    );
    let (result, _) = bundle(&snap, "/p/a.luau");
    assert_eq!(keys(&result.unwrap()), vec!["/a.luau", "/b.luau", "/c.luau", "/d.luau"]);
}

#[test]
fn alias_to_a_sibling_package_is_root_relative() {
    let snap = sealed(
        vec![
            dir("/proj"),
            dir("/proj/src"),
            file("/proj/src/.luaurc", "{\"aliases\":{\"pkgs\":\"../pkgs\"}}"),
            file("/proj/src/main.luau", "local P = require(\"@pkgs/P\")"),
            dir("/proj/pkgs"),
            dir("/proj/pkgs/P"),
            file("/proj/pkgs/P/init.luau", "return {}"),
        ],
        vec![Config {
            dir: "/proj/src".to_string(),
            aliases: Some(vec![Alias { name: "pkgs".to_string(), target: "../pkgs".to_string() }]),
        }],
    );
    assert_eq!(
        find_project_root(&snap, &vec!["proj".to_string(), "src".to_string(), "main.luau".to_string()]),
        Ok(vec!["proj".to_string(), "src".to_string()])
    );
    let (result, base) = bundle(&snap, "/proj/src/main.luau");
    let result = result.unwrap();
    assert_eq!(base, "/proj");
    assert_eq!(keys(&result), vec!["/pkgs/P/init.luau", "/src/main.luau"]);
    assert_eq!(
        result.aliases,
        vec![("@pkgs/P".to_string(), "/pkgs/P/init.luau".to_string())]
    );
}

#[test]
fn highest_configuration_is_the_first_root() {
    let snap = sealed(
        vec![
            file("/w/.luaurc", "{}"),
            file("/w/proj/src/.luaurc", "{}"),
            file("/w/proj/src/main.luau", "return 1"),
        ],
        Vec::new(),
    );
    let (result, base) = bundle(&snap, "/w/proj/src/main.luau");
    assert_eq!(base, "/w");
    assert_eq!(keys(&result.unwrap()), vec!["/proj/src/main.luau"]);
}

#[test]
fn builtins_unresolved_and_bare_references_are_left_out() {
    let snap = sealed(
        vec![file(
            "/p/a.luau",
            "require('@lune/fs') require('./missing') require('@nope/x') require('bare')",
        )],
        Vec::new(),
    );
    let (result, _) = bundle(&snap, "/p/a.luau");
    let result = result.unwrap();
    assert_eq!(keys(&result), vec!["/a.luau"]);
    assert!(result.aliases.is_empty());
}

#[test]
fn self_alias_is_followed_and_not_recorded() {
    let snap = sealed(
        vec![
            file("/p/a.luau", "require('@self/b')"),
            file("/p/b.luau", "return 1"),
        ],
        Vec::new(),
    );
    let (result, _) = bundle(&snap, "/p/a.luau");
    let result = result.unwrap();
    assert_eq!(keys(&result), vec!["/a.luau", "/b.luau"]);
    assert!(result.aliases.is_empty());
}

#[test]
fn unreadable_entry_is_an_io_error() {
    let snap = sealed(Vec::new(), Vec::new());
    let (result, _) = bundle(&snap, "/p/a.luau");
    assert_eq!(result, Err(BundleError::Io("/p/a.luau".to_string())));
}

#[test]
fn unreadable_dependency_is_an_io_error() {
    let snap = sealed(
        vec![
            file("/p/a.luau", "require('./b')"),
            Listing { path: "/p/b.luau".to_string(), entry: Entry::Unreadable },
        ],
        Vec::new(),
    );
    let (result, _) = bundle(&snap, "/p/a.luau");
    assert_eq!(result, Err(BundleError::Io("/p/b.luau".to_string())));
}

#[test]
fn open_snapshot_is_filled_on_demand() {
    let disk = sealed(
        vec![
            file("/p/a.luau", "require('./b')"),
            file("/p/b.luau", "return 1"),
        ],
        Vec::new(),
    );
    let mut snap = Snapshot::new();
    let mut rounds = 0;
    let result = loop {
        rounds += 1;
        assert!(rounds < 100);
        let attempt = match Bundler::new(&snap, "/p/a.luau") {
            Ok(mut bundler) => bundler.bundle(&snap, "/p/a.luau"),
            Err(e) => Err(e),
        };
        match attempt {
            Err(BundleError::Unprobed(Query::Entry(path))) => {
                let entry = disk
                    .listings
                    .iter()
                    .find(|l| l.path == path)
                    .map(|l| l.entry.clone())
                    .unwrap_or(Entry::Absent);
                snap.record(&path, entry);
            }
            Err(BundleError::Unprobed(Query::Config(dir))) => snap.record_config(&dir, None),
            other => break other,
        }
    };
    assert_eq!(keys(&result.unwrap()), vec!["/a.luau", "/b.luau"]);
}

#[test]
fn scan_reads_bytes_that_are_no_utf8() {
    let mut source = vec![0xFFu8, 0xFE, b'\n'];
    source.extend_from_slice(b"local a = require('./a')");
    assert_eq!(scan_requires(&source), Some(vec!["./a".to_string()]));
}

#[test]
fn references_are_expanded_onto_the_waiting_list() {
    let snap = sealed(
        vec![file("/p/a.luau", ""), file("/p/b.lua", ""), dir("/p/c")],
        Vec::new(),
    );
    let dir_parts = vec!["p".to_string()];
    let lits = vec![
        "./a".to_string(),
        "./missing".to_string(),
        "./b".to_string(),
        "@lune/fs".to_string(),
        "./a.luau".to_string(),
    ];
    let mut queue = vec![vec!["first".to_string()]];
    assert_eq!(lune_modules::walk::expand(&snap, &dir_parts, &lits, &mut queue), Ok(()));
    assert_eq!(
        queue,
        vec![
            vec!["first".to_string()],
            vec!["p".to_string(), "a.luau".to_string()],
            vec!["p".to_string(), "b.lua".to_string()],
            vec!["p".to_string(), "a.luau".to_string()],
        ]
    );
    let open = Snapshot::new();
    let mut queue: Vec<Vec<String>> = Vec::new();
    assert_eq!(
        lune_modules::walk::expand(&open, &dir_parts, &lits, &mut queue),
        Err(BundleError::Unprobed(Query::Entry("/p/a".to_string())))
    );
}

#[test]
fn files_stand_in_the_order_of_the_visits() {
    let snap = sealed(
        vec![
            file("/p/a.luau", "require('./b') require('./c')"),
            file("/p/b.luau", "require('./d')"),
            file("/p/c.luau", "return 1"),
            file("/p/d.luau", "return 2"),
        ],
        Vec::new(),
    );
    let (first, _) = bundle(&snap, "/p/a.luau");
    let (second, _) = bundle(&snap, "/p/a.luau");
    let order: Vec<String> = first.as_ref().unwrap().files.iter().map(|f| f.0.clone()).collect();
    assert_eq!(order, vec!["/a.luau", "/c.luau", "/b.luau", "/d.luau"]);
    assert_eq!(first, second);
}

#[test]
fn later_visit_decides_an_alias_that_two_files_resolve_differently() {
    let alias = |dir: &str, target: &str| Config {
        dir: dir.to_string(),
        aliases: Some(vec![Alias { name: "lib".to_string(), target: target.to_string() }]),
    };
    let snap = sealed(
        vec![
            file("/p/main.luau", "require('./x/m') require('./y/m')"),
            file("/p/x/m.luau", "require('@lib')"),
            file("/p/y/m.luau", "require('@lib')"),
            file("/p/x/one.luau", "return 1"),
            file("/p/y/two.luau", "return 2"),
        ],
        vec![alias("/p/x", "./one"), alias("/p/y", "./two")],
    );
    let (result, _) = bundle(&snap, "/p/main.luau");
    let result = result.unwrap();
    let order: Vec<String> = result.files.iter().map(|f| f.0.clone()).collect();
    assert_eq!(
        order,
        vec!["/main.luau", "/y/m.luau", "/y/two.luau", "/x/m.luau", "/x/one.luau"]
    );
    assert_eq!(result.aliases, vec![("@lib".to_string(), "/x/one.luau".to_string())]);
}

#[test]
fn first_unreadable_file_of_the_walk_is_named() {
    let snap = sealed(
        vec![
            file("/p/a.luau", "require('./b') require('./c')"),
            Listing { path: "/p/b.luau".to_string(), entry: Entry::Unreadable },
            Listing { path: "/p/c.luau".to_string(), entry: Entry::Unreadable },
        ],
        Vec::new(),
    );
    let (result, _) = bundle(&snap, "/p/a.luau");
    assert_eq!(result, Err(BundleError::Io("/p/c.luau".to_string())));
}
