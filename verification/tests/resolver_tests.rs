use lune_modules::resolver::{
    find_module_file, parse_reference, resolve, ModuleRef, ResolveError, Target,
};
use lune_modules::snapshot::{Alias, Config, Entry, Listing, Query, Snapshot};

fn parts(list: &[&str]) -> Vec<String> {
    list.iter().map(|s| s.to_string()).collect()
}

fn file(path: &str) -> Listing {
    Listing { path: path.to_string(), entry: Entry::File(Vec::new()) }
}

fn dir(path: &str) -> Listing {
    Listing { path: path.to_string(), entry: Entry::Directory }
}

fn tree() -> Snapshot {
    Snapshot {
        listings: vec![
            dir("/proj"),
            dir("/proj/src"),
            file("/proj/src/main.luau"),
            file("/proj/src/util.luau"),
            file("/proj/src/old.lua"),
            file("/proj/src/both.luau"),
            file("/proj/src/both.lua"),
            file("/proj/src/exact"),
            file("/proj/src/exact.luau"),
            dir("/proj/pkgs"),
            dir("/proj/pkgs/P"),
            file("/proj/pkgs/P/init.luau"),
            dir("/proj/pkgs/Q"),
            file("/proj/pkgs/Q/init.lua"),
            dir("/proj/pkgs/empty"),
        ],
        configs: vec![
            Config {
                dir: "/proj".to_string(),
                aliases: Some(vec![
                    Alias { name: "pkgs".to_string(), target: "pkgs".to_string() },
                    Alias { name: "shadow".to_string(), target: "pkgs/Q".to_string() },
                ]),
            },
            Config {
                dir: "/proj/src".to_string(),
                aliases: Some(vec![Alias {
                    name: "shadow".to_string(),
                    target: "../pkgs/P".to_string(),
                }]),
            },
        ],
        sealed: true,
    }
}

fn module(path: &[&str]) -> Result<Target, ResolveError> {
    Ok(Target::Module(parts(path)))
}

#[test]
fn reference_forms() {
    assert_eq!(parse_reference("./a"), Ok(ModuleRef::Relative("./a".to_string())));
    assert_eq!(parse_reference("../a"), Ok(ModuleRef::Relative("../a".to_string())));
    assert_eq!(parse_reference("/a"), Ok(ModuleRef::Absolute("/a".to_string())));
    assert_eq!(
        parse_reference("@pkgs/P/x"),
        Ok(ModuleRef::Alias { name: "pkgs".to_string(), rest: Some("P/x".to_string()) })
    );
    assert_eq!(
        parse_reference("@self"),
        Ok(ModuleRef::Alias { name: "self".to_string(), rest: None })
    );
    assert_eq!(parse_reference("bare"), Err(ResolveError::InvalidReferenceForm));
    assert_eq!(parse_reference(""), Err(ResolveError::InvalidReferenceForm));
}

#[test]
fn extension_order_first_match_wins() {
    let snap = tree();
    let src = parts(&["proj", "src"]);
    let none: Vec<String> = Vec::new();
    assert_eq!(resolve(&snap, &none, "./util", &src), module(&["proj", "src", "util.luau"]));
    assert_eq!(resolve(&snap, &none, "./old", &src), module(&["proj", "src", "old.lua"]));
    assert_eq!(resolve(&snap, &none, "./both", &src), module(&["proj", "src", "both.luau"]));
    assert_eq!(resolve(&snap, &none, "./exact", &src), module(&["proj", "src", "exact"]));
    assert_eq!(
        resolve(&snap, &none, "./main.luau", &src),
        module(&["proj", "src", "main.luau"])
    );
}

#[test]
fn directory_resolves_to_its_index() {
    let snap = tree();
    let src = parts(&["proj", "src"]);
    let none: Vec<String> = Vec::new();
    assert_eq!(
        resolve(&snap, &none, "../pkgs/P", &src),
        module(&["proj", "pkgs", "P", "init.luau"])
    );
    assert_eq!(
        resolve(&snap, &none, "../pkgs/Q", &src),
        module(&["proj", "pkgs", "Q", "init.lua"])
    );
    assert_eq!(
        resolve(&snap, &none, "../pkgs/empty", &src),
        Err(ResolveError::ModuleNotFound)
    );
    assert_eq!(
        find_module_file(&snap, &parts(&["proj", "pkgs", "P"])),
        Ok(Some(parts(&["proj", "pkgs", "P", "init.luau"])))
    );
}

#[test]
fn missing_module_and_invalid_form() {
    let snap = tree();
    let src = parts(&["proj", "src"]);
    let none: Vec<String> = Vec::new();
    assert_eq!(resolve(&snap, &none, "./nothing", &src), Err(ResolveError::ModuleNotFound));
    assert_eq!(resolve(&snap, &none, "util", &src), Err(ResolveError::InvalidReferenceForm));
}

#[test]
fn same_file_by_relative_absolute_and_alias() {
    let snap = tree();
    let src = parts(&["proj", "src"]);
    let pkgs = parts(&["proj", "pkgs", "Q"]);
    let none: Vec<String> = Vec::new();
    let expected = module(&["proj", "pkgs", "P", "init.luau"]);
    assert_eq!(resolve(&snap, &none, "../pkgs/P", &src), expected);
    assert_eq!(resolve(&snap, &none, "./../pkgs/./P", &src), expected);
    assert_eq!(resolve(&snap, &none, "/proj/pkgs/P", &src), expected);
    assert_eq!(resolve(&snap, &none, "@pkgs/P", &src), expected);
    assert_eq!(resolve(&snap, &none, "@shadow", &src), expected);
    assert_eq!(resolve(&snap, &none, "../P", &pkgs), expected);
}

#[test]
fn nearest_configuration_shadows_the_ones_above() {
    let snap = tree();
    let none: Vec<String> = Vec::new();
    assert_eq!(
        resolve(&snap, &none, "@shadow", &parts(&["proj", "src"])),
        module(&["proj", "pkgs", "P", "init.luau"])
    );
    assert_eq!(
        resolve(&snap, &none, "@shadow", &parts(&["proj", "pkgs"])),
        module(&["proj", "pkgs", "Q", "init.lua"])
    );
}

#[test]
fn self_alias_is_the_callers_directory() {
    let snap = tree();
    let none: Vec<String> = Vec::new();
    assert_eq!(
        resolve(&snap, &none, "@self/util", &parts(&["proj", "src"])),
        module(&["proj", "src", "util.luau"])
    );
    assert_eq!(
        resolve(&snap, &none, "@self", &parts(&["proj", "pkgs", "P"])),
        module(&["proj", "pkgs", "P", "init.luau"])
    );
}

#[test]
fn unknown_alias_and_builtins() {
    let snap = tree();
    let src = parts(&["proj", "src"]);
    let builtins = vec!["@lune/fs".to_string()];
    assert_eq!(resolve(&snap, &builtins, "@nope/x", &src), Err(ResolveError::UnknownAlias));
    assert_eq!(
        resolve(&snap, &builtins, "@lune/fs", &src),
        Ok(Target::Builtin("@lune/fs".to_string()))
    );
    assert_eq!(
        resolve(&snap, &builtins, "@lune/net", &src),
        Err(ResolveError::UnknownBuiltinModule)
    );
    assert_eq!(resolve(&snap, &builtins, "@lune", &src), Err(ResolveError::UnknownAlias));
}

#[test]
fn open_snapshot_asks_before_it_answers() {
    let mut snap = Snapshot::new();
    let src = parts(&["proj"]);
    let none: Vec<String> = Vec::new();
    assert_eq!(
        resolve(&snap, &none, "./a", &src),
        Err(ResolveError::Unprobed(Query::Entry("/proj/a".to_string())))
    );
    snap.record("/proj/a", Entry::Absent);
    assert_eq!(
        resolve(&snap, &none, "./a", &src),
        Err(ResolveError::Unprobed(Query::Entry("/proj/a.luau".to_string())))
    );
    snap.record("/proj/a.luau", Entry::File(b"return 1".to_vec()));
    assert_eq!(resolve(&snap, &none, "./a", &src), module(&["proj", "a.luau"]));
    assert_eq!(
        resolve(&snap, &none, "@x", &src),
        Err(ResolveError::Unprobed(Query::Config("/proj".to_string())))
    );
    snap.record_config("/proj", None);
    assert_eq!(
        resolve(&snap, &none, "@x", &src),
        Err(ResolveError::Unprobed(Query::Config("/".to_string())))
    );
    snap.record_config("/", None);
    assert_eq!(resolve(&snap, &none, "@x", &src), Err(ResolveError::UnknownAlias));
}

#[test]
fn form_and_builtins_need_no_answer_of_the_snapshot() {
    let open = Snapshot::new();
    let src = parts(&["proj", "src"]);
    let builtins = vec!["@lune/fs".to_string()];
    for text in ["", "x", ".x", "..x", "lib/x"] {
        assert_eq!(resolve(&open, &builtins, text, &src), Err(ResolveError::InvalidReferenceForm));
    }
    assert_eq!(
        resolve(&open, &builtins, "@lune/net", &src),
        Err(ResolveError::UnknownBuiltinModule)
    );
    assert_eq!(
        resolve(&open, &builtins, "@lune/fs", &src),
        Ok(Target::Builtin("@lune/fs".to_string()))
    );
    assert_eq!(resolve(&open, &builtins, "@lune", &src), Err(ResolveError::UnknownAlias));
}
