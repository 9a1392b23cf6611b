use lune_modules::embedded::{bundled_target, embedded_snapshot};
use lune_modules::resolver::{resolve, ResolveError, Target};
use lune_modules::snapshot::{Entry, Kind};

fn parts(list: &[&str]) -> Vec<String> {
    list.iter().map(|s| s.to_string()).collect()
}

#[test]
fn bundled_alias_leads_to_its_key() {
    let aliases = vec![
        ("@pkgs/P".to_string(), "/pkgs/P/init.luau".to_string()),
        ("@pkgs/Q".to_string(), "/pkgs/Q.luau".to_string()),
        ("@pkgs/P".to_string(), "/other.luau".to_string()),
    ];
    assert_eq!(bundled_target(&aliases, "@pkgs/P"), Some(parts(&["pkgs", "P", "init.luau"])));
    assert_eq!(bundled_target(&aliases, "@pkgs/Q"), Some(parts(&["pkgs", "Q.luau"])));
    assert_eq!(bundled_target(&aliases, "@pkgs"), None);
    assert_eq!(bundled_target(&Vec::new(), "@pkgs/P"), None);
}

#[test]
fn bundle_is_a_sealed_snapshot_of_files_and_their_directories() {
    let files = vec![
        ("/src/main.luau".to_string(), b"require('./lib/x')".to_vec()),
        ("/src/lib/x.luau".to_string(), b"return 1".to_vec()),
        ("/pkgs/P/init.luau".to_string(), b"return 2".to_vec()),
    ];
    let snap = embedded_snapshot(&files);
    assert!(snap.sealed);
    assert!(snap.configs.is_empty());
    assert_eq!(snap.contents("/src/lib/x.luau"), Some(&b"return 1".to_vec()));
    assert_eq!(snap.probe("/src/main.luau"), Some(Kind::File));
    for dir in ["/", "/src", "/src/lib", "/pkgs", "/pkgs/P"] {
        assert_eq!(snap.probe(dir), Some(Kind::Directory));
    }
    assert_eq!(snap.probe("/src/other.luau"), Some(Kind::Absent));
    assert_eq!(snap.listings[0].entry, Entry::File(b"require('./lib/x')".to_vec()));
    let none: Vec<String> = Vec::new();
    assert_eq!(
        resolve(&snap, &none, "./lib/x", &parts(&["src"])),
        Ok(Target::Module(parts(&["src", "lib", "x.luau"])))
    );
    assert_eq!(
        resolve(&snap, &none, "../pkgs/P", &parts(&["src"])),
        Ok(Target::Module(parts(&["pkgs", "P", "init.luau"])))
    );
    assert_eq!(
        resolve(&snap, &none, "./missing", &parts(&["src"])),
        Err(ResolveError::ModuleNotFound)
    );
}
