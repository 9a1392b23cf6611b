use lune_modules::packaging::{
    extension_of, path_with_extension, remove_source_file_ext, replace_extension,
    resolve_entry_file, strip_shebang, BuildCommand, BuildError, BuildPlan,
};
use lune_modules::snapshot::{Entry, Listing, Snapshot};

fn parts(list: &[&str]) -> Vec<String> {
    list.iter().map(|s| s.to_string()).collect()
}

fn tree() -> Snapshot {
    let file = |p: &str| Listing { path: p.to_string(), entry: Entry::File(Vec::new()) };
    let dir = |p: &str| Listing { path: p.to_string(), entry: Entry::Directory };
    Snapshot {
        listings: vec![
            dir("/w"),
            file("/w/main.luau"),
            file("/w/plain"),
            dir("/w/app"),
            file("/w/app/init.luau"),
            dir("/w/old"),
            file("/w/old/init.lua"),
            dir("/w/empty"),
        ],
        configs: Vec::new(),
        sealed: true,
    }
}

fn command(input: &str, output: Option<&str>) -> BuildCommand {
    BuildCommand { input: input.to_string(), output: output.map(|s| s.to_string()), target: None }
}

#[test]
fn shebang_line_is_stripped_and_its_line_feed_kept() {
    assert_eq!(strip_shebang(b"#!/usr/bin/env lune\nprint(1)\n".to_vec()), b"\nprint(1)\n".to_vec());
    assert_eq!(strip_shebang(b"print(1)\n#!x\n".to_vec()), b"print(1)\n#!x\n".to_vec());
    assert_eq!(strip_shebang(b"#!no line feed".to_vec()), b"#!no line feed".to_vec());
    assert_eq!(strip_shebang(b"#".to_vec()), b"#".to_vec());
    assert_eq!(strip_shebang(Vec::new()), Vec::<u8>::new());
}

#[test]
fn extensions() {
    assert_eq!(extension_of("main.luau"), Some("luau".to_string()));
    assert_eq!(extension_of("a.b.c"), Some("c".to_string()));
    assert_eq!(extension_of(".hidden"), None);
    assert_eq!(extension_of("plain"), None);
    assert_eq!(replace_extension("main.luau", "exe"), "main.exe");
    assert_eq!(replace_extension("main.luau", ""), "main");
    assert_eq!(replace_extension("plain", "exe"), "plain.exe");
    assert_eq!(replace_extension(".hidden", ""), ".hidden");
    assert_eq!(path_with_extension(&parts(&["w", "a.luau"]), "exe"), parts(&["w", "a.exe"]));
    assert_eq!(remove_source_file_ext(&parts(&["w", "a.luau"])), parts(&["w", "a"]));
    assert_eq!(remove_source_file_ext(&parts(&["w", "a.lua"])), parts(&["w", "a"]));
    assert_eq!(remove_source_file_ext(&parts(&["w", "a.txt"])), parts(&["w", "a.txt"]));
}

#[test]
fn entry_of_a_directory_is_its_index() {
    let snap = tree();
    assert_eq!(resolve_entry_file(&snap, &parts(&["w", "app"])), Ok(parts(&["w", "app", "init.luau"])));
    assert_eq!(resolve_entry_file(&snap, &parts(&["w", "old"])), Ok(parts(&["w", "old", "init.lua"])));
    assert_eq!(resolve_entry_file(&snap, &parts(&["w", "empty"])), Ok(parts(&["w", "empty"])));
    assert_eq!(resolve_entry_file(&snap, &parts(&["w", "main.luau"])), Ok(parts(&["w", "main.luau"])));
}

#[test]
fn default_output_drops_the_script_extension() {
    let snap = tree();
    assert_eq!(
        command("main.luau", None).plan(&snap, "/w", ""),
        Ok(BuildPlan {
            entry_file: "/w/main.luau".to_string(),
            output_path: "/w/main".to_string(),
            directory_module: false,
        })
    );
    assert_eq!(
        command("/w/main.luau", None).plan(&snap, "/elsewhere", "exe"),
        Ok(BuildPlan {
            entry_file: "/w/main.luau".to_string(),
            output_path: "/w/main.exe".to_string(),
            directory_module: false,
        })
    );
}

#[test]
fn directory_module_is_written_to_the_working_directory() {
    let snap = tree();
    assert_eq!(
        command("/w/app", None).plan(&snap, "/home/me", "exe"),
        Ok(BuildPlan {
            entry_file: "/w/app/init.luau".to_string(),
            output_path: "/home/me/app.exe".to_string(),
            directory_module: true,
        })
    );
}

#[test]
fn output_equal_to_input_is_rejected() {
    let snap = tree();
    assert_eq!(
        command("plain", Some("/w/plain")).plan(&snap, "/w", ""),
        Err(BuildError::OutputIsInput { explicit: true })
    );
    assert_eq!(
        command("plain", Some("./x/../plain")).plan(&snap, "/w", ""),
        Err(BuildError::OutputIsInput { explicit: true })
    );
    assert_eq!(
        command("plain", None).plan(&snap, "/w", ""),
        Err(BuildError::OutputIsInput { explicit: false })
    );
    assert_eq!(
        command("app", None).plan(&snap, "/w", ""),
        Err(BuildError::OutputIsInput { explicit: false })
    );
}

#[test]
fn missing_input_and_missing_index() {
    let snap = tree();
    assert_eq!(command("nothing.luau", None).plan(&snap, "/w", ""), Err(BuildError::MissingInput));
    assert_eq!(command("empty", None).plan(&snap, "/w", ""), Err(BuildError::MissingIndex));
}

#[test]
fn open_snapshot_is_asked_about_the_input() {
    let snap = Snapshot::new();
    assert_eq!(
        command("main.luau", None).plan(&snap, "/w", ""),
        Err(BuildError::Unprobed(lune_modules::snapshot::Query::Entry("/w/main.luau".to_string())))
    );
}

#[test]
fn output_spelled_like_the_input_is_rejected_whatever_the_extension() {
    let snap = tree();
    for ext in ["", "exe"] {
        assert_eq!(
            command("main.luau", Some("./main.luau")).plan(&snap, "/w", ext),
            Err(BuildError::OutputIsInput { explicit: true })
        );
        assert_eq!(
            command("main.luau", Some("/w/x/../main.luau")).plan(&snap, "/w", ext),
            Err(BuildError::OutputIsInput { explicit: true })
        );
        assert_eq!(
            command("app", Some("app/init.luau")).plan(&snap, "/w", ext),
            Err(BuildError::OutputIsInput { explicit: true })
        );
        assert_eq!(
            command("app", Some("/w/app")).plan(&snap, "/w", ext),
            Err(BuildError::OutputIsInput { explicit: true })
        );
    }
    assert_eq!(
        command("main.luau", Some("other.luau")).plan(&snap, "/w", "exe"),
        Ok(BuildPlan {
            entry_file: "/w/main.luau".to_string(),
            output_path: "/w/other.exe".to_string(),
            directory_module: false,
        })
    );
}
