use lune_modules::global::LuneStandardGlobal;
use lune_modules::resolver::{ResolveError, Target};
use lune_modules::script::{
    caller_path_of, get_caller_path, make_relative_path, resolve_require_arg, script_path_of,
    RequireArg, ScriptReference,
};
use lune_modules::snapshot::{Entry, Listing, Snapshot};

#[test]
fn static_and_dynamic_handles() {
    let fixed = ScriptReference::new("/proj/src/main.luau");
    assert_eq!(fixed.path_string(), "/proj/src/main.luau");
    assert_eq!(fixed.resolve_path(Some("/other.luau")), "/proj/src/main.luau");
    let dynamic = ScriptReference::dynamic();
    assert_eq!(dynamic.path_string(), "[dynamic]");
    assert_eq!(dynamic.resolve_path(Some("/proj/a.luau")), "/proj/a.luau");
    assert_eq!(dynamic.resolve_path(None), "[unknown]");
}

#[test]
fn name_parent_and_child() {
    assert_eq!(ScriptReference::name_from_path("/proj/src/main.luau"), "main.luau");
    assert_eq!(ScriptReference::name_from_path("/"), "/");
    assert_eq!(ScriptReference::name_from_path("a/.."), "a/..");
    assert_eq!(
        ScriptReference::parent_from_path("/proj/src/main.luau"),
        Some(ScriptReference::new("/proj/src"))
    );
    assert_eq!(ScriptReference::parent_from_path("/proj"), Some(ScriptReference::new("/")));
    assert_eq!(ScriptReference::parent_from_path("/"), None);
    assert_eq!(ScriptReference::parent_from_path("a"), Some(ScriptReference::new("")));
    assert_eq!(
        ScriptReference::child_from_path("/proj/src", "util", false, None),
        ScriptReference::new("/proj/src/util")
    );
    assert_eq!(
        ScriptReference::child_from_path("/proj/src/main.luau", "util", true, None),
        ScriptReference::new("/proj/src/util")
    );
    assert_eq!(
        ScriptReference::child_from_path("/proj/src", "Packages", false, Some("/proj/pkgs")),
        ScriptReference::new("/proj/pkgs")
    );
}

#[test]
fn relative_path_for_require() {
    assert_eq!(make_relative_path("/proj/src/main.luau", "/proj/src/lib/x.luau"), "./lib/x.luau");
    assert_eq!(make_relative_path("/proj/src/main.luau", "/proj/pkgs/P"), "../pkgs/P");
}

#[test]
fn chunk_names_of_callers() {
    assert_eq!(caller_path_of("@/proj/a.luau"), Some("/proj/a.luau".to_string()));
    assert_eq!(caller_path_of("=/proj/a.luau"), Some("/proj/a.luau".to_string()));
    assert_eq!(caller_path_of("=stdin"), None);
    assert_eq!(caller_path_of("[C]"), None);
    assert_eq!(caller_path_of("=[C]"), None);
    assert_eq!(caller_path_of("@[C]"), None);
    assert_eq!(caller_path_of("=require_wrapper"), None);
    assert_eq!(caller_path_of("__mlua_async_poll"), None);
    assert_eq!(caller_path_of("@__mlua_x"), None);
    assert_eq!(caller_path_of("plain"), None);
    assert_eq!(caller_path_of("@relative"), Some("relative".to_string()));
    assert_eq!(script_path_of("@/proj/a.luau"), Some("/proj/a.luau".to_string()));
    assert_eq!(script_path_of("C:\\proj\\a.luau"), Some("C:\\proj\\a.luau".to_string()));
    assert_eq!(script_path_of("@relative"), None);
    assert_eq!(script_path_of("[C]"), None);
}

#[test]
fn first_caller_on_the_stack() {
    let stack = vec![
        "[C]".to_string(),
        "=require_wrapper".to_string(),
        "@/proj/b.luau".to_string(),
        "@/proj/a.luau".to_string(),
    ];
    assert_eq!(get_caller_path(&stack), Some("/proj/b.luau".to_string()));
    assert_eq!(get_caller_path(&vec!["[C]".to_string()]), None);
    let mut deep: Vec<String> = (0..100).map(|_| "[C]".to_string()).collect();
    deep.push("@/proj/a.luau".to_string());
    assert_eq!(get_caller_path(&deep), None);
}

#[test]
fn handle_resolves_to_its_own_path() {
    let snap = Snapshot {
        listings: vec![
            Listing { path: "/proj/lib".to_string(), entry: Entry::Directory },
            Listing { path: "/proj/lib/init.luau".to_string(), entry: Entry::File(Vec::new()) },
            Listing { path: "/proj/a.luau".to_string(), entry: Entry::File(Vec::new()) },
        ],
        configs: Vec::new(),
        sealed: true,
    };
    let none: Vec<String> = Vec::new();
    let dir = vec!["elsewhere".to_string()];
    let handle = RequireArg::Handle(ScriptReference::new("/proj/lib"));
    assert_eq!(
        resolve_require_arg(&snap, &none, &handle, &dir, None),
        Ok(Target::Module(vec!["proj".to_string(), "lib".to_string(), "init.luau".to_string()]))
    );
    let dynamic = RequireArg::Handle(ScriptReference::dynamic());
    assert_eq!(
        resolve_require_arg(&snap, &none, &dynamic, &dir, Some("/proj/a.luau")),
        Ok(Target::Module(vec!["proj".to_string(), "a.luau".to_string()]))
    );
    let text = RequireArg::Text("./a".to_string());
    assert_eq!(
        resolve_require_arg(&snap, &none, &text, &vec!["proj".to_string()], None),
        Ok(Target::Module(vec!["proj".to_string(), "a.luau".to_string()]))
    );
    assert_eq!(
        resolve_require_arg(&snap, &none, &RequireArg::Text("a".to_string()), &dir, None),
        Err(ResolveError::InvalidReferenceForm)
    );
}

#[test]
fn globals_by_name() {
    assert_eq!(LuneStandardGlobal::GTable.name(), "_G");
    assert_eq!(LuneStandardGlobal::Version.name(), "_VERSION");
    assert_eq!(LuneStandardGlobal::from_str("  Require "), Ok(LuneStandardGlobal::Require));
    assert_eq!(LuneStandardGlobal::from_str("_g"), Ok(LuneStandardGlobal::GTable));
    assert_eq!(LuneStandardGlobal::from_str("CFRAME"), Ok(LuneStandardGlobal::CFrame));
    assert_eq!(
        LuneStandardGlobal::from_str(" Nope"),
        Err("Unknown standard global 'nope'\nValid globals are: CFrame, Color3, _G, NumberRange, print, require, script, task, Vector2, Vector3, _VERSION, warn".to_string())
    );
    assert_eq!(LuneStandardGlobal::all().len(), 12);
    for g in LuneStandardGlobal::all() {
        assert_eq!(LuneStandardGlobal::from_str(g.name()), Ok(g));
    }
}

#[test]
fn relative_path_leads_back_to_the_target() {
    let snap = Snapshot {
        listings: vec![
            Listing { path: "/proj/pkgs/P/init.luau".to_string(), entry: Entry::File(Vec::new()) },
            Listing { path: "/proj/pkgs/P".to_string(), entry: Entry::Directory },
            Listing { path: "/proj/src/lib/x.luau".to_string(), entry: Entry::File(Vec::new()) },
        ],
        configs: Vec::new(),
        sealed: true,
    };
    let none: Vec<String> = Vec::new();
    let dir = vec!["proj".to_string(), "src".to_string()];
    for target in ["/proj/pkgs/P", "/proj/src/lib/x.luau"] {
        let relative = make_relative_path("/proj/src/main.luau", target);
        let by_relative =
            resolve_require_arg(&snap, &none, &RequireArg::Text(relative), &dir, None);
        let by_handle = resolve_require_arg(
            &snap,
            &none,
            &RequireArg::Handle(ScriptReference::new(target)),
            &dir,
            None,
        );
        assert!(by_relative.is_ok());
        assert_eq!(by_relative, by_handle);
    }
}

#[test]
fn white_space_of_every_kind_is_trimmed() {
    assert_eq!(LuneStandardGlobal::from_str("  REQUIRE "), Ok(LuneStandardGlobal::Require));
    assert_eq!(
        LuneStandardGlobal::from_str("\t\n\u{2003}warn\u{00A0}\u{3000}\r"),
        Ok(LuneStandardGlobal::Warn)
    );
    assert!(LuneStandardGlobal::from_str("\u{200B}warn").is_err());
    assert!(LuneStandardGlobal::from_str("wa rn").is_err());
}
