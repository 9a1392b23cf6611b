//! From a module reference and the directory of the script that wrote it
//! to the file that it names.
//!
//! A reference is relative (`./`, `../`), absolute (`/`) or an alias (`@`).
//! It is first followed, as text, to a location ([`location`]); the
//! location is then matched against the files of a snapshot ([`locate`]).

use crate::path::{
    append_ext, begins_with, child_of, copy_parts, join, join_text, parse, parse_path, render_abs,
    render_path, same_text, split, split_text, starts_with, texts, walk, walk_from, with_ext,
};
use crate::snapshot::{lookup_alias, Kind, Query, Snapshot};
use vstd::prelude::*;
use vstd::string::*;

verus! {

/// How a reference is written.
#[derive(Debug, Clone, PartialEq, Eq)]
pub enum ModuleRef {
    /// A path from the directory of the calling script.
    Relative(String),
    /// A path from the root.
    Absolute(String),
    /// An alias name and, behind a slash, the path that follows it.
    Alias { name: String, rest: Option<String> },
}

/// The file or built-in module that a reference names.
#[derive(Debug, Clone, PartialEq, Eq)]
pub enum Target {
    /// A file, by its canonical components.
    Module(Vec<String>),
    /// A module that the host has registered, by its key.
    Builtin(String),
}

/// Why a reference names nothing.
#[derive(Debug, Clone, PartialEq, Eq)]
pub enum ResolveError {
    /// The reference starts with none of `./`, `../`, `/` and `@`.
    InvalidReferenceForm,
    /// No file answers to the location that the reference leads to.
    ModuleNotFound,
    /// No configuration from the caller's directory up declares the alias.
    UnknownAlias,
    /// The host has registered no module under the key.
    UnknownBuiltinModule,
    /// The snapshot does not answer a question that the resolution depends on.
    Unprobed(Query),
}

/// What a reference resolves to, over plain values.
pub enum Verdict {
    Module(Seq<Seq<char>>),
    Builtin(Seq<char>),
    InvalidReferenceForm,
    ModuleNotFound,
    UnknownAlias,
    UnknownBuiltinModule,
}

/// The reference is relative: it starts with `./` or `../`.
pub open spec fn is_relative(text: Seq<char>) -> bool {
    begins_with(text, "./"@) || begins_with(text, "../"@)
}

/// The reference is absolute: it starts with `/`.
pub open spec fn is_absolute(text: Seq<char>) -> bool {
    begins_with(text, "/"@)
}

/// The reference is an alias: it starts with `@`.
pub open spec fn is_alias(text: Seq<char>) -> bool {
    begins_with(text, "@"@)
}

/// The number of characters of `s` before its first slash.
pub open spec fn name_len(s: Seq<char>) -> nat
    decreases s.len(),
{
    if s.len() == 0 || s[0] == '/' {
        0
    } else {
        1 + name_len(s.drop_first())
    }
}

/// The name of the alias reference `text`: what stands between its `@` and
/// its first slash.
pub open spec fn alias_name(text: Seq<char>) -> Seq<char> {
    text.skip(1).take(name_len(text.skip(1)) as int)
}

/// What follows the first slash of the alias reference `text`, if it has one.
pub open spec fn alias_rest(text: Seq<char>) -> Option<Seq<char>> {
    let body = text.skip(1);
    let k = name_len(body);
    if k < body.len() {
        Some(body.skip(k as int + 1))
    } else {
        None
    }
}

/// The nearest directory, from `dir` upward, whose configuration declares
/// `name`, and what it declares it to stand for.
pub open spec fn alias_home(snap: Snapshot, dir: Seq<Seq<char>>, name: Seq<char>) -> Option<
    (Seq<Seq<char>>, Seq<char>),
>
    decreases dir.len(),
{
    match snap.alias_at(render_abs(dir), name) {
        Some(value) => Some((dir, value)),
        None => if dir.len() == 0 {
            None
        } else {
            alias_home(snap, dir.drop_last(), name)
        },
    }
}

/// `at`, or where `rest` leads from it.
pub open spec fn join_rest(at: Seq<Seq<char>>, rest: Option<Seq<char>>) -> Seq<Seq<char>> {
    match rest {
        Some(r) => join(at, r),
        None => at,
    }
}

/// The file that answers to the location `at`. The first of these that is
/// a file: `at` itself; `at` with `.luau`, then with `.lua`, added to its
/// name; where `at` is a directory, its `init.luau`, then its `init.lua`.
pub open spec fn locate(snap: Snapshot, at: Seq<Seq<char>>) -> Option<Seq<Seq<char>>> {
    if snap.is_file(render_abs(at)) {
        Some(at)
    } else if at.len() > 0 && snap.is_file(render_abs(with_ext(at, "luau"@))) {
        Some(with_ext(at, "luau"@))
    } else if at.len() > 0 && snap.is_file(render_abs(with_ext(at, "lua"@))) {
        Some(with_ext(at, "lua"@))
    } else if snap.is_dir(render_abs(at)) && snap.is_file(render_abs(at.push("init.luau"@))) {
        Some(at.push("init.luau"@))
    } else if snap.is_dir(render_abs(at)) && snap.is_file(render_abs(at.push("init.lua"@))) {
        Some(at.push("init.lua"@))
    } else {
        None
    }
}

/// The verdict on a reference that leads to the location `at`.
pub open spec fn found(snap: Snapshot, at: Seq<Seq<char>>) -> Verdict {
    match locate(snap, at) {
        Some(p) => Verdict::Module(p),
        None => Verdict::ModuleNotFound,
    }
}

/// The reference names a built-in module: its alias name is `lune` and a
/// path follows.
pub open spec fn is_builtin_ref(text: Seq<char>) -> bool {
    is_alias(text) && alias_name(text) == "lune"@ && alias_rest(text) is Some
}

/// The location that the reference `text`, written in a script of the
/// directory `dir`, leads to: `None` where it is no path into the
/// filesystem (a built-in, an alias that nothing declares, another form).
pub open spec fn location(snap: Snapshot, text: Seq<char>, dir: Seq<Seq<char>>) -> Option<
    Seq<Seq<char>>,
> {
    if is_relative(text) {
        Some(walk(dir, split(text)))
    } else if is_absolute(text) {
        Some(parse(text))
    } else if is_alias(text) {
        if alias_name(text) == "lune"@ {
            None
        } else if alias_name(text) == "self"@ {
            Some(join_rest(dir, alias_rest(text)))
        } else {
            match alias_home(snap, dir, alias_name(text)) {
                Some((home, value)) => Some(join_rest(join(home, value), alias_rest(text))),
                None => None,
            }
        }
    } else {
        None
    }
}

/// What the reference `text`, written in a script of the directory `dir`,
/// resolves to.
pub open spec fn resolution(
    snap: Snapshot,
    builtins: Seq<Seq<char>>,
    text: Seq<char>,
    dir: Seq<Seq<char>>,
) -> Verdict {
    match location(snap, text, dir) {
        Some(at) => found(snap, at),
        None => if is_builtin_ref(text) {
            if builtins.contains(text) {
                Verdict::Builtin(text)
            } else {
                Verdict::UnknownBuiltinModule
            }
        } else if is_alias(text) {
            Verdict::UnknownAlias
        } else {
            Verdict::InvalidReferenceForm
        },
    }
}

/// `q` asks what is at the path `text`.
pub open spec fn asks_path(q: Query, text: Seq<char>) -> bool {
    match q {
        Query::Entry(t) => t@ == text,
        Query::Config(_) => false,
    }
}

/// `text` is one of the paths that the search for the file at `at`
/// looks at: `at`, `at` with one of the two extensions, or one of the
/// two index files of `at`.
pub open spec fn is_candidate(at: Seq<Seq<char>>, text: Seq<char>) -> bool {
    ||| text == render_abs(at)
    ||| at.len() > 0 && text == render_abs(with_ext(at, "luau"@))
    ||| at.len() > 0 && text == render_abs(with_ext(at, "lua"@))
    ||| text == render_abs(at.push("init.luau"@))
    ||| text == render_abs(at.push("init.lua"@))
}

/// `q` asks what is at one of the paths that the search for the file at
/// `at` looks at.
pub open spec fn asks_candidate(q: Query, at: Seq<Seq<char>>) -> bool {
    match q {
        Query::Entry(t) => is_candidate(at, t@),
        Query::Config(_) => false,
    }
}

/// `text` is the directory `dir` or one of the directories above it.
pub open spec fn is_above(dir: Seq<Seq<char>>, text: Seq<char>) -> bool {
    exists|k: int| 0 <= k <= dir.len() && text == render_abs(#[trigger] dir.take(k))
}

/// `q` asks for the configuration of `dir` or of a directory above it.
pub open spec fn asks_config(q: Query, dir: Seq<Seq<char>>) -> bool {
    match q {
        Query::Entry(_) => false,
        Query::Config(d) => is_above(dir, d@),
    }
}

/// `q` asks what is at the file `name` of `dir` or of a directory above it.
pub open spec fn asks_named_above(q: Query, dir: Seq<Seq<char>>, name: Seq<char>) -> bool {
    match q {
        Query::Entry(t) => exists|k: int|
            0 <= k <= dir.len() && t@ == render_abs((#[trigger] dir.take(k)).push(name)),
        Query::Config(_) => false,
    }
}

/// The reference `text` is an alias that configurations are searched
/// for: it is neither `@lune` nor `@self`.
pub open spec fn searches_configs(text: Seq<char>) -> bool {
    &&& !is_relative(text)
    &&& !is_absolute(text)
    &&& is_alias(text)
    &&& alias_name(text) != "lune"@
    &&& alias_name(text) != "self"@
}

/// `q` is a question that the resolution of the reference `text`,
/// written in a script of the directory `dir`, depends on: what is at a
/// path that the search for the file at its location looks at, or, for
/// an alias, the configuration of a directory from `dir` upward.
pub open spec fn asks(snap: Snapshot, text: Seq<char>, dir: Seq<Seq<char>>, q: Query) -> bool {
    ||| match location(snap, text, dir) {
        Some(at) => asks_candidate(q, at),
        None => false,
    }
    ||| searches_configs(text) && asks_config(q, dir)
}

/// The verdict that a result stands for; none for an unanswered question.
pub open spec fn verdict_of(r: Result<Target, ResolveError>) -> Option<Verdict> {
    match r {
        Ok(Target::Module(p)) => Some(Verdict::Module(texts(p@))),
        Ok(Target::Builtin(k)) => Some(Verdict::Builtin(k@)),
        Err(ResolveError::InvalidReferenceForm) => Some(Verdict::InvalidReferenceForm),
        Err(ResolveError::ModuleNotFound) => Some(Verdict::ModuleNotFound),
        Err(ResolveError::UnknownAlias) => Some(Verdict::UnknownAlias),
        Err(ResolveError::UnknownBuiltinModule) => Some(Verdict::UnknownBuiltinModule),
        Err(ResolveError::Unprobed(_)) => None,
    }
}

/// The text of an optional string.
pub open spec fn opt_text(s: Option<String>) -> Option<Seq<char>> {
    match s {
        Some(t) => Some(t@),
        None => None,
    }
}

/// The number of characters of `s`, from position `from` on, before the
/// next slash.
fn count_name(s: &str, from: usize) -> (k: usize)
    requires
        from <= s@.len(),
    ensures
        k == name_len(s@.skip(from as int)),
        from + k <= s@.len(),
{
    let n = s.unicode_len();
    let mut i: usize = from;
    assert(s@.skip(from as int).skip(0) =~= s@.skip(from as int));
    while i < n && s.get_char(i) != '/'
        invariant
            from <= i <= n,
            n == s@.len(),
            name_len(s@.skip(from as int)) == (i - from) + name_len(s@.skip(i as int)),
        decreases n - i,
    {
        proof {
            let t = s@.skip(i as int);
            assert(t[0] == s@[i as int]);
            assert(t.drop_first() =~= s@.skip(i + 1));
        }
        i += 1;
    }
    proof {
        let t = s@.skip(i as int);
        if i < n {
            assert(t[0] == s@[i as int]);
        }
        assert(name_len(t) == 0);
    }
    i - from
}

/// Reads how a reference is written.
pub fn parse_reference(text: &str) -> (r: Result<ModuleRef, ResolveError>)
    ensures
        match r {
            Ok(ModuleRef::Relative(p)) => is_relative(text@) && p@ == text@,
            Ok(ModuleRef::Absolute(p)) => !is_relative(text@) && is_absolute(text@) && p@
                == text@,
            Ok(ModuleRef::Alias { name, rest }) => !is_relative(text@) && !is_absolute(text@)
                && is_alias(text@) && name@ == alias_name(text@) && opt_text(rest) == alias_rest(
                text@,
            ),
            Err(e) => e == ResolveError::InvalidReferenceForm && !is_relative(text@)
                && !is_absolute(text@) && !is_alias(text@),
        },
{
    if starts_with(text, "./") || starts_with(text, "../") {
        Ok(ModuleRef::Relative(text.to_owned()))
    } else if starts_with(text, "/") {
        Ok(ModuleRef::Absolute(text.to_owned()))
    } else if starts_with(text, "@") {
        proof {
            reveal_strlit("@");
        }
        let n = text.unicode_len();
        let k = count_name(text, 1);
        let name = text.substring_char(1, 1 + k);
        assert(name@ =~= alias_name(text@));
        let rest = if 1 + k < n {
            let tail = text.substring_char(1 + k + 1, n);
            assert(tail@ =~= text@.skip(1).skip(k + 1));
            Some(tail.to_owned())
        } else {
            None
        };
        Ok(ModuleRef::Alias { name: name.to_owned(), rest })
    } else {
        Err(ResolveError::InvalidReferenceForm)
    }
}

/// Whether a file is at the location `at`, where the snapshot says.
fn file_at(snap: &Snapshot, at: &Vec<String>) -> (r: Result<bool, ResolveError>)
    ensures
        match r {
            Ok(b) => b == snap.is_file(render_abs(texts(at@))),
            Err(e) => e matches ResolveError::Unprobed(q) && !snap.answers(q) && asks_path(
                q,
                render_abs(texts(at@)),
            ),
        },
{
    let text = render_path(at);
    match snap.probe(text.as_str()) {
        Some(kind) => Ok(kind == Kind::File || kind == Kind::Unreadable),
        None => Err(ResolveError::Unprobed(Query::Entry(text))),
    }
}

/// Whether a directory is at the location `at`, where the snapshot says.
fn dir_at(snap: &Snapshot, at: &Vec<String>) -> (r: Result<bool, ResolveError>)
    ensures
        match r {
            Ok(b) => b == snap.is_dir(render_abs(texts(at@))),
            Err(e) => e matches ResolveError::Unprobed(q) && !snap.answers(q) && asks_path(
                q,
                render_abs(texts(at@)),
            ),
        },
{
    let text = render_path(at);
    match snap.probe(text.as_str()) {
        Some(kind) => Ok(kind == Kind::Directory),
        None => Err(ResolveError::Unprobed(Query::Entry(text))),
    }
}

/// Finds the file that answers to the location `at`.
pub fn find_module_file(snap: &Snapshot, at: &Vec<String>) -> (r: Result<
    Option<Vec<String>>,
    ResolveError,
>)
    ensures
        match r {
            Ok(Some(p)) => locate(*snap, texts(at@)) == Some(texts(p@)),
            Ok(None) => locate(*snap, texts(at@)) is None,
            Err(e) => e matches ResolveError::Unprobed(q) && !snap.answers(q) && asks_candidate(
                q,
                texts(at@),
            ),
        },
{
    if file_at(snap, at)? {
        return Ok(Some(copy_parts(at)));
    }
    if at.len() > 0 {
        let luau = append_ext(at, "luau");
        if file_at(snap, &luau)? {
            return Ok(Some(luau));
        }
        let lua = append_ext(at, "lua");
        if file_at(snap, &lua)? {
            return Ok(Some(lua));
        }
    }
    if dir_at(snap, at)? {
        let init_luau = child_of(at, "init.luau");
        if file_at(snap, &init_luau)? {
            return Ok(Some(init_luau));
        }
        let init_lua = child_of(at, "init.lua");
        if file_at(snap, &init_lua)? {
            return Ok(Some(init_lua));
        }
    }
    Ok(None)
}

/// Finds the nearest directory, from `dir` upward, whose configuration
/// declares `name`, and where the declared value leads from there.
pub fn find_alias(snap: &Snapshot, dir: &Vec<String>, name: &str) -> (r: Result<
    Option<Vec<String>>,
    ResolveError,
>)
    ensures
        match r {
            Ok(Some(p)) => alias_home(*snap, texts(dir@), name@) matches Some((home, value))
                && texts(p@) == join(home, value),
            Ok(None) => alias_home(*snap, texts(dir@), name@) is None,
            Err(e) => e matches ResolveError::Unprobed(q) && !snap.answers(q) && asks_config(
                q,
                texts(dir@),
            ),
        },
{
    let mut cur = copy_parts(dir);
    let ghost mut depth: int = dir@.len() as int;
    assert(texts(dir@).take(depth) =~= texts(dir@));
    loop
        invariant
            0 <= depth <= dir@.len(),
            texts(cur@) == texts(dir@).take(depth),
            alias_home(*snap, texts(dir@), name@) == alias_home(*snap, texts(cur@), name@),
        decreases cur@.len(),
    {
        let text = render_path(&cur);
        match snap.find_config(text.as_str()) {
            Some(i) => {
                match &snap.configs[i].aliases {
                    Some(aliases) => {
                        match lookup_alias(aliases, name) {
                            Some(value) => {
                                let p = join_text(&cur, value.as_str());
                                return Ok(Some(p));
                            },
                            None => {},
                        }
                    },
                    None => {},
                }
            },
            None => {
                if !snap.sealed {
                    return Err(ResolveError::Unprobed(Query::Config(text)));
                }
            },
        }
        if cur.len() == 0 {
            return Ok(None);
        }
        let ghost before = texts(cur@);
        cur.pop();
        assert(texts(cur@) =~= before.drop_last());
        proof {
            depth = depth - 1;
            assert(texts(dir@).take(depth) =~= before.drop_last());
        }
    }
}

/// Whether `text` is one of `list`.
pub fn contains_text(list: &Vec<String>, text: &str) -> (r: bool)
    ensures
        r == texts(list@).contains(text@),
{
    let mut i: usize = 0;
    while i < list.len()
        invariant
            i <= list@.len(),
            forall|j: int| 0 <= j < i ==> texts(list@)[j] != text@,
        decreases list@.len() - i,
    {
        if same_text(list[i].as_str(), text) {
            assert(texts(list@)[i as int] == text@);
            return true;
        }
        i += 1;
    }
    false
}

/// Follows `rest`, if there is one, from `at`.
fn join_optional(at: Vec<String>, rest: &Option<String>) -> (r: Vec<String>)
    ensures
        texts(r@) == join_rest(texts(at@), opt_text(*rest)),
{
    match rest {
        Some(t) => join_text(&at, t.as_str()),
        None => at,
    }
}

/// Resolves the location `at`: the file that answers to it, or that none does.
pub fn resolve_location(snap: &Snapshot, at: &Vec<String>) -> (r: Result<Target, ResolveError>)
    ensures
        match r {
            Err(ResolveError::Unprobed(q)) => !snap.answers(q) && asks_candidate(q, texts(at@)),
            _ => verdict_of(r) == Some(found(*snap, texts(at@))),
        },
{
    match find_module_file(snap, at)? {
        Some(p) => Ok(Target::Module(p)),
        None => Err(ResolveError::ModuleNotFound),
    }
}

/// Resolves the reference `text`, written in a script of the directory
/// `dir`, against the snapshot and the keys of the registered built-in
/// modules. An open snapshot that lacks an answer which the resolution
/// depends on gives `Unprobed` with the question; any other result is
/// the [`resolution`]. A reference of no form, and a reference to a
/// built-in module, depend on no answer.
pub fn resolve(snap: &Snapshot, builtins: &Vec<String>, text: &str, dir: &Vec<String>) -> (r:
    Result<Target, ResolveError>)
    ensures
        match r {
            Err(ResolveError::Unprobed(q)) => !snap.answers(q) && asks(
                *snap,
                text@,
                texts(dir@),
                q,
            ),
            _ => verdict_of(r) == Some(resolution(*snap, texts(builtins@), text@, texts(dir@))),
        },
        r matches Err(ResolveError::InvalidReferenceForm) <==> !is_relative(text@) && !is_absolute(
            text@,
        ) && !is_alias(text@),
        is_builtin_ref(text@) && !is_relative(text@) && !is_absolute(text@) ==> r matches Ok(
            Target::Builtin(_),
        ) || r matches Err(ResolveError::UnknownBuiltinModule),
{
    match parse_reference(text) {
        Err(_) => Err(ResolveError::InvalidReferenceForm),
        Ok(ModuleRef::Relative(p)) => {
            let raw = split_text(p.as_str());
            let at = walk_from(copy_parts(dir), &raw);
            resolve_location(snap, &at)
        },
        Ok(ModuleRef::Absolute(p)) => {
            let at = parse_path(p.as_str());
            resolve_location(snap, &at)
        },
        Ok(ModuleRef::Alias { name, rest }) => {
            if same_text(name.as_str(), "lune") {
                if rest.is_some() {
                    if contains_text(builtins, text) {
                        Ok(Target::Builtin(text.to_owned()))
                    } else {
                        Err(ResolveError::UnknownBuiltinModule)
                    }
                } else {
                    Err(ResolveError::UnknownAlias)
                }
            } else if same_text(name.as_str(), "self") {
                let at = join_optional(copy_parts(dir), &rest);
                resolve_location(snap, &at)
            } else {
                match find_alias(snap, dir, name.as_str())? {
                    Some(base) => {
                        let at = join_optional(base, &rest);
                        resolve_location(snap, &at)
                    },
                    None => Err(ResolveError::UnknownAlias),
                }
            }
        },
    }
}

/// Two references that lead to one location resolve alike, however each
/// is written and whatever directory each was written in.
pub proof fn law_same_location_same_module(
    snap: Snapshot,
    builtins: Seq<Seq<char>>,
    text1: Seq<char>,
    dir1: Seq<Seq<char>>,
    text2: Seq<char>,
    dir2: Seq<Seq<char>>,
)
    requires
        location(snap, text1, dir1) is Some,
        location(snap, text1, dir1) == location(snap, text2, dir2),
    ensures
        resolution(snap, builtins, text1, dir1) == resolution(snap, builtins, text2, dir2),
{
}

/// A reference that is neither relative nor absolute nor an alias, and
/// a reference to `@lune`, depend on no answer of the snapshot: what
/// they resolve to is owed on every snapshot.
pub proof fn law_form_and_builtin_ask_nothing(
    snap: Snapshot,
    text: Seq<char>,
    dir: Seq<Seq<char>>,
    q: Query,
)
    requires
        !is_relative(text),
        !is_absolute(text),
        !is_alias(text) || alias_name(text) == "lune"@,
    ensures
        !asks(snap, text, dir, q),
{
}

} // verus!
