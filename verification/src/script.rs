//! The location handle of a script, and how the location of a running
//! script is told from the names of the chunks on the call stack.

use crate::path::{
    begins_with, is_dot, is_dotdot, parent, parent_of, parse, parse_path, relative_path,
    relative_text, render_abs, render_names, render_path, render_rel, same_text, split,
    split_text, starts_with, texts,
};
use crate::resolver::{found, resolution, resolve, resolve_location, verdict_of, ResolveError, Target};
use crate::snapshot::Snapshot;
use vstd::prelude::*;
use vstd::string::*;

verus! {

/// A location in the module tree: a fixed path, or the location of the
/// script that is running when the handle is used.
#[derive(Debug, Clone, PartialEq, Eq)]
pub struct ScriptReference {
    path: Option<String>,
}

/// What a script hands to `require`: the text of a reference, or a
/// location handle.
#[derive(Debug, Clone, PartialEq, Eq)]
pub enum RequireArg {
    Text(String),
    Handle(ScriptReference),
}

/// The components of `parts` that count: those that are neither empty
/// nor `.`.
pub open spec fn segments(parts: Seq<Seq<char>>) -> Seq<Seq<char>>
    decreases parts.len(),
{
    if parts.len() == 0 {
        Seq::empty()
    } else if parts.last().len() == 0 || parts.last() == crate::path::dot() {
        segments(parts.drop_last())
    } else {
        segments(parts.drop_last()).push(parts.last())
    }
}

/// The path `text` starts at the root.
pub open spec fn rooted(text: Seq<char>) -> bool {
    text.len() > 0 && text[0] == '/'
}

/// The text of the path with the segments `segs`, from the root or not.
pub open spec fn rebuilt(from_root: bool, segs: Seq<Seq<char>>) -> Seq<char> {
    if from_root {
        render_abs(segs)
    } else {
        render_rel(segs)
    }
}

/// The name of the path `text`: its last segment, or the whole text
/// where it has no segment or ends in `..`.
pub open spec fn name_of(text: Seq<char>) -> Seq<char> {
    let segs = segments(split(text));
    if segs.len() > 0 && segs.last() != crate::path::dotdot() {
        segs.last()
    } else {
        text
    }
}

/// The path that holds the path `text`: `text` without its last segment;
/// nothing for a path without a segment.
pub open spec fn parent_text(text: Seq<char>) -> Option<Seq<char>> {
    let segs = segments(split(text));
    if segs.len() > 0 {
        Some(rebuilt(rooted(text), segs.drop_last()))
    } else {
        None
    }
}

/// The path of the child `name` of the path `text`; a name that starts
/// at the root is that child by itself.
pub open spec fn child_text(text: Seq<char>, name: Seq<char>) -> Seq<char> {
    if rooted(name) {
        rebuilt(true, segments(split(name)))
    } else {
        rebuilt(rooted(text), segments(split(text)) + segments(split(name)))
    }
}

/// `s` holds the character `c`.
pub open spec fn holds(s: Seq<char>, c: char) -> bool {
    exists|i: int| 0 <= i < s.len() && s[i] == c
}

/// The path that the chunk name `source` stands for, as a require sees
/// it: the text behind an `@`, or behind an `=` where that text holds a
/// slash; nothing for native code, the require wrapper and the chunks of
/// the binding layer.
pub open spec fn caller_of_source(source: Seq<char>) -> Option<Seq<char>> {
    let rest = source.skip(1);
    if source == "[C]"@ || source == "=[C]"@ || source == "@[C]"@ || source == "=require_wrapper"@
        || begins_with(source, "__mlua"@) {
        None
    } else if begins_with(source, "@"@) {
        if begins_with(rest, "__mlua"@) || rest == "[C]"@ {
            None
        } else {
            Some(rest)
        }
    } else if begins_with(source, "="@) {
        if begins_with(rest, "__mlua"@) || rest == "[C]"@ || rest == "require_wrapper"@ || !holds(
            rest,
            '/',
        ) {
            None
        } else {
            Some(rest)
        }
    } else {
        None
    }
}

/// The path that the chunk name `source` stands for, as a location
/// handle sees it: the name without a leading `@` or `=`, where it holds
/// a slash or a backslash; nothing for native code and the chunks of the
/// binding layer.
pub open spec fn script_of_source(source: Seq<char>) -> Option<Seq<char>> {
    let path = if begins_with(source, "@"@) || begins_with(source, "="@) {
        source.skip(1)
    } else {
        source
    };
    if source == "[C]"@ || begins_with(source, "__mlua"@) {
        None
    } else if !holds(path, '/') && !holds(path, '\\') {
        None
    } else {
        Some(path)
    }
}

/// The first of the first hundred of `sources` that stands for a path,
/// as a require sees it.
pub open spec fn first_caller(sources: Seq<Seq<char>>) -> Option<Seq<char>>
    decreases sources.len(),
{
    if sources.len() == 0 {
        None
    } else {
        match first_caller(sources.drop_last()) {
            Some(p) => Some(p),
            None => if sources.len() <= 100 {
                caller_of_source(sources.last())
            } else {
                None
            },
        }
    }
}

/// The first of the first hundred of `sources` that stands for a path,
/// as a location handle sees it.
pub open spec fn first_script(sources: Seq<Seq<char>>) -> Option<Seq<char>>
    decreases sources.len(),
{
    if sources.len() == 0 {
        None
    } else {
        match first_script(sources.drop_last()) {
            Some(p) => Some(p),
            None => if sources.len() <= 100 {
                script_of_source(sources.last())
            } else {
                None
            },
        }
    }
}

/// The path of the running script: the current location, where one is
/// known; else what the chunk names on the call stack say; else
/// `[unknown]`.
pub open spec fn running_script(current: Option<Seq<char>>, sources: Seq<Seq<char>>) -> Seq<char> {
    match current {
        Some(c) => c,
        None => match first_script(sources) {
            Some(p) => p,
            None => "[unknown]"@,
        },
    }
}

/// Whether `s` holds the character `c`.
pub fn contains_char(s: &str, c: char) -> (r: bool)
    ensures
        r == holds(s@, c),
{
    let n = s.unicode_len();
    let mut i: usize = 0;
    while i < n
        invariant
            i <= n,
            n == s@.len(),
            forall|j: int| 0 <= j < i ==> s@[j] != c,
        decreases n - i,
    {
        if s.get_char(i) == c {
            return true;
        }
        i += 1;
    }
    false
}

/// `s` without its first character.
fn behind_first(s: &str) -> (r: &str)
    requires
        s@.len() > 0,
    ensures
        r@ == s@.skip(1),
{
    let n = s.unicode_len();
    let r = s.substring_char(1, n);
    assert(r@ =~= s@.skip(1));
    r
}

/// The path that a chunk name stands for, as a require sees it.
pub fn caller_path_of(source: &str) -> (r: Option<String>)
    ensures
        crate::resolver::opt_text(r) == caller_of_source(source@),
{
    if same_text(source, "[C]") || same_text(source, "=[C]") || same_text(source, "@[C]")
        || same_text(source, "=require_wrapper") || starts_with(source, "__mlua") {
        return None;
    }
    if starts_with(source, "@") {
        proof {
            reveal_strlit("@");
        }
        let rest = behind_first(source);
        if starts_with(rest, "__mlua") || same_text(rest, "[C]") {
            return None;
        }
        return Some(String::from_str(rest));
    }
    if starts_with(source, "=") {
        proof {
            reveal_strlit("=");
        }
        let rest = behind_first(source);
        if starts_with(rest, "__mlua") || same_text(rest, "[C]") || same_text(
            rest,
            "require_wrapper",
        ) || !contains_char(rest, '/') {
            return None;
        }
        return Some(String::from_str(rest));
    }
    None
}

/// The path that a chunk name stands for, as a location handle sees it.
pub fn script_path_of(source: &str) -> (r: Option<String>)
    ensures
        crate::resolver::opt_text(r) == script_of_source(source@),
{
    if same_text(source, "[C]") || starts_with(source, "__mlua") {
        return None;
    }
    let path: &str = if starts_with(source, "@") || starts_with(source, "=") {
        proof {
            reveal_strlit("@");
            reveal_strlit("=");
        }
        behind_first(source)
    } else {
        source
    };
    if !contains_char(path, '/') && !contains_char(path, '\\') {
        return None;
    }
    Some(String::from_str(path))
}

/// The path of the calling script: that of the first chunk name, among
/// the first hundred levels of the call stack, that stands for one.
pub fn get_caller_path(sources: &Vec<String>) -> (r: Option<String>)
    ensures
        crate::resolver::opt_text(r) == first_caller(texts(sources@)),
{
    let mut i: usize = 0;
    assert(texts(sources@).take(0) =~= Seq::empty());
    while i < sources.len() && i < 100
        invariant
            i <= sources@.len(),
            i <= 100,
            first_caller(texts(sources@).take(i as int)) is None,
        decreases sources@.len() - i,
    {
        proof {
            let t = texts(sources@).take(i as int + 1);
            assert(t.drop_last() =~= texts(sources@).take(i as int));
            assert(t.last() == sources@[i as int]@);
        }
        match caller_path_of(sources[i].as_str()) {
            Some(p) => {
                proof {
                    lemma_first_caller_stays(texts(sources@), i as int + 1);
                }
                return Some(p);
            },
            None => {},
        }
        i += 1;
    }
    proof {
        lemma_first_caller_stays(texts(sources@), i as int);
    }
    None
}

/// The path of the running script.
pub fn get_script_path_from_stack(current: Option<&str>, sources: &Vec<String>) -> (r: String)
    ensures
        r@ == running_script(crate::loader::opt_str_view(current), texts(sources@)),
{
    match current {
        Some(c) => {
            return String::from_str(c);
        },
        None => {},
    }
    let mut i: usize = 0;
    assert(texts(sources@).take(0) =~= Seq::empty());
    while i < sources.len() && i < 100
        invariant
            i <= sources@.len(),
            i <= 100,
            current is None,
            first_script(texts(sources@).take(i as int)) is None,
        decreases sources@.len() - i,
    {
        proof {
            let t = texts(sources@).take(i as int + 1);
            assert(t.drop_last() =~= texts(sources@).take(i as int));
            assert(t.last() == sources@[i as int]@);
        }
        match script_path_of(sources[i].as_str()) {
            Some(p) => {
                proof {
                    lemma_first_script_stays(texts(sources@), i as int + 1);
                }
                return p;
            },
            None => {},
        }
        i += 1;
    }
    proof {
        lemma_first_script_stays(texts(sources@), i as int);
    }
    String::from_str("[unknown]")
}

/// What the first `k` chunk names give a handle, all of them give.
proof fn lemma_first_script_stays(sources: Seq<Seq<char>>, k: int)
    requires
        0 <= k <= sources.len(),
        first_script(sources.take(k)) is Some || k >= 100 || k == sources.len(),
    ensures
        first_script(sources) == first_script(sources.take(k)),
    decreases sources.len() - k,
{
    if k < sources.len() {
        let t = sources.take(k + 1);
        assert(t.drop_last() =~= sources.take(k));
        lemma_first_script_stays(sources, k + 1);
    } else {
        assert(sources.take(k) =~= sources);
    }
}

/// What the first `k` chunk names give, all of them give: where they
/// give a path, or where `k` is a hundred or more.
proof fn lemma_first_caller_stays(sources: Seq<Seq<char>>, k: int)
    requires
        0 <= k <= sources.len(),
        first_caller(sources.take(k)) is Some || k >= 100 || k == sources.len(),
    ensures
        first_caller(sources) == first_caller(sources.take(k)),
    decreases sources.len() - k,
{
    if k < sources.len() {
        let t = sources.take(k + 1);
        assert(t.drop_last() =~= sources.take(k));
        lemma_first_caller_stays(sources, k + 1);
    } else {
        assert(sources.take(k) =~= sources);
    }
}

/// The segments of the raw components `parts`.
pub fn keep_segments(parts: &Vec<String>) -> (r: Vec<String>)
    ensures
        texts(r@) == segments(texts(parts@)),
{
    let mut out: Vec<String> = Vec::new();
    let mut i: usize = 0;
    assert(texts(parts@).take(0) =~= Seq::empty());
    while i < parts.len()
        invariant
            i <= parts@.len(),
            texts(out@) == segments(texts(parts@).take(i as int)),
        decreases parts@.len() - i,
    {
        proof {
            let t = texts(parts@).take(i as int + 1);
            assert(t.drop_last() =~= texts(parts@).take(i as int));
            assert(t.last() == parts@[i as int]@);
        }
        let c = parts[i].as_str();
        if !(c.unicode_len() == 0 || is_dot(c)) {
            let ghost before = texts(out@);
            out.push(parts[i].clone());
            assert(texts(out@) =~= before.push(c@));
        }
        i += 1;
    }
    assert(texts(parts@).take(i as int) =~= texts(parts@));
    out
}

/// Whether the path `text` starts at the root.
pub fn is_rooted(text: &str) -> (r: bool)
    ensures
        r == rooted(text@),
{
    text.unicode_len() > 0 && text.get_char(0) == '/'
}

/// Writes the path with the segments `segs`, from the root or not.
pub fn rebuild(from_root: bool, segs: &Vec<String>) -> (r: String)
    ensures
        r@ == rebuilt(from_root, texts(segs@)),
{
    if from_root {
        render_path(segs)
    } else {
        render_names(segs)
    }
}

impl View for ScriptReference {
    type V = Option<Seq<char>>;

    /// The value over plain sequences and texts.
    closed spec fn view(&self) -> Option<Seq<char>> {
        crate::resolver::opt_text(self.path)
    }
}

impl ScriptReference {
    /// A handle for the fixed path `path`.
    pub fn new(path: &str) -> (r: ScriptReference)
        ensures
            r@ == Some(path@),
    {
        ScriptReference { path: Some(String::from_str(path)) }
    }

    /// A handle for the script that is running when the handle is used.
    pub fn dynamic() -> (r: ScriptReference)
        ensures
            r@ is None,
    {
        ScriptReference { path: None }
    }

    /// The path of a fixed handle; `[dynamic]` for a dynamic one.
    pub fn path_string(&self) -> (r: String)
        ensures
            r@ == match self@ {
                Some(p) => p,
                None => "[dynamic]"@,
            },
    {
        match &self.path {
            Some(p) => p.clone(),
            None => String::from_str("[dynamic]"),
        }
    }

    /// The path that the handle stands for while the script at `current`
    /// runs: its own, or `current`; `[unknown]` for a dynamic handle
    /// where no script is known to run.
    pub fn resolve_path(&self, current: Option<&str>) -> (r: String)
        ensures
            r@ == match self@ {
                Some(p) => p,
                None => match current {
                    Some(c) => c@,
                    None => "[unknown]"@,
                },
            },
    {
        match &self.path {
            Some(p) => p.clone(),
            None => match current {
                Some(c) => String::from_str(c),
                None => String::from_str("[unknown]"),
            },
        }
    }

    /// The name of the file or directory at `path`.
    pub fn name_from_path(path: &str) -> (r: String)
        ensures
            r@ == name_of(path@),
    {
        let raw = split_text(path);
        let segs = keep_segments(&raw);
        let n = segs.len();
        if n > 0 {
            assert(texts(segs@).last() == segs@[n - 1]@);
            if !is_dotdot(segs[n - 1].as_str()) {
                return segs[n - 1].clone();
            }
        }
        String::from_str(path)
    }

    /// A handle for the directory that holds `path`.
    pub fn parent_from_path(path: &str) -> (r: Option<ScriptReference>)
        ensures
            match r {
                Some(h) => parent_text(path@) is Some && h@ == parent_text(path@),
                None => parent_text(path@) is None,
            },
    {
        let raw = split_text(path);
        let mut segs = keep_segments(&raw);
        if segs.len() == 0 {
            return None;
        }
        let ghost before = texts(segs@);
        segs.pop();
        assert(texts(segs@) =~= before.drop_last());
        let text = rebuild(is_rooted(path), &segs);
        Some(ScriptReference { path: Some(text) })
    }

    /// A handle for the child `name` of `path`. Where `path` is a file,
    /// the child is looked for beside it, in the directory that holds it.
    /// Where the project maps the name to a path, that path is the child.
    pub fn child_from_path(path: &str, name: &str, path_is_file: bool, mapped: Option<&str>) -> (r:
        ScriptReference)
        ensures
            r@ == Some(
                match mapped {
                    Some(m) => m@,
                    None => child_text(
                        if path_is_file && parent_text(path@) is Some {
                            parent_text(path@)->0
                        } else {
                            path@
                        },
                        name@,
                    ),
                },
            ),
    {
        match mapped {
            Some(m) => {
                return ScriptReference::new(m);
            },
            None => {},
        }
        let base: String = if path_is_file {
            match ScriptReference::parent_from_path(path) {
                Some(h) => h.path_string(),
                None => String::from_str(path),
            }
        } else {
            String::from_str(path)
        };
        let ghost wanted = if path_is_file && parent_text(path@) is Some {
            parent_text(path@)->0
        } else {
            path@
        };
        assert(base@ == wanted);
        let name_segs = keep_segments(&split_text(name));
        if is_rooted(name) {
            return ScriptReference { path: Some(rebuild(true, &name_segs)) };
        }
        let mut segs = keep_segments(&split_text(base.as_str()));
        let mut i: usize = 0;
        let ghost start = texts(segs@);
        assert(texts(name_segs@).take(0) =~= Seq::empty());
        assert(start + Seq::<Seq<char>>::empty() =~= start);
        while i < name_segs.len()
            invariant
                i <= name_segs@.len(),
                texts(segs@) == start + texts(name_segs@).take(i as int),
            decreases name_segs@.len() - i,
        {
            let ghost before = texts(segs@);
            segs.push(name_segs[i].clone());
            assert(texts(segs@) =~= before.push(name_segs@[i as int]@));
            i += 1;
            assert(texts(name_segs@).take(i as int) =~= texts(name_segs@).take(i - 1).push(
                name_segs@[i - 1]@,
            ));
            assert(texts(segs@) =~= start + texts(name_segs@).take(i as int));
        }
        assert(texts(name_segs@).take(i as int) =~= texts(name_segs@));
        let text = rebuild(is_rooted(base.as_str()), &segs);
        assert(text@ == child_text(wanted, name@));
        ScriptReference { path: Some(text) }
    }
}

/// The relative path, as text, from the directory of the script at
/// `current_script` to `target_path`: it starts with `./` or `../`, as a
/// relative reference must.
pub fn make_relative_path(current_script: &str, target_path: &str) -> (r: String)
    ensures
        r@ == relative_text(parent(parse(current_script@)), parse(target_path@)),
{
    let current = parse_path(current_script);
    let target = parse_path(target_path);
    let dir = parent_of(&current);
    relative_path(&dir, &target)
}

/// Resolves what a script hands to `require`, in a script of the
/// directory `dir`: the text of a reference as a reference, a location
/// handle as the location that it stands for while the script at
/// `current` runs.
pub fn resolve_require_arg(
    snap: &Snapshot,
    builtins: &Vec<String>,
    arg: &RequireArg,
    dir: &Vec<String>,
    current: Option<&str>,
) -> (r: Result<Target, ResolveError>)
    ensures
        match r {
            Err(ResolveError::Unprobed(q)) => !snap.answers(q) && match *arg {
                RequireArg::Text(t) => crate::resolver::asks(*snap, t@, texts(dir@), q),
                RequireArg::Handle(h) => crate::resolver::asks_candidate(
                    q,
                    parse(
                        match h@ {
                            Some(p) => p,
                            None => match current {
                                Some(c) => c@,
                                None => "[unknown]"@,
                            },
                        },
                    ),
                ),
            },
            _ => verdict_of(r) == Some(
                match *arg {
                    RequireArg::Text(t) => resolution(*snap, texts(builtins@), t@, texts(dir@)),
                    RequireArg::Handle(h) => found(
                        *snap,
                        parse(
                            match h@ {
                                Some(p) => p,
                                None => match current {
                                    Some(c) => c@,
                                    None => "[unknown]"@,
                                },
                            },
                        ),
                    ),
                },
            ),
        },
{
    match arg {
        RequireArg::Text(t) => resolve(snap, builtins, t.as_str(), dir),
        RequireArg::Handle(h) => {
            let text = h.resolve_path(current);
            let at = parse_path(text.as_str());
            resolve_location(snap, &at)
        },
    }
}

/// Pushes the path of a module that starts to run onto the stack of
/// script paths.
pub fn push_script_path(stack: &mut Vec<String>, path: &str)
    ensures
        texts(final(stack)@) == texts(old(stack)@).push(path@),
{
    let ghost before = texts(stack@);
    stack.push(String::from_str(path));
    assert(texts(stack@) =~= before.push(path@));
}

/// Pops the path of a module that has ended from the stack of script
/// paths; an empty stack stays empty.
pub fn pop_script_path(stack: &mut Vec<String>)
    ensures
        texts(final(stack)@) == if old(stack)@.len() > 0 {
            texts(old(stack)@).drop_last()
        } else {
            texts(old(stack)@)
        },
{
    let ghost before = texts(stack@);
    if stack.len() > 0 {
        stack.pop();
        assert(texts(stack@) =~= before.drop_last());
    }
}

/// The path of the module that runs: the top of the stack of script paths.
pub fn get_current_script_path(stack: &Vec<String>) -> (r: Option<String>)
    ensures
        crate::resolver::opt_text(r) == if stack@.len() > 0 {
            Some(texts(stack@).last())
        } else {
            None
        },
{
    let n = stack.len();
    if n > 0 {
        Some(stack[n - 1].clone())
    } else {
        None
    }
}

} // verus!
