//! What the packaging command decides before anything is written: which
//! file is the entry, where the standalone binary goes, and that the one
//! is not the other.

use crate::path::{child_of, copy_parts, join, join_text, render_abs, render_path, same_parts, same_text, texts};
use crate::snapshot::{Kind, Query, Snapshot};
use vstd::prelude::*;
use vstd::string::*;

verus! {

/// The packaging command: the input file or directory, where to write
/// the standalone binary, and the target to build for.
#[derive(Debug, Clone, PartialEq, Eq)]
pub struct BuildCommand {
    pub input: String,
    pub output: Option<String>,
    pub target: Option<String>,
}

/// What the command has decided.
#[derive(Debug, Clone, PartialEq, Eq)]
pub struct BuildPlan {
    /// The absolute path of the entry script.
    pub entry_file: String,
    /// The absolute path of the standalone binary to write.
    pub output_path: String,
    /// The input is a directory and the entry script its index file.
    pub directory_module: bool,
}

/// Why the command cannot go on.
#[derive(Debug, Clone, PartialEq, Eq)]
pub enum BuildError {
    /// The input is a directory without an index file.
    MissingIndex,
    /// The input does not exist.
    MissingInput,
    /// The output would overwrite the input; `explicit` where the output
    /// was given and not derived.
    OutputIsInput { explicit: bool },
    /// The snapshot does not answer a question that the plan depends on.
    Unprobed(Query),
}

/// The number of bytes of `s` before its first line feed.
pub open spec fn line_len(s: Seq<u8>) -> nat
    decreases s.len(),
{
    if s.len() == 0 || s[0] == 10u8 {
        0
    } else {
        1 + line_len(s.drop_first())
    }
}

/// `s` starts with `#!`.
pub open spec fn has_shebang(s: Seq<u8>) -> bool {
    s.len() >= 2 && s[0] == 0x23u8 && s[1] == 0x21u8
}

/// `s` without its shebang line; the line feed that ends the line stays,
/// so that the lines keep their numbers. A shebang line without a line
/// feed stays as it is.
pub open spec fn without_shebang(s: Seq<u8>) -> Seq<u8> {
    if has_shebang(s) && line_len(s) < s.len() {
        s.skip(line_len(s) as int)
    } else {
        s
    }
}

/// Strips the shebang line from a script.
pub fn strip_shebang(contents: Vec<u8>) -> (r: Vec<u8>)
    ensures
        r@ == without_shebang(contents@),
{
    let n = contents.len();
    if !(n >= 2 && contents[0] == 0x23u8 && contents[1] == 0x21u8) {
        return contents;
    }
    let mut i: usize = 0;
    assert(contents@.skip(0) =~= contents@);
    while i < n && contents[i] != 10u8
        invariant
            i <= n,
            n == contents@.len(),
            line_len(contents@) == i + line_len(contents@.skip(i as int)),
        decreases n - i,
    {
        proof {
            let t = contents@.skip(i as int);
            assert(t[0] == contents@[i as int]);
            assert(t.drop_first() =~= contents@.skip(i + 1));
        }
        i += 1;
    }
    proof {
        let t = contents@.skip(i as int);
        if i < n {
            assert(t[0] == contents@[i as int]);
        }
        assert(line_len(t) == 0);
    }
    if i == n {
        return contents;
    }
    let r = crate::trailer::copy_range(contents.as_slice(), i, n);
    assert(contents@.subrange(i as int, n as int) =~= contents@.skip(i as int));
    r
}

/// The position of the last dot of `name`, or -1.
pub open spec fn last_dot(name: Seq<char>) -> int
    decreases name.len(),
{
    if name.len() == 0 {
        -1
    } else if name.last() == '.' {
        name.len() - 1
    } else {
        last_dot(name.drop_last())
    }
}

/// The extension of the file name `name`: what follows its last dot,
/// where that dot is not its first character.
pub open spec fn extension(name: Seq<char>) -> Option<Seq<char>> {
    if last_dot(name) > 0 {
        Some(name.skip(last_dot(name) + 1))
    } else {
        None
    }
}

/// The file name `name` without its extension.
pub open spec fn stem(name: Seq<char>) -> Seq<char> {
    if last_dot(name) > 0 {
        name.take(last_dot(name))
    } else {
        name
    }
}

/// The file name `name` with the extension `ext` in place of its own;
/// without an extension where `ext` is empty.
pub open spec fn set_extension(name: Seq<char>, ext: Seq<char>) -> Seq<char> {
    if ext.len() == 0 {
        stem(name)
    } else {
        stem(name) + seq!['.'] + ext
    }
}

/// The path `parts` with the extension `ext` on its last name. The root
/// has no name and stays as it is.
pub open spec fn with_extension(parts: Seq<Seq<char>>, ext: Seq<char>) -> Seq<Seq<char>> {
    if parts.len() == 0 {
        parts
    } else {
        parts.drop_last().push(set_extension(parts.last(), ext))
    }
}

/// The path `parts` without the extension of a script (`lua`, `luau`).
pub open spec fn without_source_ext(parts: Seq<Seq<char>>) -> Seq<Seq<char>> {
    if parts.len() > 0 && (extension(parts.last()) == Some("lua"@) || extension(parts.last())
        == Some("luau"@)) {
        with_extension(parts, Seq::empty())
    } else {
        parts
    }
}

/// The entry script of the input `path`: the index file of a directory
/// that has one (`init.luau` before `init.lua`), else the path itself.
pub open spec fn entry_of(snap: Snapshot, path: Seq<Seq<char>>) -> Seq<Seq<char>> {
    if snap.is_dir(render_abs(path)) && snap.is_file(render_abs(path.push("init.luau"@))) {
        path.push("init.luau"@)
    } else if snap.is_dir(render_abs(path)) && snap.is_file(render_abs(path.push("init.lua"@))) {
        path.push("init.lua"@)
    } else {
        path
    }
}

/// The output path that the command asks for or, without one, the path
/// derived from the input: for a directory, its name in the working
/// directory `cwd`; for a file, its path without the extension of a
/// script. Either way with the extension of executables `exe`.
pub open spec fn output_of(
    input: Seq<Seq<char>>,
    output: Option<Seq<char>>,
    cwd: Seq<Seq<char>>,
    directory_module: bool,
    exe: Seq<char>,
) -> Seq<Seq<char>> {
    let chosen = match output {
        Some(o) => join(cwd, o),
        None => if directory_module {
            if input.len() > 0 {
                cwd.push(input.last())
            } else {
                input
            }
        } else {
            without_source_ext(input)
        },
    };
    with_extension(chosen, exe)
}

/// The output that the command asks for is, as it is written and before
/// any extension is put on it, the input or the entry script.
pub open spec fn asked_is_input(
    given: Seq<Seq<char>>,
    entry: Seq<Seq<char>>,
    output: Option<Seq<char>>,
    cwd: Seq<Seq<char>>,
) -> bool {
    match output {
        Some(o) => join(cwd, o) == given || join(cwd, o) == entry,
        None => false,
    }
}

/// `text` is a path that the search for the entry script of `path`
/// looks at: the path itself or one of its two index files.
pub open spec fn entry_probe(path: Seq<Seq<char>>, text: Seq<char>) -> bool {
    text == render_abs(path) || text == render_abs(path.push("init.luau"@)) || text
        == render_abs(path.push("init.lua"@))
}

/// `q` asks what is at a path that the search for the entry script of
/// `path` looks at.
pub open spec fn asks_probe(q: Query, path: Seq<Seq<char>>) -> bool {
    q matches Query::Entry(t) && entry_probe(path, t@)
}

/// `q` asks what is at a path that the plan for `input` looks at.
pub open spec fn plan_reads(input: Seq<char>, cwd: Seq<Seq<char>>, q: Query) -> bool {
    asks_probe(q, join(cwd, input))
}

/// `q` asks what is at `at`.
pub open spec fn asks_entry(q: Query, at: Seq<Seq<char>>) -> bool {
    q matches Query::Entry(t) && t@ == render_abs(at)
}

/// What the command decides on the snapshot `snap`, in the working
/// directory `cwd`, for executables with the extension `exe`.
pub open spec fn planned(
    snap: Snapshot,
    input: Seq<char>,
    output: Option<Seq<char>>,
    cwd: Seq<Seq<char>>,
    exe: Seq<char>,
) -> Result<(Seq<Seq<char>>, Seq<Seq<char>>, bool), BuildError> {
    let given = join(cwd, input);
    let entry = entry_of(snap, given);
    let directory_module = entry != given;
    let out = output_of(given, output, cwd, directory_module, exe);
    if !snap.is_file(render_abs(entry)) {
        if snap.is_dir(render_abs(given)) {
            Err(BuildError::MissingIndex)
        } else {
            Err(BuildError::MissingInput)
        }
    } else if asked_is_input(given, entry, output, cwd) {
        Err(BuildError::OutputIsInput { explicit: true })
    } else if out == given || out == entry {
        Err(BuildError::OutputIsInput { explicit: output is Some })
    } else {
        Ok((entry, out, directory_module))
    }
}

/// The position of the last dot of `name`, or nothing.
fn find_last_dot(name: &str) -> (r: Option<usize>)
    ensures
        match r {
            Some(i) => last_dot(name@) == i && i < name@.len(),
            None => last_dot(name@) == -1,
        },
{
    let n = name.unicode_len();
    let mut found: Option<usize> = None;
    let mut i: usize = 0;
    assert(name@.take(0) =~= Seq::<char>::empty());
    while i < n
        invariant
            i <= n,
            n == name@.len(),
            match found {
                Some(k) => last_dot(name@.take(i as int)) == k && k < i,
                None => last_dot(name@.take(i as int)) == -1,
            },
        decreases n - i,
    {
        proof {
            let t = name@.take(i as int + 1);
            assert(t.drop_last() =~= name@.take(i as int));
            assert(t.last() == name@[i as int]);
        }
        if name.get_char(i) == '.' {
            found = Some(i);
        }
        i += 1;
    }
    assert(name@.take(n as int) =~= name@);
    found
}

/// The file name `name` with the extension `ext` in place of its own.
pub fn replace_extension(name: &str, ext: &str) -> (r: String)
    ensures
        r@ == set_extension(name@, ext@),
{
    let base: &str = match find_last_dot(name) {
        Some(i) => if i > 0 {
            name.substring_char(0, i)
        } else {
            name
        },
        None => name,
    };
    assert(base@ =~= stem(name@));
    let mut out = String::from_str(base);
    if ext.unicode_len() > 0 {
        proof {
            reveal_strlit(".");
            assert("."@ =~= seq!['.']);
        }
        out.append(".");
        out.append(ext);
    }
    out
}

/// The extension of the file name `name`.
pub fn extension_of(name: &str) -> (r: Option<String>)
    ensures
        crate::resolver::opt_text(r) == extension(name@),
{
    match find_last_dot(name) {
        Some(i) => if i > 0 {
            let n = name.unicode_len();
            let e = name.substring_char(i + 1, n);
            assert(e@ =~= name@.skip(i + 1));
            Some(String::from_str(e))
        } else {
            None
        },
        None => None,
    }
}

/// The path `parts` with the extension `ext` on its last name.
pub fn path_with_extension(parts: &Vec<String>, ext: &str) -> (r: Vec<String>)
    ensures
        texts(r@) == with_extension(texts(parts@), ext@),
{
    let mut out = copy_parts(parts);
    if out.len() == 0 {
        return out;
    }
    let ghost before = texts(out@);
    let last = out.pop().unwrap();
    assert(texts(out@) =~= before.drop_last());
    let ghost init = texts(out@);
    let name = replace_extension(last.as_str(), ext);
    out.push(name);
    assert(texts(out@) =~= init.push(set_extension(before.last(), ext@)));
    out
}

/// The path `parts` without the extension of a script.
pub fn remove_source_file_ext(parts: &Vec<String>) -> (r: Vec<String>)
    ensures
        texts(r@) == without_source_ext(texts(parts@)),
{
    if parts.len() == 0 {
        return copy_parts(parts);
    }
    let ext = extension_of(parts[parts.len() - 1].as_str());
    let source = match &ext {
        Some(e) => same_text(e.as_str(), "lua") || same_text(e.as_str(), "luau"),
        None => false,
    };
    assert(texts(parts@).last() == parts@[parts@.len() - 1]@);
    proof {
        reveal_strlit("");
        assert(""@ =~= Seq::<char>::empty());
    }
    if source {
        path_with_extension(parts, "")
    } else {
        copy_parts(parts)
    }
}

/// Whether a file is at `at`, where the snapshot says.
fn file_known(snap: &Snapshot, at: &Vec<String>) -> (r: Result<bool, BuildError>)
    ensures
        match r {
            Ok(b) => b == snap.is_file(render_abs(texts(at@))),
            Err(e) => e matches BuildError::Unprobed(q) && !snap.answers(q) && asks_entry(
                q,
                texts(at@),
            ),
        },
{
    let text = render_path(at);
    match snap.probe(text.as_str()) {
        Some(kind) => Ok(kind == Kind::File || kind == Kind::Unreadable),
        None => Err(BuildError::Unprobed(Query::Entry(text))),
    }
}

/// Whether a directory is at `at`, where the snapshot says.
fn dir_known(snap: &Snapshot, at: &Vec<String>) -> (r: Result<bool, BuildError>)
    ensures
        match r {
            Ok(b) => b == snap.is_dir(render_abs(texts(at@))),
            Err(e) => e matches BuildError::Unprobed(q) && !snap.answers(q) && asks_entry(
                q,
                texts(at@),
            ),
        },
{
    let text = render_path(at);
    match snap.probe(text.as_str()) {
        Some(kind) => Ok(kind == Kind::Directory),
        None => Err(BuildError::Unprobed(Query::Entry(text))),
    }
}

/// Finds the entry script of the input `path`.
pub fn resolve_entry_file(snap: &Snapshot, path: &Vec<String>) -> (r: Result<
    Vec<String>,
    BuildError,
>)
    ensures
        match r {
            Ok(entry) => texts(entry@) == entry_of(*snap, texts(path@)),
            Err(e) => e matches BuildError::Unprobed(q) && !snap.answers(q) && asks_probe(
                q,
                texts(path@),
            ),
        },
{
    if dir_known(snap, path)? {
        let init_luau = child_of(path, "init.luau");
        if file_known(snap, &init_luau)? {
            return Ok(init_luau);
        }
        let init_lua = child_of(path, "init.lua");
        if file_known(snap, &init_lua)? {
            return Ok(init_lua);
        }
    }
    Ok(copy_parts(path))
}

impl BuildCommand {
    /// Decides what to build and where to write it, before anything is
    /// read or written. The output is never the input: neither the
    /// output as it was asked for nor the output with the extension of
    /// executables on it. An open snapshot that lacks an answer about
    /// the input or its index files gives `Unprobed` with the question.
    pub fn plan(&self, snap: &Snapshot, cwd: &str, exe_extension: &str) -> (r: Result<
        BuildPlan,
        BuildError,
    >)
        ensures
            match r {
                Err(BuildError::Unprobed(q)) => !snap.answers(q) && plan_reads(
                    self.input@,
                    crate::path::parse(cwd@),
                    q,
                ),
                Err(e) => planned(
                    *snap,
                    self.input@,
                    crate::resolver::opt_text(self.output),
                    crate::path::parse(cwd@),
                    exe_extension@,
                ) == Err::<(Seq<Seq<char>>, Seq<Seq<char>>, bool), BuildError>(e),
                Ok(plan) => planned(
                    *snap,
                    self.input@,
                    crate::resolver::opt_text(self.output),
                    crate::path::parse(cwd@),
                    exe_extension@,
                ) matches Ok((entry, out, dir)) && plan.entry_file@ == render_abs(entry)
                    && plan.output_path@ == render_abs(out) && plan.directory_module == dir,
            },
    {
        let here = crate::path::parse_path(cwd);
        let given = join_text(&here, self.input.as_str());
        let entry = resolve_entry_file(snap, &given)?;
        let directory_module = !same_parts(&entry, &given);
        if !file_known(snap, &entry)? {
            if dir_known(snap, &given)? {
                return Err(BuildError::MissingIndex);
            }
            return Err(BuildError::MissingInput);
        }
        let chosen = match &self.output {
            Some(o) => {
                let asked = join_text(&here, o.as_str());
                if same_parts(&asked, &given) || same_parts(&asked, &entry) {
                    return Err(BuildError::OutputIsInput { explicit: true });
                }
                asked
            },
            None => {
                if directory_module {
                    if given.len() > 0 {
                        assert(texts(given@).last() == given@[given@.len() - 1]@);
                        child_of(&here, given[given.len() - 1].as_str())
                    } else {
                        copy_parts(&given)
                    }
                } else {
                    remove_source_file_ext(&given)
                }
            },
        };
        let out = path_with_extension(&chosen, exe_extension);
        if same_parts(&out, &given) || same_parts(&out, &entry) {
            return Err(BuildError::OutputIsInput { explicit: self.output.is_some() });
        }
        Ok(
            BuildPlan {
                entry_file: render_path(&entry),
                output_path: render_path(&out),
                directory_module,
            },
        )
    }
}

/// The output is never the input: a plan that is made writes neither
/// over the input nor over the entry script, and was not asked to,
/// whatever extension executables have.
pub proof fn law_output_is_not_input(
    snap: Snapshot,
    input: Seq<char>,
    output: Option<Seq<char>>,
    cwd: Seq<Seq<char>>,
    exe: Seq<char>,
)
    ensures
        planned(snap, input, output, cwd, exe) matches Ok((entry, out, dir)) ==> out != join(
            cwd,
            input,
        ) && out != entry && snap.is_file(render_abs(entry)),
        planned(snap, input, output, cwd, exe) is Ok ==> match output {
            Some(o) => join(cwd, o) != join(cwd, input) && join(cwd, o) != entry_of(
                snap,
                join(cwd, input),
            ),
            None => true,
        },
{
}

} // verus!
