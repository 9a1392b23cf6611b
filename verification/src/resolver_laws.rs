//! What holds of resolution: from a canonical directory every reference
//! resolves to a canonical file.

use crate::path::{
    begins_with, canonical, dot, dotdot, is_name, join, slash_free, split, walk, with_ext,
};
use crate::path_laws::{
    lemma_join_canonical, lemma_split_slash_free, lemma_walk_canonical, lemma_walk_concat,
};
use crate::relative_laws::lemma_split_at_slash;
use crate::resolver::{
    alias_home, alias_name, alias_rest, is_absolute, is_alias, is_relative, locate, location,
    name_len, resolution, Verdict,
};
use crate::snapshot::Snapshot;
use vstd::prelude::*;

verus! {

/// The directory that declares an alias is canonical where the directory
/// that the search started from is.
pub proof fn lemma_alias_home_canonical(snap: Snapshot, dir: Seq<Seq<char>>, name: Seq<char>)
    requires
        canonical(dir),
    ensures
        alias_home(snap, dir, name) matches Some((home, value)) ==> canonical(home),
    decreases dir.len(),
{
    if alias_home(snap, dir, name) is Some && snap.alias_at(crate::path::render_abs(dir), name)
        is None && dir.len() > 0 {
        let up = dir.drop_last();
        assert forall|i: int| 0 <= i < up.len() implies is_name(#[trigger] up[i]) && slash_free(
            up[i],
        ) by {
            assert(up[i] == dir[i]);
        }
        lemma_alias_home_canonical(snap, up, name);
    }
}

/// A canonical location with an extension added to its last name is canonical.
pub proof fn lemma_with_ext_canonical(at: Seq<Seq<char>>, ext: Seq<char>)
    requires
        canonical(at),
        at.len() > 0,
        slash_free(ext),
        ext.len() > 0,
    ensures
        canonical(with_ext(at, ext)),
{
    let named = with_ext(at, ext);
    let last = at.last() + seq!['.'] + ext;
    assert(is_name(at[at.len() - 1]) && slash_free(at[at.len() - 1]));
    assert(last.len() >= 3);
    assert(dot().len() == 1 && dotdot().len() == 2);
    assert forall|i: int| 0 <= i < last.len() implies last[i] != '/' by {
        if i < at.last().len() {
            assert(last[i] == at.last()[i]);
        } else if i > at.last().len() {
            assert(last[i] == ext[i - at.last().len() - 1]);
        }
    }
    assert forall|i: int| 0 <= i < named.len() implies is_name(#[trigger] named[i])
        && slash_free(named[i]) by {
        if i < at.len() - 1 {
            assert(named[i] == at[i]);
        }
    }
}

/// A canonical location with one more name is canonical.
pub proof fn lemma_push_canonical(at: Seq<Seq<char>>, name: Seq<char>)
    requires
        canonical(at),
        is_name(name),
        slash_free(name),
    ensures
        canonical(at.push(name)),
{
    let p = at.push(name);
    assert forall|i: int| 0 <= i < p.len() implies is_name(#[trigger] p[i]) && slash_free(
        p[i],
    ) by {
        if i < at.len() {
            assert(p[i] == at[i]);
        }
    }
}

/// The file that answers to a canonical location is canonical.
pub proof fn lemma_locate_canonical(snap: Snapshot, at: Seq<Seq<char>>)
    requires
        canonical(at),
    ensures
        locate(snap, at) matches Some(p) ==> canonical(p),
{
    reveal_strlit("luau");
    reveal_strlit("lua");
    reveal_strlit("init.luau");
    reveal_strlit("init.lua");
    assert(dot().len() == 1 && dotdot().len() == 2);
    if at.len() > 0 {
        lemma_with_ext_canonical(at, "luau"@);
        lemma_with_ext_canonical(at, "lua"@);
    }
    lemma_push_canonical(at, "init.luau"@);
    lemma_push_canonical(at, "init.lua"@);
}

/// The location that a reference leads to from a canonical directory is canonical.
pub proof fn lemma_location_canonical(snap: Snapshot, text: Seq<char>, dir: Seq<Seq<char>>)
    requires
        canonical(dir),
    ensures
        location(snap, text, dir) matches Some(at) ==> canonical(at),
{
    lemma_split_slash_free(text);
    lemma_walk_canonical(dir, split(text));
    lemma_join_canonical(dir, text);
    match alias_rest(text) {
        Some(r) => {
            lemma_join_canonical(dir, r);
        },
        None => {},
    }
    lemma_alias_home_canonical(snap, dir, alias_name(text));
    match alias_home(snap, dir, alias_name(text)) {
        Some((home, value)) => {
            lemma_join_canonical(home, value);
            match alias_rest(text) {
                Some(r) => {
                    lemma_join_canonical(crate::path::join(home, value), r);
                },
                None => {},
            }
        },
        None => {},
    }
}

/// A reference written in a canonical directory resolves to a canonical file.
pub proof fn lemma_resolution_canonical(
    snap: Snapshot,
    builtins: Seq<Seq<char>>,
    text: Seq<char>,
    dir: Seq<Seq<char>>,
)
    requires
        canonical(dir),
    ensures
        resolution(snap, builtins, text, dir) matches Verdict::Module(p) ==> canonical(p),
{
    lemma_location_canonical(snap, text, dir);
    match location(snap, text, dir) {
        Some(at) => {
            lemma_locate_canonical(snap, at);
        },
        None => {},
    }
}

/// A name without a slash, in front of a slash, is all that stands
/// before the first slash.
pub proof fn lemma_name_len(name: Seq<char>, rest: Seq<char>)
    requires
        slash_free(name),
    ensures
        name_len(name + seq!['/'] + rest) == name.len(),
    decreases name.len(),
{
    let text = name + seq!['/'] + rest;
    if name.len() > 0 {
        let tail = name.drop_first();
        assert(slash_free(tail)) by {
            assert forall|i: int| 0 <= i < tail.len() implies tail[i] != '/' by {
                assert(tail[i] == name[i + 1]);
            }
        }
        lemma_name_len(tail, rest);
        assert(text[0] == name[0]);
        assert(text.drop_first() =~= tail + seq!['/'] + rest);
    }
}

/// A relative reference and an alias reference that lead to one
/// directory, and go on alike from there, resolve alike: the reference
/// `rel/rest` written in the directory `dir2`, and the reference
/// `@name/rest` written in the directory `dir1`, where the alias `name`
/// stands for the directory that `rel` leads to from `dir2`.
pub proof fn law_alias_agrees_with_relative(
    snap: Snapshot,
    builtins: Seq<Seq<char>>,
    name: Seq<char>,
    rest: Seq<char>,
    dir1: Seq<Seq<char>>,
    rel: Seq<char>,
    dir2: Seq<Seq<char>>,
)
    requires
        slash_free(name),
        name != "lune"@,
        name != "self"@,
        !(rest.len() > 0 && rest[0] == '/'),
        is_relative(rel),
        alias_home(snap, dir1, name) matches Some((home, value)) && join(home, value) == walk(
            dir2,
            split(rel),
        ),
    ensures
        resolution(snap, builtins, seq!['@'] + name + seq!['/'] + rest, dir1) == resolution(
            snap,
            builtins,
            rel + seq!['/'] + rest,
            dir2,
        ),
{
    reveal_strlit("@");
    reveal_strlit("./");
    reveal_strlit("../");
    reveal_strlit("/");
    let text1 = seq!['@'] + name + seq!['/'] + rest;
    let text2 = rel + seq!['/'] + rest;
    // the alias reference
    assert(text1.take(1) =~= "@"@);
    assert(is_alias(text1));
    assert(!is_relative(text1)) by {
        if begins_with(text1, "./"@) {
            assert(text1.take(2)[0] == '.');
        }
        if begins_with(text1, "../"@) {
            assert(text1.take(3)[0] == '.');
        }
    }
    assert(!is_absolute(text1)) by {
        if begins_with(text1, "/"@) {
            assert(text1.take(1)[0] == '/');
        }
    }
    let body = text1.skip(1);
    assert(body =~= name + seq!['/'] + rest);
    lemma_name_len(name, rest);
    assert(alias_name(text1) =~= name);
    assert(body.skip(name.len() as int + 1) =~= rest);
    assert(alias_rest(text1) == Some(rest));
    // the relative reference
    assert(is_relative(text2)) by {
        if begins_with(rel, "./"@) {
            assert(text2.take(2) =~= rel.take(2));
        } else {
            assert(text2.take(3) =~= rel.take(3));
        }
    }
    lemma_split_at_slash(rel, rest);
    lemma_walk_concat(dir2, split(rel), split(rest));
}

/// A location handle and the absolute reference that spells its path
/// resolve alike, whatever directory the reference is written in.
pub proof fn law_handle_agrees_with_absolute(
    snap: Snapshot,
    builtins: Seq<Seq<char>>,
    text: Seq<char>,
    dir: Seq<Seq<char>>,
)
    requires
        is_absolute(text),
    ensures
        resolution(snap, builtins, text, dir) == crate::resolver::found(
            snap,
            crate::path::parse(text),
        ),
{
    reveal_strlit("/");
    reveal_strlit("./");
    reveal_strlit("../");
    assert(text.take(1)[0] == '/');
    if begins_with(text, "./"@) {
        assert(text.take(2)[0] == '.');
    }
    if begins_with(text, "../"@) {
        assert(text.take(3)[0] == '.');
    }
}

} // verus!
