//! The static bundler: from an entry file to the set of files that it
//! reaches, keyed by paths relative to one project root, and the aliases
//! that led to them.

use crate::graph::{lit_target, reachable, requires_file, source_of};
use crate::path::{
    canonical, child_of, common_ancestor, common_ancestor_of, copy_parts, has_prefix, is_name,
    is_prefix, parent, parent_of, parse, parse_path, render_abs, render_path, same_text,
    slash_free, tail_of, texts,
};
use crate::path_laws::{
    lemma_common_ancestor, lemma_join_canonical, lemma_prefix_transitive,
    lemma_render_abs_injective,
};
use crate::resolver::{
    alias_name, asks_named_above, is_alias, parse_reference, resolve, ModuleRef, ResolveError, Target, Verdict,
};
use crate::scan::{pattern_usable, regex_compiles, required_literals, scan_requires, REQUIRE_PATTERN};
use crate::snapshot::{Entry, Kind, Query, Snapshot};
use crate::walk::{collect, good_file, visited_ok, visited_paths, BundleError, Visited};
use vstd::prelude::*;

verus! {

/// A bundle: the contents of every file under its key, and the key that
/// every alias reference leads to. A key is the path of a file from the
/// project root, written with a leading slash.
#[derive(Debug, Clone, PartialEq, Eq)]
pub struct BundleResult {
    pub files: Vec<(String, Vec<u8>)>,
    pub aliases: Vec<(String, String)>,
}

/// Finds what an entry file reaches and relates it to one project root.
pub struct Bundler {
    base_dir: Vec<String>,
}

/// An alias reference and the file that it led to.
pub struct AliasUse {
    pub literal: String,
    pub target: Vec<String>,
}

/// The directory `dir` holds a configuration file.
pub open spec fn has_config_file(snap: Snapshot, dir: Seq<Seq<char>>) -> bool {
    snap.is_present(render_abs(dir.push(".luaurc"@)))
}

/// The highest of `dir` and the directories above it that holds a
/// configuration file.
pub open spec fn highest_config(snap: Snapshot, dir: Seq<Seq<char>>) -> Option<Seq<Seq<char>>>
    decreases dir.len(),
{
    let above = if dir.len() == 0 {
        None
    } else {
        highest_config(snap, dir.drop_last())
    };
    match above {
        Some(d) => Some(d),
        None => if has_config_file(snap, dir) {
            Some(dir)
        } else {
            None
        },
    }
}

/// The first guess at the project root of `entry`: the highest directory
/// above it that holds a configuration file, else its own directory.
pub open spec fn project_root(snap: Snapshot, entry: Seq<Seq<char>>) -> Seq<Seq<char>> {
    match highest_config(snap, parent(entry)) {
        Some(d) => d,
        None => parent(entry),
    }
}

/// The key of the file `g` in a bundle with the project root `base`.
pub open spec fn key_of(base: Seq<Seq<char>>, g: Seq<Seq<char>>) -> Seq<char> {
    render_abs(g.skip(base.len() as int))
}

/// The readable file `f` holds the alias reference `lit`, which is not to
/// `@self` and resolves to the file `g`.
pub open spec fn uses_alias(
    snap: Snapshot,
    f: Seq<Seq<char>>,
    lit: Seq<char>,
    g: Seq<Seq<char>>,
) -> bool {
    &&& is_alias(lit)
    &&& alias_name(lit) != "self"@
    &&& match source_of(snap, f) {
        Some(bytes) => exists|j: int|
            0 <= j < required_literals(bytes).len() && required_literals(bytes)[j] == lit
                && #[trigger] lit_target(snap, required_literals(bytes), j, parent(f))
                == Verdict::Module(g),
        None => false,
    }
}

/// A file that `entry` reaches holds the alias reference `lit`, which
/// resolves to the file `g`.
pub open spec fn alias_use(
    snap: Snapshot,
    entry: Seq<Seq<char>>,
    lit: Seq<char>,
    g: Seq<Seq<char>>,
) -> bool {
    exists|f: Seq<Seq<char>>| reachable(snap, entry, f) && #[trigger] uses_alias(snap, f, lit, g)
}

/// `key` and `contents` are the key and the contents of a file that
/// `entry` reaches.
pub open spec fn file_of(
    snap: Snapshot,
    entry: Seq<Seq<char>>,
    base: Seq<Seq<char>>,
    key: Seq<char>,
    contents: Seq<u8>,
) -> bool {
    exists|g: Seq<Seq<char>>| #[trigger]
        reachable(snap, entry, g) && key == key_of(base, g) && source_of(snap, g) == Some(
            contents,
        )
}

/// `key` is the key of a file that the alias reference `lit`, held by a
/// file that `entry` reaches, resolves to.
pub open spec fn alias_of(
    snap: Snapshot,
    entry: Seq<Seq<char>>,
    base: Seq<Seq<char>>,
    lit: Seq<char>,
    key: Seq<char>,
) -> bool {
    exists|g: Seq<Seq<char>>| #[trigger] alias_use(snap, entry, lit, g) && key == key_of(base, g)
}

/// The files of a bundle are those that `entry` reaches, each once, under
/// its key and with its contents.
pub open spec fn files_ok(
    snap: Snapshot,
    entry: Seq<Seq<char>>,
    base: Seq<Seq<char>>,
    files: Seq<(String, Vec<u8>)>,
) -> bool {
    &&& forall|g: Seq<Seq<char>>| #[trigger]
        reachable(snap, entry, g) ==> is_prefix(base, g) && exists|i: int|
            0 <= i < files.len() && (#[trigger] files[i]).0@ == key_of(base, g) && source_of(
                snap,
                g,
            ) == Some(files[i].1@)
    &&& forall|i: int|
        0 <= i < files.len() ==> file_of(snap, entry, base, (#[trigger] files[i]).0@, files[i].1@)
    &&& forall|i: int, j: int|
        0 <= i < j < files.len() ==> (#[trigger] files[i]).0@ != (#[trigger] files[j]).0@
}

/// The aliases of a bundle are the alias references that the reached
/// files hold and that resolve to a file, each once, with the key of a
/// file that it resolves to.
pub open spec fn aliases_ok(
    snap: Snapshot,
    entry: Seq<Seq<char>>,
    base: Seq<Seq<char>>,
    aliases: Seq<(String, String)>,
) -> bool {
    &&& forall|lit: Seq<char>, g: Seq<Seq<char>>| #[trigger]
        alias_use(snap, entry, lit, g) ==> exists|i: int|
            0 <= i < aliases.len() && (#[trigger] aliases[i]).0@ == lit
    &&& forall|i: int|
        0 <= i < aliases.len() ==> alias_of(
            snap,
            entry,
            base,
            (#[trigger] aliases[i]).0@,
            aliases[i].1@,
        )
    &&& forall|i: int, j: int|
        0 <= i < j < aliases.len() ==> (#[trigger] aliases[i]).0@ != (#[trigger] aliases[j]).0@
}

/// Every directory that leads to the root `old` and to every file that
/// `entry` reaches leads to `base`: of those directories, `base` is the
/// deepest.
pub open spec fn deepest_root(
    snap: Snapshot,
    entry: Seq<Seq<char>>,
    old: Seq<Seq<char>>,
    base: Seq<Seq<char>>,
) -> bool {
    forall|c: Seq<Seq<char>>|
        is_prefix(c, old) && (forall|g: Seq<Seq<char>>| #[trigger]
            reachable(snap, entry, g) ==> is_prefix(c, g)) ==> #[trigger] is_prefix(c, base)
}

/// Copies bytes.
pub fn copy_bytes(bytes: &Vec<u8>) -> (r: Vec<u8>)
    ensures
        r@ == bytes@,
{
    let mut out: Vec<u8> = Vec::new();
    let mut i: usize = 0;
    while i < bytes.len()
        invariant
            i <= bytes@.len(),
            out@ == bytes@.take(i as int),
        decreases bytes@.len() - i,
    {
        out.push(bytes[i]);
        i += 1;
        assert(out@ =~= bytes@.take(i as int));
    }
    assert(bytes@.take(i as int) =~= bytes@);
    out
}

/// Finds the first guess at the project root of `entry`.
pub fn find_project_root(snap: &Snapshot, entry: &Vec<String>) -> (r: Result<
    Vec<String>,
    BundleError,
>)
    ensures
        match r {
            Ok(root) => texts(root@) == project_root(*snap, texts(entry@)),
            Err(e) => e matches BundleError::Unprobed(q) && !snap.answers(q) && asks_named_above(
                q,
                parent(texts(entry@)),
                ".luaurc"@,
            ),
        },
{
    let start = parent_of(entry);
    let mut cur = copy_parts(&start);
    let mut best: Option<Vec<String>> = None;
    let ghost mut depth: int = start@.len() as int;
    assert(texts(start@).take(depth) =~= texts(start@));
    loop
        invariant
            0 <= depth <= start@.len(),
            texts(cur@) == texts(start@).take(depth),
            texts(start@) == parent(texts(entry@)),
            highest_config(*snap, texts(start@)) == match highest_config(*snap, texts(cur@)) {
                Some(d) => Some(d),
                None => match best {
                    Some(b) => Some(texts(b@)),
                    None => None,
                },
            },
        decreases cur@.len(),
    {
        let file = child_of(&cur, ".luaurc");
        let text = render_path(&file);
        let here = match snap.probe(text.as_str()) {
            Some(kind) => kind != Kind::Absent,
            None => {
                return Err(BundleError::Unprobed(Query::Entry(text)));
            },
        };
        if here {
            best = Some(copy_parts(&cur));
        }
        if cur.len() == 0 {
            return match best {
                Some(b) => Ok(b),
                None => Ok(start),
            };
        }
        let ghost before = texts(cur@);
        cur.pop();
        assert(texts(cur@) =~= before.drop_last());
        proof {
            depth = depth - 1;
            assert(texts(start@).take(depth) =~= before.drop_last());
        }
    }
}

/// The root `base`, made to lead to the file `f` as well.
pub open spec fn widen(base: Seq<Seq<char>>, f: Seq<Seq<char>>) -> Seq<Seq<char>> {
    if is_prefix(base, f) {
        base
    } else {
        common_ancestor(base, f)
    }
}

/// The root `base`, made to lead to each of `files` in turn.
pub open spec fn widen_all(base: Seq<Seq<char>>, files: Seq<Seq<Seq<char>>>) -> Seq<Seq<char>>
    decreases files.len(),
{
    if files.len() == 0 {
        base
    } else {
        widen(widen_all(base, files.drop_last()), files.last())
    }
}

/// The widened root leads to the root it started from and to every file.
pub proof fn lemma_widen_all(base: Seq<Seq<char>>, files: Seq<Seq<Seq<char>>>)
    ensures
        is_prefix(widen_all(base, files), base),
        forall|i: int| 0 <= i < files.len() ==> is_prefix(widen_all(base, files), #[trigger] files[i]),
    decreases files.len(),
{
    if files.len() == 0 {
        assert(base.take(base.len() as int) =~= base);
    } else {
        let init = files.drop_last();
        lemma_widen_all(base, init);
        let mid = widen_all(base, init);
        let end = widen(mid, files.last());
        lemma_common_ancestor(mid, files.last());
        assert(mid.take(mid.len() as int) =~= mid);
        assert(is_prefix(end, mid));
        lemma_prefix_transitive(end, mid, base);
        assert forall|i: int| 0 <= i < files.len() implies is_prefix(end, #[trigger] files[i]) by {
            if i < init.len() {
                assert(init[i] == files[i]);
                lemma_prefix_transitive(end, mid, files[i]);
            }
        }
    }
}

/// The shared leading components of two paths are at least as many as
/// any directory that leads to both has.
pub proof fn lemma_common_len_least(a: Seq<Seq<char>>, b: Seq<Seq<char>>, c: Seq<Seq<char>>)
    requires
        is_prefix(c, a),
        is_prefix(c, b),
    ensures
        c.len() <= crate::path::common_len(a, b),
        is_prefix(c, common_ancestor(a, b)),
    decreases c.len(),
{
    lemma_common_ancestor(a, b);
    if c.len() > 0 {
        assert(a.take(c.len() as int)[0] == c[0]);
        assert(b.take(c.len() as int)[0] == c[0]);
        let a1 = a.drop_first();
        let b1 = b.drop_first();
        let c1 = c.drop_first();
        assert(a1.take(c1.len() as int) =~= a.take(c.len() as int).drop_first());
        assert(b1.take(c1.len() as int) =~= b.take(c.len() as int).drop_first());
        lemma_common_len_least(a1, b1, c1);
    }
    let k = crate::path::common_len(a, b) as int;
    assert(a.take(k).take(c.len() as int) =~= a.take(c.len() as int));
}

/// Any directory that leads to the root and to every file leads to the
/// widened root: the widened root is the deepest such directory.
pub proof fn lemma_widen_all_deepest(
    base: Seq<Seq<char>>,
    files: Seq<Seq<Seq<char>>>,
    c: Seq<Seq<char>>,
)
    requires
        is_prefix(c, base),
        forall|i: int| 0 <= i < files.len() ==> is_prefix(c, #[trigger] files[i]),
    ensures
        is_prefix(c, widen_all(base, files)),
    decreases files.len(),
{
    if files.len() > 0 {
        let init = files.drop_last();
        assert forall|i: int| 0 <= i < init.len() implies is_prefix(c, #[trigger] init[i]) by {
            assert(init[i] == files[i]);
        }
        lemma_widen_all_deepest(base, init, c);
        let mid = widen_all(base, init);
        assert(is_prefix(c, files[files.len() - 1]));
        lemma_common_len_least(mid, files.last(), c);
    }
}

/// Widens the root `base` until it leads to every visited file.
fn widen_over(base: Vec<String>, found: &Vec<Visited>) -> (r: Vec<String>)
    ensures
        texts(r@) == widen_all(texts(base@), visited_paths(found@)),
{
    let mut cur = base;
    let mut i: usize = 0;
    assert(visited_paths(found@).take(0) =~= Seq::empty());
    while i < found.len()
        invariant
            i <= found@.len(),
            texts(cur@) == widen_all(texts(base@), visited_paths(found@).take(i as int)),
        decreases found@.len() - i,
    {
        proof {
            let t = visited_paths(found@).take(i as int + 1);
            assert(t.drop_last() =~= visited_paths(found@).take(i as int));
            assert(t.last() == texts(found@[i as int].parts@));
        }
        if !has_prefix(&found[i].parts, &cur) {
            cur = common_ancestor_of(&cur, &found[i].parts);
        }
        i += 1;
    }
    assert(visited_paths(found@).take(i as int) =~= visited_paths(found@));
    cur
}

/// What is left of a canonical location behind its first names is canonical.
proof fn lemma_skip_canonical(p: Seq<Seq<char>>, k: int)
    requires
        canonical(p),
        0 <= k <= p.len(),
    ensures
        canonical(p.skip(k)),
{
    assert forall|i: int| 0 <= i < p.skip(k).len() implies is_name(#[trigger] p.skip(k)[i])
        && slash_free(p.skip(k)[i]) by {
        assert(p.skip(k)[i] == p[i + k]);
    }
}

/// Two canonical files under one root with one key are one file.
proof fn lemma_key_injective(base: Seq<Seq<char>>, p: Seq<Seq<char>>, q: Seq<Seq<char>>)
    requires
        canonical(p),
        canonical(q),
        is_prefix(base, p),
        is_prefix(base, q),
        key_of(base, p) == key_of(base, q),
    ensures
        p == q,
{
    let k = base.len() as int;
    lemma_skip_canonical(p, k);
    lemma_skip_canonical(q, k);
    lemma_render_abs_injective(p.skip(k), q.skip(k));
    assert(p =~= p.take(k) + p.skip(k));
    assert(q =~= q.take(k) + q.skip(k));
}

/// Writes every visited file under its key.
fn keyed_files(snap: &Snapshot, base: &Vec<String>, found: &Vec<Visited>, Ghost(entry): Ghost<
    Seq<Seq<char>>,
>) -> (r: Vec<(String, Vec<u8>)>)
    requires
        visited_ok(*snap, entry, found@),
        forall|i: int|
            0 <= i < found@.len() ==> is_prefix(texts(base@), #[trigger] visited_paths(found@)[i]),
    ensures
        r@.len() == found@.len(),
        forall|i: int|
            0 <= i < r@.len() ==> (#[trigger] r@[i]).0@ == key_of(
                texts(base@),
                visited_paths(found@)[i],
            ) && source_of(*snap, visited_paths(found@)[i]) == Some(r@[i].1@),
{
    let mut out: Vec<(String, Vec<u8>)> = Vec::new();
    let mut i: usize = 0;
    while i < found.len()
        invariant
            i <= found@.len(),
            out@.len() == i,
            visited_ok(*snap, entry, found@),
            forall|x: int|
                0 <= x < found@.len() ==> is_prefix(
                    texts(base@),
                    #[trigger] visited_paths(found@)[x],
                ),
            forall|x: int|
                0 <= x < i ==> (#[trigger] out@[x]).0@ == key_of(
                    texts(base@),
                    visited_paths(found@)[x],
                ) && source_of(*snap, visited_paths(found@)[x]) == Some(out@[x].1@),
        decreases found@.len() - i,
    {
        let ghost p = visited_paths(found@)[i as int];
        assert(good_file(*snap, entry, p, found@[i as int].index as int));
        assert(is_prefix(texts(base@), p));
        proof {
            crate::snapshot::lemma_first_index(
                crate::snapshot::listing_paths(snap.listings@),
                render_abs(p),
            );
        }
        let rest = tail_of(&found[i].parts, base.len());
        let key = render_path(&rest);
        let contents = match &snap.listings[found[i].index].entry {
            Entry::File(bytes) => copy_bytes(bytes),
            _ => Vec::new(),
        };
        let ghost before = out@;
        out.push((key, contents));
        assert(forall|x: int| 0 <= x < i ==> out@[x] == before[x]);
        i += 1;
    }
    out
}

/// One of `aliases` is for the reference `lit`.
pub open spec fn has_literal(aliases: Seq<AliasUse>, lit: Seq<char>) -> bool {
    exists|i: int| 0 <= i < aliases.len() && (#[trigger] aliases[i]).literal@ == lit
}

/// Every one of `aliases` is a reference of a reached file and leads where
/// that reference resolves to, and no two are for one reference.
pub open spec fn uses_ok(snap: Snapshot, entry: Seq<Seq<char>>, aliases: Seq<AliasUse>) -> bool {
    &&& forall|i: int|
        0 <= i < aliases.len() ==> alias_use(
            snap,
            entry,
            (#[trigger] aliases[i]).literal@,
            texts(aliases[i].target@),
        )
    &&& forall|i: int, j: int|
        0 <= i < j < aliases.len() ==> (#[trigger] aliases[i]).literal@ != (
        #[trigger] aliases[j]).literal@
}

/// The noted aliases over plain values: each reference with the file
/// that it led to.
pub open spec fn use_views(uses: Seq<AliasUse>) -> Seq<(Seq<char>, Seq<Seq<char>>)> {
    Seq::new(uses.len(), |i: int| (uses[i].literal@, texts(uses[i].target@)))
}

/// The references of the notes, in order.
pub open spec fn noted_literals(notes: Seq<(Seq<char>, Seq<Seq<char>>)>) -> Seq<Seq<char>> {
    Seq::new(notes.len(), |i: int| notes[i].0)
}

/// The notes with the file `g` noted for the reference `lit`: in place
/// of what was noted for it, or behind the other notes.
pub open spec fn note(
    notes: Seq<(Seq<char>, Seq<Seq<char>>)>,
    lit: Seq<char>,
    g: Seq<Seq<char>>,
) -> Seq<(Seq<char>, Seq<Seq<char>>)> {
    match crate::snapshot::first_index(noted_literals(notes), lit) {
        Some(i) => notes.update(i, (lit, g)),
        None => notes.push((lit, g)),
    }
}

/// The notes after the references `lits` of a script of the directory
/// `dir`, taken in order: every alias reference, but one to `@self`,
/// that resolves to a file is noted with that file.
pub open spec fn notes_of_file(
    snap: Snapshot,
    notes: Seq<(Seq<char>, Seq<Seq<char>>)>,
    lits: Seq<Seq<char>>,
    dir: Seq<Seq<char>>,
) -> Seq<(Seq<char>, Seq<Seq<char>>)>
    decreases lits.len(),
{
    if lits.len() == 0 {
        notes
    } else {
        let before = notes_of_file(snap, notes, lits.drop_last(), dir);
        match lit_target(snap, lits, lits.len() - 1, dir) {
            Verdict::Module(g) => if is_alias(lits.last()) && alias_name(lits.last()) != "self"@ {
                note(before, lits.last(), g)
            } else {
                before
            },
            _ => before,
        }
    }
}

/// The notes after the files `files`, taken in order: of two files that
/// resolve one reference differently, the later counts.
pub open spec fn notes_of_walk(snap: Snapshot, files: Seq<Seq<Seq<char>>>) -> Seq<
    (Seq<char>, Seq<Seq<char>>),
>
    decreases files.len(),
{
    if files.len() == 0 {
        Seq::empty()
    } else {
        let before = notes_of_walk(snap, files.drop_last());
        match source_of(snap, files.last()) {
            Some(bytes) => notes_of_file(
                snap,
                before,
                required_literals(bytes),
                parent(files.last()),
            ),
            None => before,
        }
    }
}

/// The bundle is exactly what the walk from `entry` gives: the files in
/// the order of the visits, each under its key from the root `base`,
/// which is the root `old` widened to each file in turn; and the notes
/// of the walk, each with the key of its file.
pub open spec fn exactly(
    snap: Snapshot,
    entry: Seq<Seq<char>>,
    old: Seq<Seq<char>>,
    base: Seq<Seq<char>>,
    files: Seq<(String, Vec<u8>)>,
    aliases: Seq<(String, String)>,
) -> bool {
    match crate::walk::walk_order(snap, entry) {
        Ok(order) => {
            let notes = notes_of_walk(snap, order);
            &&& base == widen_all(old, order)
            &&& files.len() == order.len()
            &&& forall|i: int|
                0 <= i < files.len() ==> (#[trigger] files[i]).0@ == key_of(base, order[i])
                    && source_of(snap, order[i]) == Some(files[i].1@)
            &&& aliases.len() == notes.len()
            &&& forall|i: int|
                0 <= i < aliases.len() ==> (#[trigger] aliases[i]).0@ == notes[i].0
                    && aliases[i].1@ == key_of(base, notes[i].1)
        },
        Err(_) => false,
    }
}

/// Notes that the alias reference `lit` led to `target`, in place of what
/// was noted for it before.
fn record_alias(
    aliases: &mut Vec<AliasUse>,
    lit: &str,
    target: Vec<String>,
    Ghost(snap): Ghost<Snapshot>,
    Ghost(entry): Ghost<Seq<Seq<char>>>,
)
    requires
        uses_ok(snap, entry, old(aliases)@),
        alias_use(snap, entry, lit@, texts(target@)),
    ensures
        uses_ok(snap, entry, final(aliases)@),
        has_literal(final(aliases)@, lit@),
        forall|l: Seq<char>| #[trigger]
            has_literal(old(aliases)@, l) ==> has_literal(final(aliases)@, l),
        use_views(final(aliases)@) == note(use_views(old(aliases)@), lit@, texts(target@)),
{
    let ghost before = aliases@;
    let ghost goal = texts(target@);
    let mut i: usize = 0;
    while i < aliases.len()
        invariant
            i <= aliases@.len(),
            aliases@ == before,
            goal == texts(target@),
            forall|x: int| 0 <= x < i ==> noted_literals(use_views(before))[x] != lit@,
            before == old(aliases)@,
            uses_ok(snap, entry, before),
            alias_use(snap, entry, lit@, texts(target@)),
            forall|x: int| 0 <= x < i ==> (#[trigger] aliases@[x]).literal@ != lit@,
        decreases aliases@.len() - i,
    {
        if same_text(aliases[i].literal.as_str(), lit) {
            let fresh = AliasUse { literal: lit.to_owned(), target };
            aliases.set(i, fresh);
            proof {
                crate::snapshot::lemma_first_index_is(
                    noted_literals(use_views(before)),
                    lit@,
                    i as int,
                );
                assert(use_views(aliases@) =~= use_views(before).update(i as int, (lit@, goal)));
                assert forall|l: Seq<char>| #[trigger] has_literal(before, l) implies has_literal(
                    aliases@,
                    l,
                ) by {
                    let x = choose|x: int|
                        0 <= x < before.len() && (#[trigger] before[x]).literal@ == l;
                    assert(aliases@[x].literal@ == l);
                }
                assert(aliases@[i as int].literal@ == lit@);
                assert forall|x: int| 0 <= x < aliases@.len() implies alias_use(
                    snap,
                    entry,
                    (#[trigger] aliases@[x]).literal@,
                    texts(aliases@[x].target@),
                ) by {
                    if x != i {
                        assert(aliases@[x] == before[x]);
                    }
                }
                assert forall|x: int, y: int| 0 <= x < y < aliases@.len() implies (
                #[trigger] aliases@[x]).literal@ != (#[trigger] aliases@[y]).literal@ by {
                    assert(aliases@[x].literal@ == before[x].literal@);
                    assert(aliases@[y].literal@ == before[y].literal@);
                }
            }
            return ;
        }
        i += 1;
    }
    let fresh = AliasUse { literal: lit.to_owned(), target };
    aliases.push(fresh);
    proof {
        crate::snapshot::lemma_first_index(noted_literals(use_views(before)), lit@);
        assert(use_views(aliases@) =~= use_views(before).push((lit@, goal)));
        assert(aliases@[before.len() as int].literal@ == lit@);
        assert forall|l: Seq<char>| #[trigger] has_literal(before, l) implies has_literal(
            aliases@,
            l,
        ) by {
            let x = choose|x: int| 0 <= x < before.len() && (#[trigger] before[x]).literal@ == l;
            assert(aliases@[x].literal@ == l);
        }
        assert forall|x: int| 0 <= x < aliases@.len() implies alias_use(
            snap,
            entry,
            (#[trigger] aliases@[x]).literal@,
            texts(aliases@[x].target@),
        ) by {
            if x < before.len() {
                assert(aliases@[x] == before[x]);
            }
        }
        assert forall|x: int, y: int| 0 <= x < y < aliases@.len() implies (
        #[trigger] aliases@[x]).literal@ != (#[trigger] aliases@[y]).literal@ by {
            assert(aliases@[x] == before[x]);
            if y < before.len() {
                assert(aliases@[y] == before[y]);
            }
        }
    }
}

/// The `j`-th of the references `lits`, written in a script of the
/// directory `dir`, is an alias reference, not to `@self`, that resolves
/// to a file.
pub open spec fn alias_hit(snap: Snapshot, lits: Seq<Seq<char>>, j: int, dir: Seq<Seq<char>>) -> bool {
    &&& is_alias(lits[j])
    &&& alias_name(lits[j]) != "self"@
    &&& lit_target(snap, lits, j, dir) is Module
}

/// A reference that starts with `@` is neither relative nor absolute.
proof fn lemma_alias_form(text: Seq<char>)
    ensures
        is_alias(text) ==> !crate::resolver::is_relative(text) && !crate::resolver::is_absolute(
            text,
        ),
{
    reveal_strlit("@");
    reveal_strlit("./");
    reveal_strlit("../");
    reveal_strlit("/");
    if is_alias(text) {
        assert(text.take(1)[0] == '@');
        if crate::resolver::is_relative(text) {
            if crate::path::begins_with(text, "./"@) {
                assert(text.take(2)[0] == '.');
            } else {
                assert(text.take(3)[0] == '.');
            }
        }
        if crate::resolver::is_absolute(text) {
            assert(text.take(1)[0] == '/');
        }
    }
}

/// Notes the alias references among `lits`, those of the file `f`.
fn file_aliases(
    snap: &Snapshot,
    dir: &Vec<String>,
    lits: &Vec<String>,
    aliases: &mut Vec<AliasUse>,
    Ghost(entry): Ghost<Seq<Seq<char>>>,
    Ghost(f): Ghost<Seq<Seq<char>>>,
) -> (r: Result<(), BundleError>)
    requires
        reachable(*snap, entry, f),
        source_of(*snap, f) is Some,
        texts(lits@) == required_literals(source_of(*snap, f)->0),
        texts(dir@) == parent(f),
        uses_ok(*snap, entry, old(aliases)@),
    ensures
        match r {
            Ok(()) => {
                &&& uses_ok(*snap, entry, final(aliases)@)
                &&& forall|l: Seq<char>| #[trigger]
                    has_literal(old(aliases)@, l) ==> has_literal(final(aliases)@, l)
                &&& forall|l: Seq<char>, g: Seq<Seq<char>>| #[trigger]
                    uses_alias(*snap, f, l, g) ==> has_literal(final(aliases)@, l)
                &&& use_views(final(aliases)@) == notes_of_file(
                    *snap,
                    use_views(old(aliases)@),
                    texts(lits@),
                    texts(dir@),
                )
            },
            Err(e) => e matches BundleError::Unprobed(q) && !snap.answers(q)
                && crate::walk::any_asks(*snap, texts(lits@), lits@.len() as int, texts(dir@), q),
        },
{
    let none: Vec<String> = Vec::new();
    assert(texts(none@) =~= Seq::<Seq<char>>::empty());
    let ghost ls = texts(lits@);
    let ghost d = texts(dir@);
    let mut j: usize = 0;
    assert(ls.take(0) =~= Seq::empty());
    while j < lits.len()
        invariant
            j <= lits@.len(),
            use_views(aliases@) == notes_of_file(
                *snap,
                use_views(old(aliases)@),
                ls.take(j as int),
                d,
            ),
            ls == texts(lits@),
            d == texts(dir@),
            texts(none@) == Seq::<Seq<char>>::empty(),
            reachable(*snap, entry, f),
            source_of(*snap, f) is Some,
            ls == required_literals(source_of(*snap, f)->0),
            d == parent(f),
            uses_ok(*snap, entry, aliases@),
            forall|l: Seq<char>| #[trigger]
                has_literal(old(aliases)@, l) ==> has_literal(aliases@, l),
            forall|x: int|
                0 <= x < j && #[trigger] alias_hit(*snap, ls, x, d) ==> has_literal(
                    aliases@,
                    ls[x],
                ),
        decreases lits@.len() - j,
    {
        let ghost before = aliases@;
        let lit = lits[j].as_str();
        proof {
            lemma_alias_form(lit@);
            let t = ls.take(j as int + 1);
            assert(t.drop_last() =~= ls.take(j as int));
            assert(t[t.len() - 1] == ls[j as int]);
            assert(lit_target(*snap, t, t.len() - 1, d) == lit_target(*snap, ls, j as int, d));
        }
        let wanted = match parse_reference(lit) {
            Ok(ModuleRef::Alias { name, rest }) => !same_text(name.as_str(), "self"),
            _ => false,
        };
        if wanted {
            match resolve(snap, &none, lit, dir) {
                Ok(Target::Module(p)) => {
                    proof {
                        assert(lit_target(*snap, ls, j as int, d) == Verdict::Module(texts(p@)));
                        assert(uses_alias(*snap, f, lit@, texts(p@)));
                    }
                    record_alias(aliases, lit, p, Ghost(*snap), Ghost(entry));
                },
                Err(ResolveError::Unprobed(q)) => {
                    assert(crate::walk::lit_asks(*snap, ls, j as int, d, q));
                    return Err(BundleError::Unprobed(q));
                },
                _ => {},
            }
        }
        proof {
            assert forall|x: int| 0 <= x < j + 1 && #[trigger] alias_hit(
                *snap,
                ls,
                x,
                d,
            ) implies has_literal(aliases@, ls[x]) by {
                if x < j {
                    assert(has_literal(before, ls[x]));
                }
            }
        }
        j += 1;
    }
    assert(ls.take(j as int) =~= ls);
    proof {
        assert forall|l: Seq<char>, g: Seq<Seq<char>>| #[trigger]
            uses_alias(*snap, f, l, g) implies has_literal(aliases@, l) by {
            let x = choose|x: int|
                0 <= x < ls.len() && ls[x] == l && #[trigger] lit_target(*snap, ls, x, d)
                    == Verdict::Module(g);
            assert(alias_hit(*snap, ls, x, d));
        }
    }
    Ok(())
}

/// Notes the alias references of every visited file.
fn collect_aliases(snap: &Snapshot, found: &Vec<Visited>, Ghost(entry): Ghost<Seq<Seq<char>>>) -> (r:
    Result<Vec<AliasUse>, BundleError>)
    requires
        regex_compiles(REQUIRE_PATTERN@),
        visited_ok(*snap, entry, found@),
        forall|g: Seq<Seq<char>>| #[trigger]
            reachable(*snap, entry, g) ==> visited_paths(found@).contains(g),
    ensures
        match r {
            Ok(aliases) => {
                &&& uses_ok(*snap, entry, aliases@)
                &&& forall|l: Seq<char>, g: Seq<Seq<char>>| #[trigger]
                    alias_use(*snap, entry, l, g) ==> has_literal(aliases@, l)
                &&& use_views(aliases@) == notes_of_walk(*snap, visited_paths(found@))
            },
            Err(e) => e matches BundleError::Unprobed(q) && !snap.answers(q)
                && crate::walk::walk_asks(*snap, entry, q),
        },
{
    let mut aliases: Vec<AliasUse> = Vec::new();
    let mut a: usize = 0;
    assert(visited_paths(found@).take(0) =~= Seq::empty());
    assert(use_views(aliases@) =~= Seq::empty());
    while a < found.len()
        invariant
            a <= found@.len(),
            use_views(aliases@) == notes_of_walk(*snap, visited_paths(found@).take(a as int)),
            regex_compiles(REQUIRE_PATTERN@),
            visited_ok(*snap, entry, found@),
            uses_ok(*snap, entry, aliases@),
            forall|x: int, l: Seq<char>, g: Seq<Seq<char>>|
                0 <= x < a && #[trigger] uses_alias(
                    *snap,
                    #[trigger] visited_paths(found@)[x],
                    l,
                    g,
                ) ==> has_literal(aliases@, l),
        decreases found@.len() - a,
    {
        let ghost f = visited_paths(found@)[a as int];
        let ghost before = aliases@;
        assert(good_file(*snap, entry, f, found@[a as int].index as int));
        proof {
            crate::snapshot::lemma_first_index(
                crate::snapshot::listing_paths(snap.listings@),
                render_abs(f),
            );
            let t = visited_paths(found@).take(a as int + 1);
            assert(t.drop_last() =~= visited_paths(found@).take(a as int));
            assert(t.last() == f);
        }
        match &snap.listings[found[a].index].entry {
            Entry::File(bytes) => {
                match scan_requires(bytes) {
                    Some(lits) => {
                        let dir = parent_of(&found[a].parts);
                        match file_aliases(snap, &dir, &lits, &mut aliases, Ghost(entry), Ghost(f)) {
                            Ok(()) => {},
                            Err(e) => {
                                proof {
                                    assert(e matches BundleError::Unprobed(q)
                                        && crate::walk::file_asks(*snap, f, q));
                                }
                                return Err(e);
                            },
                        }
                    },
                    None => {
                        assert(false);
                    },
                }
            },
            _ => {
                assert(false);
            },
        }
        proof {
            assert forall|x: int, l: Seq<char>, g: Seq<Seq<char>>|
                0 <= x < a + 1 && #[trigger] uses_alias(
                    *snap,
                    #[trigger] visited_paths(found@)[x],
                    l,
                    g,
                ) implies has_literal(aliases@, l) by {
                if x < a {
                    assert(has_literal(before, l));
                }
            }
        }
        a += 1;
    }
    assert(visited_paths(found@).take(a as int) =~= visited_paths(found@));
    proof {
        assert forall|l: Seq<char>, g: Seq<Seq<char>>| #[trigger]
            alias_use(*snap, entry, l, g) implies has_literal(aliases@, l) by {
            let f = choose|f: Seq<Seq<char>>|
                reachable(*snap, entry, f) && #[trigger] uses_alias(*snap, f, l, g);
            assert(visited_paths(found@).contains(f));
            let x = choose|x: int|
                0 <= x < visited_paths(found@).len() && visited_paths(found@)[x] == f;
            assert(uses_alias(*snap, visited_paths(found@)[x], l, g));
        }
    }
    Ok(aliases)
}

/// What an alias reference of a reached file resolves to is reached too.
pub proof fn lemma_alias_target_reachable(
    snap: Snapshot,
    entry: Seq<Seq<char>>,
    lit: Seq<char>,
    g: Seq<Seq<char>>,
)
    requires
        alias_use(snap, entry, lit, g),
    ensures
        reachable(snap, entry, g),
{
    let f = choose|f: Seq<Seq<char>>|
        reachable(snap, entry, f) && #[trigger] uses_alias(snap, f, lit, g);
    let bytes = source_of(snap, f)->0;
    let j = choose|j: int|
        0 <= j < required_literals(bytes).len() && required_literals(bytes)[j] == lit
            && #[trigger] lit_target(snap, required_literals(bytes), j, parent(f))
            == Verdict::Module(g);
    assert(requires_file(snap, f, g));
    crate::graph::lemma_reach_step(snap, entry, f, g);
}

/// Writes every noted alias with the key of its file.
fn keyed_aliases(base: &Vec<String>, aliases: &Vec<AliasUse>) -> (r: Vec<(String, String)>)
    requires
        forall|i: int|
            0 <= i < aliases@.len() ==> is_prefix(texts(base@), texts((#[trigger] aliases@[i]).target@)),
    ensures
        r@.len() == aliases@.len(),
        forall|i: int|
            0 <= i < r@.len() ==> (#[trigger] r@[i]).0@ == aliases@[i].literal@ && r@[i].1@
                == key_of(texts(base@), texts(aliases@[i].target@)),
{
    let mut out: Vec<(String, String)> = Vec::new();
    let mut i: usize = 0;
    while i < aliases.len()
        invariant
            i <= aliases@.len(),
            out@.len() == i,
            forall|x: int|
                0 <= x < aliases@.len() ==> is_prefix(
                    texts(base@),
                    texts((#[trigger] aliases@[x]).target@),
                ),
            forall|x: int|
                0 <= x < i ==> (#[trigger] out@[x]).0@ == aliases@[x].literal@ && out@[x].1@
                    == key_of(texts(base@), texts(aliases@[x].target@)),
        decreases aliases@.len() - i,
    {
        assert(is_prefix(texts(base@), texts(aliases@[i as int].target@)));
        let rest = tail_of(&aliases[i].target, base.len());
        let key = render_path(&rest);
        let ghost before = out@;
        out.push((aliases[i].literal.clone(), key));
        assert(forall|x: int| 0 <= x < i ==> out@[x] == before[x]);
        i += 1;
    }
    out
}

/// Every noted alias leads to a file under the root that leads to every
/// visited file.
proof fn lemma_alias_targets_under(
    snap: Snapshot,
    e: Seq<Seq<char>>,
    b: Seq<Seq<char>>,
    found: Seq<Visited>,
    uses: Seq<AliasUse>,
)
    requires
        uses_ok(snap, e, uses),
        forall|g: Seq<Seq<char>>| #[trigger]
            reachable(snap, e, g) ==> visited_paths(found).contains(g),
        forall|i: int| 0 <= i < found.len() ==> is_prefix(b, #[trigger] visited_paths(found)[i]),
    ensures
        forall|i: int| 0 <= i < uses.len() ==> is_prefix(b, texts((#[trigger] uses[i]).target@)),
{
    assert forall|i: int| 0 <= i < uses.len() implies is_prefix(
        b,
        texts((#[trigger] uses[i]).target@),
    ) by {
        let g = texts(uses[i].target@);
        lemma_alias_target_reachable(snap, e, uses[i].literal@, g);
        let x = choose|x: int| 0 <= x < visited_paths(found).len() && visited_paths(found)[x] == g;
        assert(is_prefix(b, visited_paths(found)[x]));
    }
}

/// The keyed files of a finished walk are the files of a bundle.
proof fn lemma_files_ok(
    snap: Snapshot,
    e: Seq<Seq<char>>,
    b: Seq<Seq<char>>,
    found: Seq<Visited>,
    files: Seq<(String, Vec<u8>)>,
)
    requires
        visited_ok(snap, e, found),
        forall|g: Seq<Seq<char>>| #[trigger]
            reachable(snap, e, g) ==> visited_paths(found).contains(g),
        forall|i: int| 0 <= i < found.len() ==> is_prefix(b, #[trigger] visited_paths(found)[i]),
        files.len() == found.len(),
        forall|i: int|
            0 <= i < files.len() ==> (#[trigger] files[i]).0@ == key_of(
                b,
                visited_paths(found)[i],
            ) && source_of(snap, visited_paths(found)[i]) == Some(files[i].1@),
    ensures
        files_ok(snap, e, b, files),
{
    let paths = visited_paths(found);
    assert forall|g: Seq<Seq<char>>| #[trigger] reachable(snap, e, g) implies is_prefix(b, g)
        && exists|i: int|
        0 <= i < files.len() && (#[trigger] files[i]).0@ == key_of(b, g) && source_of(snap, g)
            == Some(files[i].1@) by {
        let x = choose|x: int| 0 <= x < paths.len() && paths[x] == g;
        assert(is_prefix(b, paths[x]));
        assert(files[x].0@ == key_of(b, g));
    }
    assert forall|i: int| 0 <= i < files.len() implies file_of(
        snap,
        e,
        b,
        (#[trigger] files[i]).0@,
        files[i].1@,
    ) by {
        assert(good_file(snap, e, paths[i], found[i].index as int));
        assert(reachable(snap, e, paths[i]));
    }
    assert forall|i: int, j: int| 0 <= i < j < files.len() implies (#[trigger] files[i]).0@ != (
    #[trigger] files[j]).0@ by {
        assert(good_file(snap, e, paths[i], found[i].index as int));
        assert(good_file(snap, e, paths[j], found[j].index as int));
        assert(found[i].index != found[j].index);
        assert(is_prefix(b, paths[i]) && is_prefix(b, paths[j]));
        if files[i].0@ == files[j].0@ {
            lemma_key_injective(b, paths[i], paths[j]);
        }
    }
}

/// The keyed aliases of a finished walk are the aliases of a bundle.
proof fn lemma_aliases_ok(
    snap: Snapshot,
    e: Seq<Seq<char>>,
    b: Seq<Seq<char>>,
    uses: Seq<AliasUse>,
    aliases: Seq<(String, String)>,
)
    requires
        uses_ok(snap, e, uses),
        forall|l: Seq<char>, g: Seq<Seq<char>>| #[trigger]
            alias_use(snap, e, l, g) ==> has_literal(uses, l),
        aliases.len() == uses.len(),
        forall|i: int|
            0 <= i < aliases.len() ==> (#[trigger] aliases[i]).0@ == uses[i].literal@
                && aliases[i].1@ == key_of(b, texts(uses[i].target@)),
    ensures
        aliases_ok(snap, e, b, aliases),
{
    assert forall|l: Seq<char>, g: Seq<Seq<char>>| #[trigger]
        alias_use(snap, e, l, g) implies exists|i: int|
        0 <= i < aliases.len() && (#[trigger] aliases[i]).0@ == l by {
        let x = choose|x: int| 0 <= x < uses.len() && (#[trigger] uses[x]).literal@ == l;
        assert(aliases[x].0@ == l);
    }
    assert forall|i: int| 0 <= i < aliases.len() implies alias_of(
        snap,
        e,
        b,
        (#[trigger] aliases[i]).0@,
        aliases[i].1@,
    ) by {
        assert(alias_use(snap, e, uses[i].literal@, texts(uses[i].target@)));
    }
    assert forall|i: int, j: int| 0 <= i < j < aliases.len() implies (#[trigger] aliases[i]).0@
        != (#[trigger] aliases[j]).0@ by {
        assert(uses[i].literal@ != uses[j].literal@);
    }
}

impl Bundler {
    /// The project root: the directory that the keys of a bundle start from.
    pub closed spec fn base(&self) -> Seq<Seq<char>> {
        texts(self.base_dir@)
    }

    /// A bundler for the entry file at the absolute path `entry`, with the
    /// first guess at its project root.
    pub fn new(snap: &Snapshot, entry: &str) -> (r: Result<Bundler, BundleError>)
        ensures
            match r {
                Ok(b) => regex_compiles(REQUIRE_PATTERN@) && b.base() == project_root(
                    *snap,
                    parse(entry@),
                ),
                Err(BundleError::Pattern) => !regex_compiles(REQUIRE_PATTERN@),
                Err(BundleError::Unprobed(q)) => regex_compiles(REQUIRE_PATTERN@)
                    && !snap.answers(q) && asks_named_above(q, parent(parse(entry@)), ".luaurc"@),
                Err(BundleError::Io(_)) => false,
            },
    {
        if !pattern_usable() {
            return Err(BundleError::Pattern);
        }
        let parts = parse_path(entry);
        match find_project_root(snap, &parts) {
            Ok(root) => Ok(Bundler { base_dir: root }),
            Err(e) => Err(e),
        }
    }

    /// The project root, as the text of an absolute path.
    pub fn base_dir(&self) -> (r: String)
        ensures
            r@ == render_abs(self.base()),
    {
        render_path(&self.base_dir)
    }

    /// The key of the file at `path`: its path from the project root,
    /// written with a leading slash; its whole path where the project
    /// root does not lead to it.
    pub fn normalize_path(&self, path: &Vec<String>) -> (r: String)
        ensures
            r@ == if is_prefix(self.base(), texts(path@)) {
                key_of(self.base(), texts(path@))
            } else {
                render_abs(texts(path@))
            },
    {
        if has_prefix(path, &self.base_dir) {
            render_path(&tail_of(path, self.base_dir.len()))
        } else {
            render_path(path)
        }
    }

    /// Bundles the entry file at the absolute path `entry` with all that it
    /// reaches: the result is fixed by the snapshot and the entry. The
    /// files stand in the order of the visits; of two files that resolve
    /// one alias reference differently, the one visited later counts;
    /// `Io` names the first path of the walk that is no readable file.
    /// The project root is widened until it leads to every file of the
    /// bundle. An open snapshot that lacks an answer which the walk
    /// depends on gives `Unprobed` with the question.
    pub fn bundle(&mut self, snap: &Snapshot, entry: &str) -> (r: Result<BundleResult, BundleError>)
        ensures
            match r {
                Ok(b) => {
                    &&& regex_compiles(REQUIRE_PATTERN@)
                    &&& is_prefix(final(self).base(), old(self).base())
                    &&& deepest_root(*snap, parse(entry@), old(self).base(), final(self).base())
                    &&& files_ok(*snap, parse(entry@), final(self).base(), b.files@)
                    &&& aliases_ok(*snap, parse(entry@), final(self).base(), b.aliases@)
                    &&& exactly(
                        *snap,
                        parse(entry@),
                        old(self).base(),
                        final(self).base(),
                        b.files@,
                        b.aliases@,
                    )
                },
                Err(BundleError::Io(p)) => {
                    &&& final(self).base() == old(self).base()
                    &&& exists|g: Seq<Seq<char>>|
                        reachable(*snap, parse(entry@), g) && #[trigger] render_abs(g) == p@
                            && snap.knows(p@) && source_of(*snap, g) is None
                    &&& crate::walk::walk_order(*snap, parse(entry@)) == Err::<
                        Seq<Seq<Seq<char>>>,
                        Seq<char>,
                    >(p@)
                },
                Err(BundleError::Pattern) => final(self).base() == old(self).base()
                    && !regex_compiles(REQUIRE_PATTERN@),
                Err(BundleError::Unprobed(q)) => final(self).base() == old(self).base()
                    && !snap.answers(q) && crate::walk::walk_asks(*snap, parse(entry@), q),
            },
    {
        let parts = parse_path(entry);
        let ghost e = texts(parts@);
        proof {
            lemma_join_canonical(Seq::empty(), entry@);
        }
        let found = collect(snap, &parts)?;
        let uses = collect_aliases(snap, &found, Ghost(e))?;
        let base = widen_over(copy_parts(&self.base_dir), &found);
        let ghost b = texts(base@);
        proof {
            lemma_widen_all(texts(self.base_dir@), visited_paths(found@));
            lemma_alias_targets_under(*snap, e, b, found@, uses@);
            assert forall|c: Seq<Seq<char>>|
                is_prefix(c, texts(self.base_dir@)) && (forall|g: Seq<Seq<char>>| #[trigger]
                    reachable(*snap, e, g) ==> is_prefix(c, g)) implies #[trigger] is_prefix(
                c,
                b,
            ) by {
                assert forall|i: int| 0 <= i < found@.len() implies is_prefix(
                    c,
                    #[trigger] visited_paths(found@)[i],
                ) by {
                    assert(good_file(*snap, e, visited_paths(found@)[i], found@[i].index as int));
                }
                lemma_widen_all_deepest(texts(self.base_dir@), visited_paths(found@), c);
            }
        }
        let files = keyed_files(snap, &base, &found, Ghost(e));
        let aliases = keyed_aliases(&base, &uses);
        proof {
            lemma_files_ok(*snap, e, b, found@, files@);
            lemma_aliases_ok(*snap, e, b, uses@, aliases@);
        }
        self.base_dir = base;
        Ok(BundleResult { files, aliases })
    }
}

/// The bundle is fixed by the snapshot, the entry and the root that the
/// bundler started with: two bundles of one walk have the same root, the
/// same files under the same keys in the same order, and the same
/// aliases.
pub proof fn law_bundle_is_fixed(
    snap: Snapshot,
    entry: Seq<Seq<char>>,
    old: Seq<Seq<char>>,
    base1: Seq<Seq<char>>,
    files1: Seq<(String, Vec<u8>)>,
    aliases1: Seq<(String, String)>,
    base2: Seq<Seq<char>>,
    files2: Seq<(String, Vec<u8>)>,
    aliases2: Seq<(String, String)>,
)
    requires
        exactly(snap, entry, old, base1, files1, aliases1),
        exactly(snap, entry, old, base2, files2, aliases2),
    ensures
        base1 == base2,
        crate::metadata::file_views(files1) == crate::metadata::file_views(files2),
        crate::metadata::alias_views(aliases1) == crate::metadata::alias_views(aliases2),
{
    let order = crate::walk::walk_order(snap, entry)->Ok_0;
    assert forall|i: int| 0 <= i < files1.len() implies files1[i].0@ == files2[i].0@
        && files1[i].1@ == files2[i].1@ by {
        assert(source_of(snap, order[i]) == Some(files1[i].1@));
        assert(source_of(snap, order[i]) == Some(files2[i].1@));
    }
    assert(crate::metadata::file_views(files1) =~= crate::metadata::file_views(files2));
    assert forall|i: int| 0 <= i < aliases1.len() implies aliases1[i].0@ == aliases2[i].0@
        && aliases1[i].1@ == aliases2[i].1@ by {
        assert(aliases1[i].0@ == aliases2[i].0@);
    }
    assert(crate::metadata::alias_views(aliases1) =~= crate::metadata::alias_views(aliases2));
}

} // verus!
