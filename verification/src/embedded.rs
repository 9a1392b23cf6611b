//! A bundle as the filesystem of a standalone binary: the bundled files
//! are all the files there are, and the bundled aliases lead straight to
//! their files.

use crate::path::{head_of, parse, parse_path, render_abs, render_path, same_text, texts};
use crate::snapshot::{
    first_index, lemma_first_index, lemma_first_index_is, listing_paths, Entry, Listing,
    Snapshot,
};
use vstd::prelude::*;

verus! {

/// The references of `aliases`, in order.
pub open spec fn alias_literals(aliases: Seq<(String, String)>) -> Seq<Seq<char>> {
    Seq::new(aliases.len(), |i: int| aliases[i].0@)
}

/// The keys of `files`, in order.
pub open spec fn file_keys(files: Seq<(String, Vec<u8>)>) -> Seq<Seq<char>> {
    Seq::new(files.len(), |i: int| files[i].0@)
}

/// The file that the bundle gives the alias reference `text`: the file
/// at the key of the first pair for that reference.
pub open spec fn bundled(aliases: Seq<(String, String)>, text: Seq<char>) -> Option<
    Seq<Seq<char>>,
> {
    match first_index(alias_literals(aliases), text) {
        Some(i) => Some(parse(aliases[i].1@)),
        None => None,
    }
}

/// The directory above the file at `key` that `n` of its names lead to,
/// as text.
pub open spec fn ancestor(key: Seq<char>, n: int) -> Seq<char> {
    render_abs(parse(key).take(n))
}

/// The snapshot `s` has a file with the contents `contents` at `key`.
pub open spec fn holds_file(s: Snapshot, key: Seq<char>, contents: Seq<u8>) -> bool {
    s.entry(key) matches Entry::File(b) && b@ == contents
}

/// The file that the bundle gives the alias reference `text`.
pub fn bundled_target(aliases: &Vec<(String, String)>, text: &str) -> (r: Option<Vec<String>>)
    ensures
        match r {
            Some(p) => bundled(aliases@, text@) == Some(texts(p@)),
            None => bundled(aliases@, text@) is None,
        },
{
    let mut i: usize = 0;
    while i < aliases.len()
        invariant
            i <= aliases@.len(),
            forall|j: int| 0 <= j < i ==> alias_literals(aliases@)[j] != text@,
        decreases aliases@.len() - i,
    {
        if same_text(aliases[i].0.as_str(), text) {
            proof {
                lemma_first_index_is(alias_literals(aliases@), text@, i as int);
            }
            return Some(parse_path(aliases[i].1.as_str()));
        }
        i += 1;
    }
    proof {
        lemma_first_index(alias_literals(aliases@), text@);
    }
    None
}

/// The listings hold, at their start, the files of `files` with their
/// contents, and behind them directories only.
spec fn files_first(listings: Seq<Listing>, files: Seq<(String, Vec<u8>)>, upto: int) -> bool {
    &&& listings.len() >= upto
    &&& forall|j: int|
        0 <= j < upto ==> (#[trigger] listings[j]).path@ == files[j].0@ && (listings[j].entry
            matches Entry::File(b) && b@ == files[j].1@)
    &&& forall|j: int| upto <= j < listings.len() ==> (#[trigger] listings[j]).entry == Entry::Directory
}

/// One of the listings behind the files is for the path `t`.
spec fn listed_behind(listings: Seq<Listing>, from: int, t: Seq<char>) -> bool {
    exists|j: int| from <= j < listings.len() && (#[trigger] listings[j]).path@ == t
}

/// A directory that is listed behind the files, and is no key of a
/// file, is a directory of the snapshot.
proof fn lemma_listed_is_dir(s: Snapshot, files: Seq<(String, Vec<u8>)>, t: Seq<char>)
    requires
        files_first(s.listings@, files, files.len() as int),
        listed_behind(s.listings@, files.len() as int, t),
        first_index(file_keys(files), t) is None,
    ensures
        s.is_dir(t),
{
    let paths = listing_paths(s.listings@);
    lemma_first_index(paths, t);
    lemma_first_index(file_keys(files), t);
    let j = choose|j: int| files.len() <= j < s.listings@.len() && (#[trigger] s.listings@[j]).path@
        == t;
    assert(paths[j] == t);
    let k = first_index(paths, t)->0;
    if k < files.len() {
        assert(s.listings@[k].path@ == files[k].0@);
        assert(file_keys(files)[k] == t);
    }
    assert(s.listings@[k].entry == Entry::Directory);
}

/// A file of the bundle is a file of the snapshot, with its contents.
proof fn lemma_listed_is_file(s: Snapshot, files: Seq<(String, Vec<u8>)>, key: Seq<char>)
    requires
        files_first(s.listings@, files, files.len() as int),
        first_index(file_keys(files), key) is Some,
    ensures
        s.entry(key) matches Entry::File(b) && b@ == files[first_index(file_keys(files), key)->0].1@,
{
    let paths = listing_paths(s.listings@);
    let i = first_index(file_keys(files), key)->0;
    lemma_first_index(file_keys(files), key);
    assert(paths[i] == key) by {
        assert(s.listings@[i].path@ == files[i].0@);
    }
    assert forall|j: int| 0 <= j < i implies paths[j] != key by {
        assert(s.listings@[j].path@ == files[j].0@);
        assert(file_keys(files)[j] != key);
    }
    lemma_first_index_is(paths, key, i);
}

/// The snapshot that stands for the files of a bundle: each key is a
/// file with its contents (of two files under one key the first), each
/// directory above a file is a directory unless it is itself the key of
/// a file, and there is nothing else.
pub fn embedded_snapshot(files: &Vec<(String, Vec<u8>)>) -> (s: Snapshot)
    ensures
        s.sealed,
        s.configs@.len() == 0,
        forall|k: int|
            0 <= k < files@.len() && first_index(file_keys(files@), (#[trigger] files@[k]).0@)
                == Some(k) ==> holds_file(s, files@[k].0@, files@[k].1@),
        forall|i: int, n: int|
            0 <= i < files@.len() && 0 <= n < parse(files@[i].0@).len() && first_index(
                file_keys(files@),
                #[trigger] ancestor(files@[i].0@, n),
            ) is None ==> s.is_dir(ancestor(files@[i].0@, n)),
{
    let mut listings: Vec<Listing> = Vec::new();
    let mut i: usize = 0;
    while i < files.len()
        invariant
            i <= files@.len(),
            listings@.len() == i,
            files_first(listings@, files@, i as int),
        decreases files@.len() - i,
    {
        let ghost before = listings@;
        let contents = crate::bundler::copy_bytes(&files[i].1);
        listings.push(Listing { path: files[i].0.clone(), entry: Entry::File(contents) });
        assert(forall|j: int| 0 <= j < i ==> listings@[j] == before[j]);
        i += 1;
    }
    let ghost count = files@.len() as int;
    let mut a: usize = 0;
    while a < files.len()
        invariant
            a <= files@.len(),
            count == files@.len(),
            files_first(listings@, files@, count),
            forall|x: int, n: int|
                0 <= x < a && 0 <= n < parse(files@[x].0@).len() ==> listed_behind(
                    listings@,
                    count,
                    #[trigger] ancestor(files@[x].0@, n),
                ),
        decreases files@.len() - a,
    {
        let parts = parse_path(files[a].0.as_str());
        let mut n: usize = 0;
        while n < parts.len()
            invariant
                a < files@.len(),
                n <= parts@.len(),
                texts(parts@) == parse(files@[a as int].0@),
                count == files@.len(),
                files_first(listings@, files@, count),
                forall|x: int, m: int|
                    0 <= x < a && 0 <= m < parse(files@[x].0@).len() ==> listed_behind(
                        listings@,
                        count,
                        #[trigger] ancestor(files@[x].0@, m),
                    ),
                forall|m: int|
                    0 <= m < n ==> listed_behind(
                        listings@,
                        count,
                        #[trigger] ancestor(files@[a as int].0@, m),
                    ),
            decreases parts@.len() - n,
        {
            let ghost before = listings@;
            let above = head_of(&parts, n);
            let text = render_path(&above);
            listings.push(Listing { path: text, entry: Entry::Directory });
            proof {
                assert(forall|j: int| 0 <= j < before.len() ==> listings@[j] == before[j]);
                assert(listings@[before.len() as int].path@ == ancestor(files@[a as int].0@, n as int));
                assert forall|x: int, m: int|
                    0 <= x < a && 0 <= m < parse(files@[x].0@).len() implies listed_behind(
                    listings@,
                    count,
                    #[trigger] ancestor(files@[x].0@, m),
                ) by {
                    lemma_still_listed(before, listings@, count, ancestor(files@[x].0@, m));
                }
                assert forall|m: int| 0 <= m < n + 1 implies listed_behind(
                    listings@,
                    count,
                    #[trigger] ancestor(files@[a as int].0@, m),
                ) by {
                    if m < n {
                        lemma_still_listed(
                            before,
                            listings@,
                            count,
                            ancestor(files@[a as int].0@, m),
                        );
                    }
                }
            }
            n += 1;
        }
        a += 1;
    }
    let s = Snapshot { listings, configs: Vec::new(), sealed: true };
    proof {
        assert forall|k: int|
            0 <= k < files@.len() && first_index(file_keys(files@), (#[trigger] files@[k]).0@)
                == Some(k) implies holds_file(s, files@[k].0@, files@[k].1@) by {
            lemma_listed_is_file(s, files@, files@[k].0@);
        }
        assert forall|k: int, n: int|
            0 <= k < files@.len() && 0 <= n < parse(files@[k].0@).len() && first_index(
                file_keys(files@),
                #[trigger] ancestor(files@[k].0@, n),
            ) is None implies s.is_dir(ancestor(files@[k].0@, n)) by {
            lemma_listed_is_dir(s, files@, ancestor(files@[k].0@, n));
        }
    }
    s
}

/// What is listed behind the files stays listed when a listing is added.
proof fn lemma_still_listed(before: Seq<Listing>, after: Seq<Listing>, from: int, t: Seq<char>)
    requires
        from >= 0,
        after.len() >= before.len(),
        forall|j: int| 0 <= j < before.len() ==> #[trigger] after[j] == before[j],
        listed_behind(before, from, t),
    ensures
        listed_behind(after, from, t),
{
    let j = choose|j: int| from <= j < before.len() && (#[trigger] before[j]).path@ == t;
    assert(after[j] == before[j]);
    assert(after[j].path@ == t);
}

} // verus!
