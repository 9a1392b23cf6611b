//! A snapshot of the part of a filesystem that module resolution looks at.
//!
//! Resolution and bundling never touch the disk: they read a [`Snapshot`],
//! which lists what is known of some absolute paths and of the alias
//! configuration of some directories. A sealed snapshot is complete: what
//! it does not list does not exist. An open snapshot is partial: what it
//! does not list is unknown, and a function that needs it answers with the
//! [`Query`] to put to the disk before calling again.

use crate::path::same_text;
use vstd::prelude::*;

verus! {

/// What is known of one path.
#[derive(Debug, Clone, PartialEq, Eq)]
pub enum Entry {
    /// A file and its contents.
    File(Vec<u8>),
    /// A file whose contents cannot be read.
    Unreadable,
    /// A directory.
    Directory,
    /// Nothing is there.
    Absent,
}

/// What kind of thing a path leads to.
#[derive(Debug, Clone, Copy, PartialEq, Eq, Structural)]
pub enum Kind {
    Absent,
    Directory,
    File,
    Unreadable,
}

/// One path, written as canonical absolute text, and what is known of it.
#[derive(Debug, Clone, PartialEq, Eq)]
pub struct Listing {
    pub path: String,
    pub entry: Entry,
}

/// One alias of a configuration: a name and the path fragment it stands for.
#[derive(Debug, Clone, PartialEq, Eq)]
pub struct Alias {
    pub name: String,
    pub target: String,
}

/// The aliases that the configuration file of one directory declares;
/// `None` where the directory has no usable configuration file.
#[derive(Debug, Clone, PartialEq, Eq)]
pub struct Config {
    pub dir: String,
    pub aliases: Option<Vec<Alias>>,
}

/// A question that a snapshot does not answer.
#[derive(Debug, Clone, PartialEq, Eq)]
pub enum Query {
    /// What is at this path?
    Entry(String),
    /// Which aliases does the configuration of this directory declare?
    Config(String),
}

/// What is known of a filesystem. Of two listings of one path, or two
/// configurations of one directory, the first counts.
#[derive(Debug, Clone, PartialEq, Eq)]
pub struct Snapshot {
    pub listings: Vec<Listing>,
    pub configs: Vec<Config>,
    pub sealed: bool,
}

/// The first position at which `key` stands in `keys`.
pub open spec fn first_index(keys: Seq<Seq<char>>, key: Seq<char>) -> Option<int>
    decreases keys.len(),
{
    if keys.len() == 0 {
        None
    } else {
        match first_index(keys.drop_last(), key) {
            Some(i) => Some(i),
            None => if keys.last() == key {
                Some(keys.len() - 1)
            } else {
                None
            },
        }
    }
}

/// [`first_index`] is the least position that holds the key, if any does.
pub proof fn lemma_first_index(keys: Seq<Seq<char>>, key: Seq<char>)
    ensures
        match first_index(keys, key) {
            Some(i) => 0 <= i < keys.len() && keys[i] == key && forall|j: int|
                0 <= j < i ==> keys[j] != key,
            None => forall|j: int| 0 <= j < keys.len() ==> keys[j] != key,
        },
    decreases keys.len(),
{
    if keys.len() > 0 {
        lemma_first_index(keys.drop_last(), key);
        let init = keys.drop_last();
        assert(forall|j: int| 0 <= j < init.len() ==> init[j] == keys[j]);
    }
}

/// The position `i` holds the key and none before it does: it is the first.
pub proof fn lemma_first_index_is(keys: Seq<Seq<char>>, key: Seq<char>, i: int)
    requires
        0 <= i < keys.len(),
        keys[i] == key,
        forall|j: int| 0 <= j < i ==> keys[j] != key,
    ensures
        first_index(keys, key) == Some(i),
{
    lemma_first_index(keys, key);
}

/// The paths of `listings`, in order.
pub open spec fn listing_paths(listings: Seq<Listing>) -> Seq<Seq<char>> {
    Seq::new(listings.len(), |i: int| listings[i].path@)
}

/// The directories of `configs`, in order.
pub open spec fn config_dirs(configs: Seq<Config>) -> Seq<Seq<char>> {
    Seq::new(configs.len(), |i: int| configs[i].dir@)
}

/// The names of `aliases`, in order.
pub open spec fn alias_names(aliases: Seq<Alias>) -> Seq<Seq<char>> {
    Seq::new(aliases.len(), |i: int| aliases[i].name@)
}

/// What `name` stands for in `aliases`: the target of its first declaration.
pub open spec fn alias_target(aliases: Seq<Alias>, name: Seq<char>) -> Option<Seq<char>> {
    match first_index(alias_names(aliases), name) {
        Some(i) => Some(aliases[i].target@),
        None => None,
    }
}

/// The kind of an entry.
pub open spec fn kind_of(entry: Entry) -> Kind {
    match entry {
        Entry::File(_) => Kind::File,
        Entry::Unreadable => Kind::Unreadable,
        Entry::Directory => Kind::Directory,
        Entry::Absent => Kind::Absent,
    }
}

impl Snapshot {
    /// The position of the listing that counts for `path`.
    pub open spec fn index_of(&self, path: Seq<char>) -> Option<int> {
        first_index(listing_paths(self.listings@), path)
    }

    /// What the snapshot says is at `path`; nothing, where it does not list it.
    pub open spec fn entry(&self, path: Seq<char>) -> Entry {
        match self.index_of(path) {
            Some(i) => self.listings[i].entry,
            None => Entry::Absent,
        }
    }

    /// The kind of what is at `path`.
    pub open spec fn kind(&self, path: Seq<char>) -> Kind {
        kind_of(self.entry(path))
    }

    /// A file is at `path`, readable or not.
    pub open spec fn is_file(&self, path: Seq<char>) -> bool {
        self.kind(path) == Kind::File || self.kind(path) == Kind::Unreadable
    }

    /// A directory is at `path`.
    pub open spec fn is_dir(&self, path: Seq<char>) -> bool {
        self.kind(path) == Kind::Directory
    }

    /// Something is at `path`.
    pub open spec fn is_present(&self, path: Seq<char>) -> bool {
        self.kind(path) != Kind::Absent
    }

    /// The snapshot says what is at `path`.
    pub open spec fn knows(&self, path: Seq<char>) -> bool {
        self.sealed || self.index_of(path) is Some
    }

    /// The position of the configuration that counts for `dir`.
    pub open spec fn config_index(&self, dir: Seq<char>) -> Option<int> {
        first_index(config_dirs(self.configs@), dir)
    }

    /// The aliases that the configuration of `dir` declares; `None` where
    /// the snapshot lists none for it or lists that it has none.
    pub open spec fn aliases_at(&self, dir: Seq<char>) -> Option<Seq<Alias>> {
        match self.config_index(dir) {
            Some(i) => match self.configs[i].aliases {
                Some(v) => Some(v@),
                None => None,
            },
            None => None,
        }
    }

    /// What `name` stands for in the configuration of `dir`.
    pub open spec fn alias_at(&self, dir: Seq<char>, name: Seq<char>) -> Option<Seq<char>> {
        match self.aliases_at(dir) {
            Some(aliases) => alias_target(aliases, name),
            None => None,
        }
    }

    /// The snapshot says which aliases the configuration of `dir` declares.
    pub open spec fn knows_config(&self, dir: Seq<char>) -> bool {
        self.sealed || self.config_index(dir) is Some
    }

    /// The snapshot answers `query`.
    pub open spec fn answers(&self, query: Query) -> bool {
        match query {
            Query::Entry(path) => self.knows(path@),
            Query::Config(dir) => self.knows_config(dir@),
        }
    }

    /// A snapshot that knows nothing yet.
    pub fn new() -> (r: Snapshot)
        ensures
            r.listings@.len() == 0,
            r.configs@.len() == 0,
            !r.sealed,
    {
        Snapshot { listings: Vec::new(), configs: Vec::new(), sealed: false }
    }

    /// Declares the snapshot complete: what it does not list does not exist.
    pub fn seal(&mut self)
        ensures
            final(self).listings == old(self).listings,
            final(self).configs == old(self).configs,
            final(self).sealed,
    {
        self.sealed = true;
    }

    /// Lists what is at `path`, behind the listings made before.
    pub fn record(&mut self, path: &str, entry: Entry)
        ensures
            final(self).listings@.len() == old(self).listings@.len() + 1,
            final(self).listings@.drop_last() == old(self).listings@,
            final(self).listings@.last().path@ == path@,
            final(self).listings@.last().entry == entry,
            final(self).configs == old(self).configs,
            final(self).sealed == old(self).sealed,
            old(self).index_of(path@) is None ==> final(self).entry(path@) == entry,
            final(self).knows(path@),
    {
        let ghost before = self.listings@;
        self.listings.push(Listing { path: path.to_owned(), entry });
        proof {
            assert(self.listings@.drop_last() =~= before);
            assert(listing_paths(self.listings@).drop_last() =~= listing_paths(before));
            assert(listing_paths(self.listings@).last() == path@);
        }
    }

    /// Lists the aliases that the configuration of `dir` declares, behind
    /// the configurations listed before.
    pub fn record_config(&mut self, dir: &str, aliases: Option<Vec<Alias>>)
        ensures
            final(self).configs@.len() == old(self).configs@.len() + 1,
            final(self).configs@.drop_last() == old(self).configs@,
            final(self).configs@.last().dir@ == dir@,
            final(self).configs@.last().aliases == aliases,
            final(self).listings == old(self).listings,
            final(self).sealed == old(self).sealed,
            final(self).knows_config(dir@),
    {
        let ghost before = self.configs@;
        self.configs.push(Config { dir: dir.to_owned(), aliases });
        proof {
            assert(self.configs@.drop_last() =~= before);
            assert(config_dirs(self.configs@).drop_last() =~= config_dirs(before));
            assert(config_dirs(self.configs@).last() == dir@);
        }
    }

    /// The position of the listing that counts for `path`.
    pub fn find(&self, path: &str) -> (r: Option<usize>)
        ensures
            match r {
                Some(i) => self.index_of(path@) == Some(i as int) && i < self.listings@.len(),
                None => self.index_of(path@) is None,
            },
    {
        let mut i: usize = 0;
        while i < self.listings.len()
            invariant
                i <= self.listings@.len(),
                forall|j: int| 0 <= j < i ==> listing_paths(self.listings@)[j] != path@,
            decreases self.listings@.len() - i,
        {
            if same_text(self.listings[i].path.as_str(), path) {
                proof {
                    lemma_first_index_is(listing_paths(self.listings@), path@, i as int);
                }
                return Some(i);
            }
            i += 1;
        }
        proof {
            lemma_first_index(listing_paths(self.listings@), path@);
        }
        None
    }

    /// The kind of what is at `path`, where the snapshot says.
    pub fn probe(&self, path: &str) -> (r: Option<Kind>)
        ensures
            r is Some <==> self.knows(path@),
            r is Some ==> r == Some(self.kind(path@)),
    {
        match self.find(path) {
            Some(i) => {
                match &self.listings[i].entry {
                    Entry::File(_) => Some(Kind::File),
                    Entry::Unreadable => Some(Kind::Unreadable),
                    Entry::Directory => Some(Kind::Directory),
                    Entry::Absent => Some(Kind::Absent),
                }
            },
            None => {
                if self.sealed {
                    Some(Kind::Absent)
                } else {
                    None
                }
            },
        }
    }

    /// The contents of the readable file at `path`.
    pub fn contents(&self, path: &str) -> (r: Option<&Vec<u8>>)
        ensures
            match r {
                Some(bytes) => self.entry(path@) == Entry::File(*bytes),
                None => self.kind(path@) != Kind::File,
            },
    {
        match self.find(path) {
            Some(i) => {
                match &self.listings[i].entry {
                    Entry::File(bytes) => Some(bytes),
                    _ => None,
                }
            },
            None => None,
        }
    }

    /// The position of the configuration that counts for `dir`.
    pub fn find_config(&self, dir: &str) -> (r: Option<usize>)
        ensures
            match r {
                Some(i) => self.config_index(dir@) == Some(i as int) && i < self.configs@.len(),
                None => self.config_index(dir@) is None,
            },
    {
        let mut i: usize = 0;
        while i < self.configs.len()
            invariant
                i <= self.configs@.len(),
                forall|j: int| 0 <= j < i ==> config_dirs(self.configs@)[j] != dir@,
            decreases self.configs@.len() - i,
        {
            if same_text(self.configs[i].dir.as_str(), dir) {
                proof {
                    lemma_first_index_is(config_dirs(self.configs@), dir@, i as int);
                }
                return Some(i);
            }
            i += 1;
        }
        proof {
            lemma_first_index(config_dirs(self.configs@), dir@);
        }
        None
    }
}

/// What `name` stands for in `aliases`.
pub fn lookup_alias<'a>(aliases: &'a Vec<Alias>, name: &str) -> (r: Option<&'a String>)
    ensures
        match r {
            Some(t) => alias_target(aliases@, name@) == Some(t@),
            None => alias_target(aliases@, name@) is None,
        },
{
    let mut i: usize = 0;
    while i < aliases.len()
        invariant
            i <= aliases@.len(),
            forall|j: int| 0 <= j < i ==> alias_names(aliases@)[j] != name@,
        decreases aliases@.len() - i,
    {
        if same_text(aliases[i].name.as_str(), name) {
            proof {
                lemma_first_index_is(alias_names(aliases@), name@, i as int);
            }
            return Some(&aliases[i].target);
        }
        i += 1;
    }
    proof {
        lemma_first_index(alias_names(aliases@), name@);
    }
    None
}

/// A sealed snapshot answers every question.
pub proof fn law_sealed_answers_all(snap: Snapshot, query: Query)
    requires
        snap.sealed,
    ensures
        snap.answers(query),
{
}

} // verus!
