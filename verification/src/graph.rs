//! The module graph of a snapshot: which file requires which, and what can
//! be reached from an entry file.

use crate::path::{parent, render_abs};
use crate::resolver::{resolution, Verdict};
use crate::scan::required_literals;
use crate::snapshot::{Entry, Snapshot};
use vstd::prelude::*;

verus! {

/// What the `j`-th of the references `lits`, written in a script of the
/// directory `dir`, resolves to when no built-in module is registered.
pub open spec fn lit_target(
    snap: Snapshot,
    lits: Seq<Seq<char>>,
    j: int,
    dir: Seq<Seq<char>>,
) -> Verdict {
    resolution(snap, Seq::empty(), lits[j], dir)
}

/// The contents of the readable file `f`.
pub open spec fn source_of(snap: Snapshot, f: Seq<Seq<char>>) -> Option<Seq<u8>> {
    match snap.entry(render_abs(f)) {
        Entry::File(bytes) => Some(bytes@),
        _ => None,
    }
}

/// The readable file `f` holds a reference that resolves to the file `g`.
pub open spec fn requires_file(snap: Snapshot, f: Seq<Seq<char>>, g: Seq<Seq<char>>) -> bool {
    match source_of(snap, f) {
        Some(bytes) => exists|j: int|
            0 <= j < required_literals(bytes).len() && #[trigger] lit_target(
                snap,
                required_literals(bytes),
                j,
                parent(f),
            ) == Verdict::Module(g),
        None => false,
    }
}

/// `g` is reached from `entry` by `n` references, each from a readable file.
pub open spec fn reach_in(
    snap: Snapshot,
    entry: Seq<Seq<char>>,
    g: Seq<Seq<char>>,
    n: nat,
) -> bool
    decreases n,
{
    if n == 0 {
        g == entry
    } else {
        exists|f: Seq<Seq<char>>|
            reach_in(snap, entry, f, (n - 1) as nat) && #[trigger] requires_file(snap, f, g)
    }
}

/// `g` is the entry or is reached from it by references.
pub open spec fn reachable(snap: Snapshot, entry: Seq<Seq<char>>, g: Seq<Seq<char>>) -> bool {
    exists|n: nat| reach_in(snap, entry, g, n)
}

/// The entry is reachable.
pub proof fn lemma_reach_entry(snap: Snapshot, entry: Seq<Seq<char>>)
    ensures
        reachable(snap, entry, entry),
{
    assert(reach_in(snap, entry, entry, 0));
}

/// What a reachable file requires is reachable.
pub proof fn lemma_reach_step(
    snap: Snapshot,
    entry: Seq<Seq<char>>,
    f: Seq<Seq<char>>,
    g: Seq<Seq<char>>,
)
    requires
        reachable(snap, entry, f),
        requires_file(snap, f, g),
    ensures
        reachable(snap, entry, g),
{
    let n = choose|n: nat| reach_in(snap, entry, f, n);
    assert(reach_in(snap, entry, g, n + 1));
}

/// A set of files that holds the entry and, with each file, all that the
/// file requires, holds every reachable file.
pub proof fn lemma_closed_holds_all(
    snap: Snapshot,
    entry: Seq<Seq<char>>,
    files: Seq<Seq<Seq<char>>>,
    g: Seq<Seq<char>>,
    n: nat,
)
    requires
        files.contains(entry),
        forall|f: Seq<Seq<char>>, h: Seq<Seq<char>>|
            files.contains(f) && #[trigger] requires_file(snap, f, h) ==> files.contains(h),
        reach_in(snap, entry, g, n),
    ensures
        files.contains(g),
    decreases n,
{
    if n > 0 {
        let f = choose|f: Seq<Seq<char>>|
            reach_in(snap, entry, f, (n - 1) as nat) && #[trigger] requires_file(snap, f, g);
        lemma_closed_holds_all(snap, entry, files, f, (n - 1) as nat);
    }
}

} // verus!
