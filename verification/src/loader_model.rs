//! The module loader as a state machine over plain values.
//!
//! A path is uncached, loading or cached. The first require of an
//! uncached path starts its load; every require that arrives while the
//! load runs waits for it; the end of the load hands its outcome to all
//! of them. A run that returned is cached, with its value or with none,
//! and is never run again. A failed load leaves the path uncached, so
//! that a later require tries again.
//!
//! Cycles: a loading module is taken to be blocked on the module that it
//! required last, until that one ends. A require that would make a
//! module wait, along that chain, for itself is refused as cyclic: the
//! module that closes the cycle gets the error, and the loads that were
//! started before go on.

use crate::snapshot::first_index;
use vstd::prelude::*;

verus! {

/// How the run of a module's top-level code ended.
#[derive(Debug, Clone, Copy, PartialEq, Eq, Structural)]
pub enum Outcome {
    /// It returned; with the handle of its first value, if it returned any.
    Returned(Option<u64>),
    /// It threw; with the handle of the error.
    Failed(u64),
}

/// What a require is to do.
#[derive(Debug, Clone, Copy, PartialEq, Eq, Structural)]
pub enum Decision {
    /// Hand out at once what is cached: the handle of the value that the
    /// module returned, or nothing where it returned none.
    Cached(Option<u64>),
    /// Suspend until the running load of the path ends.
    Wait,
    /// Run the module: this require is the one that loads the path.
    Start,
    /// Fail: to wait would be to wait for oneself.
    Cyclic,
}

/// A running load over plain values.
pub struct LoadView {
    pub path: Seq<char>,
    pub waiters: Seq<u64>,
    pub blocked_on: Option<Seq<char>>,
}

/// The loader over plain values.
pub struct LoaderView {
    pub cache: Seq<(Seq<char>, Option<u64>)>,
    pub loads: Seq<LoadView>,
    pub locations: Seq<Seq<char>>,
}

/// The paths of the cached values, in order.
pub open spec fn cache_paths(cache: Seq<(Seq<char>, Option<u64>)>) -> Seq<Seq<char>> {
    Seq::new(cache.len(), |i: int| cache[i].0)
}

/// The paths of the running loads, in order.
pub open spec fn load_paths(loads: Seq<LoadView>) -> Seq<Seq<char>> {
    Seq::new(loads.len(), |i: int| loads[i].path)
}

/// No two of `keys` are the same.
pub open spec fn distinct(keys: Seq<Seq<char>>) -> bool {
    forall|i: int, j: int| 0 <= i < j < keys.len() ==> keys[i] != keys[j]
}

/// What is cached for `path`: the value of a module that has run, or
/// that it has run and returned none; nothing for a path that has not
/// been loaded.
pub open spec fn cached(s: LoaderView, path: Seq<char>) -> Option<Option<u64>> {
    match first_index(cache_paths(s.cache), path) {
        Some(i) => Some(s.cache[i].1),
        None => None,
    }
}

/// The position of the running load of `path`.
pub open spec fn load_index(s: LoaderView, path: Seq<char>) -> Option<int> {
    first_index(load_paths(s.loads), path)
}

/// A load of `path` is running.
pub open spec fn loading(s: LoaderView, path: Seq<char>) -> bool {
    load_index(s, path) is Some
}

/// Those that wait for the running load of `path`, in the order of their
/// requires.
pub open spec fn waiters(s: LoaderView, path: Seq<char>) -> Seq<u64> {
    match load_index(s, path) {
        Some(i) => s.loads[i].waiters,
        None => Seq::empty(),
    }
}

/// The loader holds each path once, and the locations are the paths of
/// the running loads, in the order in which the loads were started.
pub open spec fn wf(s: LoaderView) -> bool {
    &&& distinct(cache_paths(s.cache))
    &&& distinct(load_paths(s.loads))
    &&& s.locations == load_paths(s.loads)
}

/// The last position at which `key` stands in `keys`.
pub open spec fn last_index(keys: Seq<Seq<char>>, key: Seq<char>) -> Option<int>
    decreases keys.len(),
{
    if keys.len() == 0 {
        None
    } else if keys.last() == key {
        Some(keys.len() - 1)
    } else {
        last_index(keys.drop_last(), key)
    }
}

/// `keys` without the last `key` among them.
pub open spec fn without_last(keys: Seq<Seq<char>>, key: Seq<char>) -> Seq<Seq<char>> {
    match last_index(keys, key) {
        Some(i) => keys.remove(i),
        None => keys,
    }
}

/// The chain of blocked loads that starts at `p` ends within `fuel` steps
/// and does not pass `m`: it comes to a module that is not blocked, or
/// does not load, before it comes to `m`.
pub open spec fn chain_ends(loads: Seq<LoadView>, p: Seq<char>, m: Seq<char>, fuel: nat) -> bool
    decreases fuel,
{
    if p == m {
        false
    } else {
        match first_index(load_paths(loads), p) {
            Some(i) => match loads[i].blocked_on {
                Some(q) => fuel > 0 && chain_ends(loads, q, m, (fuel - 1) as nat),
                None => true,
            },
            None => true,
        }
    }
}

/// For the module `from` to wait for `p` would be, or cannot be shown
/// not to be, to wait for itself: `from` loads, and the chain of blocked
/// loads from `p` is not seen to end before it comes to `from`.
pub open spec fn cyclic(s: LoaderView, p: Seq<char>, from: Option<Seq<char>>) -> bool {
    match from {
        Some(m) => loading(s, m) && !chain_ends(s.loads, p, m, s.loads.len()),
        None => false,
    }
}

/// `loads`, with the load of the module `from`, if one runs, blocked on `p`.
pub open spec fn block(loads: Seq<LoadView>, from: Option<Seq<char>>, p: Seq<char>) -> Seq<
    LoadView,
> {
    match from {
        Some(m) => match first_index(load_paths(loads), m) {
            Some(j) => loads.update(j, LoadView { blocked_on: Some(p), ..loads[j] }),
            None => loads,
        },
        None => loads,
    }
}

/// `loads`, with no load blocked on `p` any more.
pub open spec fn unblock(loads: Seq<LoadView>, p: Seq<char>) -> Seq<LoadView> {
    Seq::new(
        loads.len(),
        |k: int|
            if loads[k].blocked_on == Some(p) {
                LoadView { blocked_on: None, ..loads[k] }
            } else {
                loads[k]
            },
    )
}

/// What a require of `p` by the thread `caller`, running in the module
/// `from`, is to do.
pub open spec fn decide(s: LoaderView, p: Seq<char>, from: Option<Seq<char>>) -> Decision {
    match cached(s, p) {
        Some(v) => Decision::Cached(v),
        None => if loading(s, p) {
            if cyclic(s, p, from) {
                Decision::Cyclic
            } else {
                Decision::Wait
            }
        } else {
            Decision::Start
        },
    }
}

/// The loader after a require of `p` by the thread `caller`, running in
/// the module `from`.
pub open spec fn after_require(
    s: LoaderView,
    p: Seq<char>,
    caller: u64,
    from: Option<Seq<char>>,
) -> LoaderView {
    match decide(s, p, from) {
        Decision::Cached(_) => s,
        Decision::Cyclic => s,
        Decision::Wait => {
            let i = load_index(s, p)->0;
            let joined = s.loads.update(
                i,
                LoadView { waiters: s.loads[i].waiters.push(caller), ..s.loads[i] },
            );
            LoaderView { loads: block(joined, from, p), ..s }
        },
        Decision::Start => LoaderView {
            loads: block(s.loads, from, p).push(
                LoadView { path: p, waiters: Seq::empty(), blocked_on: None },
            ),
            locations: s.locations.push(p),
            ..s
        },
    }
}

/// The cache after the load of `p` ended with `outcome`: a run that
/// returned is cached, with its first value or with none; what was
/// cached for a path before stays.
pub open spec fn cache_after(s: LoaderView, p: Seq<char>, outcome: Outcome) -> Seq<
    (Seq<char>, Option<u64>),
> {
    match outcome {
        Outcome::Returned(v) => if cached(s, p) is None {
            s.cache.push((p, v))
        } else {
            s.cache
        },
        Outcome::Failed(_) => s.cache,
    }
}

/// The loader after the load of `p` ended with `outcome`: the outcome
/// is cached where the run returned, the load is gone, the module's own
/// location is taken from the locations, and no load is blocked on `p`
/// any more. Where no load of `p` runs, nothing changes.
pub open spec fn after_finish(s: LoaderView, p: Seq<char>, outcome: Outcome) -> LoaderView {
    match load_index(s, p) {
        Some(i) => LoaderView {
            cache: cache_after(s, p, outcome),
            loads: unblock(s.loads.remove(i), p),
            locations: without_last(s.locations, p),
        },
        None => s,
    }
}

/// What happens to a loader: a require, or the end of a load.
pub enum Event {
    Require { path: Seq<char>, caller: u64, from: Option<Seq<char>> },
    Finish { path: Seq<char>, outcome: Outcome },
}

/// The loader after `event`.
pub open spec fn after(s: LoaderView, event: Event) -> LoaderView {
    match event {
        Event::Require { path, caller, from } => after_require(s, path, caller, from),
        Event::Finish { path, outcome } => after_finish(s, path, outcome),
    }
}

/// The loader after `events`, in order.
pub open spec fn after_all(s: LoaderView, events: Seq<Event>) -> LoaderView
    decreases events.len(),
{
    if events.len() == 0 {
        s
    } else {
        after(after_all(s, events.drop_last()), events.last())
    }
}

/// `event`, met in the state `s`, starts a load of `p`.
pub open spec fn starts(s: LoaderView, event: Event, p: Seq<char>) -> bool {
    match event {
        Event::Require { path, caller, from } => path == p && decide(s, path, from)
            == Decision::Start,
        Event::Finish { .. } => false,
    }
}

/// How many of `events`, met in order from the state `s`, start a load of `p`.
pub open spec fn count_starts(s: LoaderView, events: Seq<Event>, p: Seq<char>) -> nat
    decreases events.len(),
{
    if events.len() == 0 {
        0
    } else {
        let before = count_starts(s, events.drop_last(), p);
        if starts(after_all(s, events.drop_last()), events.last(), p) {
            before + 1
        } else {
            before
        }
    }
}

/// None of `events` is the end of a load of `p`.
pub open spec fn no_finish(events: Seq<Event>, p: Seq<char>) -> bool {
    forall|i: int|
        0 <= i < events.len() ==> !(#[trigger] events[i] matches Event::Finish { path, .. }
            && path == p)
}

} // verus!
