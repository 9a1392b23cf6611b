//! What holds of the loader in every state: one load per path, one
//! outcome for all who asked, and no failure that sticks.

use crate::loader_model::{
    after_all, after_finish, after_require, block, cache_paths, last_index, cached, count_starts, cyclic, decide, distinct, load_index, load_paths, loading, no_finish, unblock, waiters, wf, Decision, Event, LoadView, LoaderView, Outcome,
};
use crate::snapshot::{first_index, lemma_first_index};
use vstd::prelude::*;

verus! {

/// To block a load on a path changes no path of a load.
pub proof fn lemma_block_paths(loads: Seq<LoadView>, from: Option<Seq<char>>, p: Seq<char>)
    ensures
        load_paths(block(loads, from, p)) == load_paths(loads),
        block(loads, from, p).len() == loads.len(),
        forall|k: int|
            0 <= k < loads.len() ==> (#[trigger] block(loads, from, p)[k]).waiters
                == loads[k].waiters,
{
    match from {
        Some(m) => {
            lemma_first_index(load_paths(loads), m);
        },
        None => {},
    }
    assert(load_paths(block(loads, from, p)) =~= load_paths(loads));
}

/// To unblock the loads changes no path of a load.
pub proof fn lemma_unblock_paths(loads: Seq<LoadView>, p: Seq<char>)
    ensures
        load_paths(unblock(loads, p)) == load_paths(loads),
{
    assert(load_paths(unblock(loads, p)) =~= load_paths(loads));
}

/// Without the first of two keys that are all distinct, that key is gone
/// and every other key is where it was or one position before.
pub proof fn lemma_remove_key(keys: Seq<Seq<char>>, p: Seq<char>, q: Seq<char>)
    requires
        distinct(keys),
        first_index(keys, p) is Some,
    ensures
        distinct(keys.remove(first_index(keys, p)->0)),
        first_index(keys.remove(first_index(keys, p)->0), p) is None,
        q != p ==> (first_index(keys.remove(first_index(keys, p)->0), q) is Some <==> first_index(
            keys,
            q,
        ) is Some),
{
    let i = first_index(keys, p)->0;
    let rest = keys.remove(i);
    lemma_first_index(keys, p);
    lemma_first_index(keys, q);
    lemma_first_index(rest, p);
    lemma_first_index(rest, q);
    assert forall|k: int| 0 <= k < rest.len() implies rest[k] == if k < i {
        keys[k]
    } else {
        keys[k + 1]
    } by {}
    assert forall|a: int, b: int| 0 <= a < b < rest.len() implies rest[a] != rest[b] by {
        let a2 = if a < i {
            a
        } else {
            a + 1
        };
        let b2 = if b < i {
            b
        } else {
            b + 1
        };
        assert(keys[a2] != keys[b2]);
    }
    if first_index(rest, p) is Some {
        let k = first_index(rest, p)->0;
        let k2 = if k < i {
            k
        } else {
            k + 1
        };
        assert(keys[k2] == p);
        if k2 < i {
            assert(keys[k2] != keys[i]);
        } else {
            assert(keys[i] != keys[k2]);
        }
    }
    if q != p {
        if first_index(keys, q) is Some {
            let k = first_index(keys, q)->0;
            let k2 = if k < i {
                k
            } else {
                k - 1
            };
            assert(rest[k2] == q);
        }
        if first_index(rest, q) is Some {
            let k = first_index(rest, q)->0;
            let k2 = if k < i {
                k
            } else {
                k + 1
            };
            assert(keys[k2] == q);
        }
    }
}

/// A require leaves the loader well-formed.
pub proof fn lemma_require_wf(s: LoaderView, p: Seq<char>, caller: u64, from: Option<Seq<char>>)
    requires
        wf(s),
    ensures
        wf(after_require(s, p, caller, from)),
{
    let t = after_require(s, p, caller, from);
    match decide(s, p, from) {
        Decision::Wait => {
            let i = load_index(s, p)->0;
            lemma_first_index(load_paths(s.loads), p);
            let joined = s.loads.update(
                i,
                LoadView { waiters: s.loads[i].waiters.push(caller), ..s.loads[i] },
            );
            assert(load_paths(joined) =~= load_paths(s.loads));
            lemma_block_paths(joined, from, p);
        },
        Decision::Start => {
            lemma_block_paths(s.loads, from, p);
            lemma_first_index(load_paths(s.loads), p);
            let blocked = block(s.loads, from, p);
            let keys = load_paths(t.loads);
            assert(keys =~= load_paths(s.loads).push(p));
            assert forall|a: int, b: int| 0 <= a < b < keys.len() implies keys[a] != keys[b] by {
                if b < load_paths(s.loads).len() {
                    assert(load_paths(s.loads)[a] != load_paths(s.loads)[b]);
                }
            }
        },
        _ => {},
    }
}

/// The end of a load leaves the loader well-formed.
pub proof fn lemma_finish_wf(s: LoaderView, p: Seq<char>, outcome: Outcome)
    requires
        wf(s),
    ensures
        wf(after_finish(s, p, outcome)),
{
    match load_index(s, p) {
        Some(i) => {
            lemma_first_index(load_paths(s.loads), p);
            lemma_remove_key(load_paths(s.loads), p, p);
            assert(load_paths(s.loads.remove(i)) =~= load_paths(s.loads).remove(i));
            lemma_unblock_paths(s.loads.remove(i), p);
            lemma_last_is_first(s.locations, p);
            lemma_first_index(cache_paths(s.cache), p);
            let keys = cache_paths(after_finish(s, p, outcome).cache);
            assert forall|a: int, b: int| 0 <= a < b < keys.len() implies keys[a] != keys[b] by {
                if b < s.cache.len() {
                    assert(cache_paths(s.cache)[a] != cache_paths(s.cache)[b]);
                } else {
                    assert(cache_paths(s.cache)[a] != p);
                }
            }
        },
        None => {},
    }
}

/// Single flight: of two requires of a path that was never loaded, the
/// first starts the load and the second waits for it; at the end of the
/// load the second is handed the outcome that the first produced, and a
/// returned value is cached.
pub proof fn law_single_flight(
    s: LoaderView,
    p: Seq<char>,
    first: u64,
    from1: Option<Seq<char>>,
    second: u64,
    from2: Option<Seq<char>>,
    outcome: Outcome,
)
    requires
        wf(s),
        cached(s, p) is None,
        !loading(s, p),
        !cyclic(after_require(s, p, first, from1), p, from2),
    ensures
        decide(s, p, from1) == Decision::Start,
        decide(after_require(s, p, first, from1), p, from2) == Decision::Wait,
        waiters(after_require(after_require(s, p, first, from1), p, second, from2), p) == seq![
            second,
        ],
        !loading(
            after_finish(
                after_require(after_require(s, p, first, from1), p, second, from2),
                p,
                outcome,
            ),
            p,
        ),
        outcome matches Outcome::Returned(v) ==> cached(
            after_finish(
                after_require(after_require(s, p, first, from1), p, second, from2),
                p,
                outcome,
            ),
            p,
        ) == Some(v),
{
    let s1 = after_require(s, p, first, from1);
    lemma_require_wf(s, p, first, from1);
    lemma_block_paths(s.loads, from1, p);
    lemma_first_index(load_paths(s.loads), p);
    assert(load_paths(s1.loads) =~= load_paths(s.loads).push(p));
    lemma_first_index(load_paths(s1.loads), p);
    let i = load_index(s1, p)->0;
    assert(i == s.loads.len());
    assert(s1.loads[i].waiters =~= Seq::<u64>::empty());
    let s2 = after_require(s1, p, second, from2);
    lemma_require_wf(s1, p, second, from2);
    let joined = s1.loads.update(
        i,
        LoadView { waiters: s1.loads[i].waiters.push(second), ..s1.loads[i] },
    );
    assert(load_paths(joined) =~= load_paths(s1.loads));
    lemma_block_paths(joined, from2, p);
    assert(load_index(s2, p) == Some(i));
    assert(waiters(s2, p) =~= seq![second]);
    law_finish_clears(s2, p, outcome);
}

/// The end of a load, however it ended, leaves its path without a load;
/// a returned value is cached, and nothing else changes what is cached
/// for the path.
pub proof fn law_finish_clears(s: LoaderView, p: Seq<char>, outcome: Outcome)
    requires
        wf(s),
        loading(s, p),
    ensures
        !loading(after_finish(s, p, outcome), p),
        cached(s, p) is None ==> cached(after_finish(s, p, outcome), p) == match outcome {
            Outcome::Returned(v) => Some(v),
            Outcome::Failed(_) => None::<Option<u64>>,
        },
        cached(s, p) is Some ==> cached(after_finish(s, p, outcome), p) == cached(s, p),
{
    let i = load_index(s, p)->0;
    lemma_first_index(load_paths(s.loads), p);
    lemma_remove_key(load_paths(s.loads), p, p);
    assert(load_paths(s.loads.remove(i)) =~= load_paths(s.loads).remove(i));
    lemma_unblock_paths(s.loads.remove(i), p);
    lemma_first_index(cache_paths(s.cache), p);
    let t = after_finish(s, p, outcome);
    lemma_first_index(cache_paths(t.cache), p);
    if t.cache.len() > s.cache.len() {
        assert(cache_paths(t.cache) =~= cache_paths(s.cache).push(p));
        assert(cache_paths(t.cache)[s.cache.len() as int] == p);
    }
}

/// A failure does not stick: after a load that threw, the next require
/// of the path starts a load again.
pub proof fn law_failure_not_sticky(
    s: LoaderView,
    p: Seq<char>,
    outcome: Outcome,
    from: Option<Seq<char>>,
)
    requires
        wf(s),
        loading(s, p),
        cached(s, p) is None,
        outcome is Failed,
    ensures
        decide(after_finish(s, p, outcome), p, from) == Decision::Start,
{
    law_finish_clears(s, p, outcome);
}

/// No second run: while a load of a path runs, no require of the path
/// starts another.
pub proof fn law_no_second_start(
    s: LoaderView,
    p: Seq<char>,
    q: Seq<char>,
    caller: u64,
    from: Option<Seq<char>>,
)
    requires
        wf(s),
        loading(s, p),
    ensures
        decide(s, p, from) != Decision::Start,
        loading(after_require(s, q, caller, from), p),
{
    let t = after_require(s, q, caller, from);
    match decide(s, q, from) {
        Decision::Wait => {
            let i = load_index(s, q)->0;
            lemma_first_index(load_paths(s.loads), q);
            let joined = s.loads.update(
                i,
                LoadView { waiters: s.loads[i].waiters.push(caller), ..s.loads[i] },
            );
            assert(load_paths(joined) =~= load_paths(s.loads));
            lemma_block_paths(joined, from, q);
        },
        Decision::Start => {
            lemma_block_paths(s.loads, from, q);
            assert(load_paths(t.loads) =~= load_paths(s.loads).push(q));
            assert(load_paths(s.loads).push(q).drop_last() =~= load_paths(s.loads));
        },
        _ => {},
    }
}

/// What is cached stays cached: no require and no end of a load changes
/// the value of a cached path.
pub proof fn law_cache_is_stable(
    s: LoaderView,
    p: Seq<char>,
    q: Seq<char>,
    caller: u64,
    from: Option<Seq<char>>,
    outcome: Outcome,
)
    requires
        wf(s),
        cached(s, p) is Some,
    ensures
        cached(after_require(s, q, caller, from), p) == cached(s, p),
        cached(after_finish(s, q, outcome), p) == cached(s, p),
{
    let t = after_finish(s, q, outcome);
    lemma_first_index(cache_paths(s.cache), p);
    if t.cache.len() > s.cache.len() {
        assert(cache_paths(t.cache) =~= cache_paths(s.cache).push(q));
        assert(cache_paths(s.cache).push(q).drop_last() =~= cache_paths(s.cache));
    }
}

/// A module that requires itself while it loads is refused as cyclic.
pub proof fn law_self_require_is_cyclic(s: LoaderView, p: Seq<char>)
    requires
        loading(s, p),
        cached(s, p) is None,
    ensures
        decide(s, p, Some(p)) == Decision::Cyclic,
{
}

/// Whatever happens leaves the loader well-formed.
pub proof fn lemma_after_all_wf(s: LoaderView, events: Seq<Event>)
    requires
        wf(s),
    ensures
        wf(after_all(s, events)),
    decreases events.len(),
{
    if events.len() > 0 {
        lemma_after_all_wf(s, events.drop_last());
        let mid = after_all(s, events.drop_last());
        match events.last() {
            Event::Require { path, caller, from } => {
                lemma_require_wf(mid, path, caller, from);
            },
            Event::Finish { path, outcome } => {
                lemma_finish_wf(mid, path, outcome);
            },
        }
    }
}

/// A loaded module is never run again: once a value is cached for a
/// path, nothing that happens starts a load of the path, and the value
/// stays.
pub proof fn law_loaded_once(s: LoaderView, events: Seq<Event>, p: Seq<char>)
    requires
        wf(s),
        cached(s, p) is Some,
    ensures
        count_starts(s, events, p) == 0,
        cached(after_all(s, events), p) == cached(s, p),
    decreases events.len(),
{
    if events.len() > 0 {
        let init = events.drop_last();
        law_loaded_once(s, init, p);
        lemma_after_all_wf(s, init);
        let mid = after_all(s, init);
        match events.last() {
            Event::Require { path, caller, from } => {
                law_cache_is_stable(mid, p, path, caller, from, Outcome::Returned(None));
            },
            Event::Finish { path, outcome } => {
                law_cache_is_stable(mid, p, path, 0, None, outcome);
            },
        }
    }
}

/// One run at a time: while a load of a path runs, and until it ends,
/// nothing that happens starts another load of the path.
pub proof fn law_one_load_at_a_time(s: LoaderView, events: Seq<Event>, p: Seq<char>)
    requires
        wf(s),
        loading(s, p),
        no_finish(events, p),
    ensures
        count_starts(s, events, p) == 0,
        loading(after_all(s, events), p),
    decreases events.len(),
{
    if events.len() > 0 {
        let init = events.drop_last();
        assert forall|i: int| 0 <= i < init.len() implies !(#[trigger] init[i] matches Event::Finish {
            path,
            ..
        } && path == p) by {
            assert(init[i] == events[i]);
        }
        law_one_load_at_a_time(s, init, p);
        lemma_after_all_wf(s, init);
        let mid = after_all(s, init);
        assert(events[events.len() - 1] == events.last());
        match events.last() {
            Event::Require { path, caller, from } => {
                law_no_second_start(mid, p, path, caller, from);
            },
            Event::Finish { path, outcome } => {
                assert(path != p);
                lemma_finish_keeps_others(mid, path, p, outcome);
            },
        }
    }
}

/// The end of a load leaves the loads of other paths running.
pub proof fn lemma_finish_keeps_others(
    s: LoaderView,
    q: Seq<char>,
    p: Seq<char>,
    outcome: Outcome,
)
    requires
        wf(s),
        loading(s, p),
        q != p,
    ensures
        loading(after_finish(s, q, outcome), p),
{
    match load_index(s, q) {
        Some(i) => {
            lemma_first_index(load_paths(s.loads), q);
            lemma_remove_key(load_paths(s.loads), q, p);
            assert(load_paths(s.loads.remove(i)) =~= load_paths(s.loads).remove(i));
            lemma_unblock_paths(s.loads.remove(i), q);
        },
        None => {},
    }
}

/// Among distinct keys the last position of a key is its first.
pub proof fn lemma_last_is_first(keys: Seq<Seq<char>>, key: Seq<char>)
    requires
        distinct(keys),
    ensures
        last_index(keys, key) == first_index(keys, key),
    decreases keys.len(),
{
    if keys.len() > 0 {
        let init = keys.drop_last();
        assert forall|i: int, j: int| 0 <= i < j < init.len() implies init[i] != init[j] by {
            assert(keys[i] != keys[j]);
        }
        lemma_last_is_first(init, key);
        lemma_first_index(init, key);
        if keys.last() == key {
            if first_index(init, key) is Some {
                let i = first_index(init, key)->0;
                assert(keys[i] != keys[keys.len() - 1]);
            }
        }
    }
}

/// A module that has run is not run again, whatever it returned: once
/// its load has ended with a return, a require of its path is answered
/// from the cache.
pub proof fn law_returned_is_cached(
    s: LoaderView,
    p: Seq<char>,
    value: Option<u64>,
    from: Option<Seq<char>>,
)
    requires
        wf(s),
        loading(s, p),
    ensures
        decide(after_finish(s, p, Outcome::Returned(value)), p, from) is Cached,
        cached(s, p) is None ==> decide(after_finish(s, p, Outcome::Returned(value)), p, from)
            == Decision::Cached(value),
{
    law_finish_clears(s, p, Outcome::Returned(value));
}

} // verus!
