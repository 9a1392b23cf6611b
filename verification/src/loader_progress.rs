//! What holds of the loader in every state that it can come to: no load
//! waits in a circle. Every chain of blocked loads ends at a load that
//! can run, so the bookkeeping of the loader never brings all loads to
//! a halt.

use crate::loader_laws::{lemma_finish_wf, lemma_remove_key, lemma_require_wf};
use crate::loader_model::{
    after_all, after_finish, after_require, block, chain_ends, decide, distinct, load_index, load_paths, unblock, wf, Decision, Event, LoadView, LoaderView,
};
use crate::snapshot::{first_index, lemma_first_index};
use vstd::prelude::*;

verus! {

/// The chain of blocked loads that starts at `p` ends within `fuel`
/// steps: it comes to a module that is not blocked, or does not load.
pub open spec fn ends(loads: Seq<LoadView>, p: Seq<char>, fuel: nat) -> bool
    decreases fuel,
{
    match first_index(load_paths(loads), p) {
        Some(i) => match loads[i].blocked_on {
            Some(q) => fuel > 0 && ends(loads, q, (fuel - 1) as nat),
            None => true,
        },
        None => true,
    }
}

/// The chain of blocked loads that starts at `p` ends.
pub open spec fn ends_at_last(loads: Seq<LoadView>, p: Seq<char>) -> bool {
    exists|fuel: nat| ends(loads, p, fuel)
}

/// The chain of blocked loads from every load ends.
pub open spec fn settled(loads: Seq<LoadView>) -> bool {
    forall|i: int| 0 <= i < loads.len() ==> ends_at_last(loads, (#[trigger] loads[i]).path)
}

/// Every load that is blocked is blocked on a running load.
pub open spec fn edges_ok(loads: Seq<LoadView>) -> bool {
    forall|i: int|
        0 <= i < loads.len() ==> ((#[trigger] loads[i]).blocked_on matches Some(q)
            ==> first_index(load_paths(loads), q) is Some)
}

/// The loader is well-formed, and no load waits in a circle.
pub open spec fn live(s: LoaderView) -> bool {
    wf(s) && settled(s.loads) && edges_ok(s.loads)
}

/// `b` has the paths of `a` and, but at the position `j`, its blocked loads.
pub open spec fn same_but(a: Seq<LoadView>, b: Seq<LoadView>, j: int) -> bool {
    &&& a.len() == b.len()
    &&& load_paths(a) == load_paths(b)
    &&& forall|i: int| 0 <= i < a.len() && i != j ==> (#[trigger] a[i]).blocked_on == b[i].blocked_on
}

/// A chain that ends within some steps ends within more.
pub proof fn lemma_ends_mono(loads: Seq<LoadView>, p: Seq<char>, f: nat, g: nat)
    requires
        ends(loads, p, f),
        f <= g,
    ensures
        ends(loads, p, g),
    decreases f,
{
    match first_index(load_paths(loads), p) {
        Some(i) => match loads[i].blocked_on {
            Some(q) => {
                lemma_ends_mono(loads, q, (f - 1) as nat, (g - 1) as nat);
            },
            None => {},
        },
        None => {},
    }
}

/// A chain that ends before it comes to `m` is the same whatever the
/// load of `m` is blocked on.
pub proof fn lemma_chain_avoids(
    a: Seq<LoadView>,
    b: Seq<LoadView>,
    j: int,
    p: Seq<char>,
    m: Seq<char>,
    f: nat,
)
    requires
        same_but(a, b, j),
        first_index(load_paths(a), m) == Some(j),
        chain_ends(a, p, m, f),
    ensures
        chain_ends(b, p, m, f),
        ends(b, p, f),
    decreases f,
{
    lemma_first_index(load_paths(a), p);
    lemma_first_index(load_paths(a), m);
    match first_index(load_paths(a), p) {
        Some(i) => {
            assert(load_paths(a)[i] == p);
            assert(i != j);
            assert(a[i].blocked_on == b[i].blocked_on);
            match a[i].blocked_on {
                Some(q) => {
                    lemma_chain_avoids(a, b, j, q, m, (f - 1) as nat);
                },
                None => {},
            }
        },
        None => {},
    }
}

/// Where the chain from the load at `j` ends, every chain that ended
/// before the load at `j` was blocked anew ends.
pub proof fn lemma_chain_through(
    a: Seq<LoadView>,
    b: Seq<LoadView>,
    j: int,
    m: Seq<char>,
    fm: nat,
    p: Seq<char>,
    f: nat,
)
    requires
        same_but(a, b, j),
        first_index(load_paths(a), m) == Some(j),
        ends(b, m, fm),
        ends(a, p, f),
    ensures
        ends(b, p, f + fm),
    decreases f,
{
    lemma_first_index(load_paths(a), p);
    lemma_first_index(load_paths(a), m);
    match first_index(load_paths(a), p) {
        Some(i) => {
            assert(load_paths(a)[i] == p);
            if i == j {
                assert(p == m);
                lemma_ends_mono(b, m, fm, f + fm);
            } else {
                assert(a[i].blocked_on == b[i].blocked_on);
                match a[i].blocked_on {
                    Some(q) => {
                        lemma_chain_through(a, b, j, m, fm, q, (f - 1) as nat);
                    },
                    None => {},
                }
            }
        },
        None => {},
    }
}

/// Chains are the same where paths and blocked loads are the same.
pub proof fn lemma_same_chains(a: Seq<LoadView>, b: Seq<LoadView>, p: Seq<char>, f: nat)
    requires
        same_but(a, b, -1),
    ensures
        ends(a, p, f) == ends(b, p, f),
    decreases f,
{
    lemma_first_index(load_paths(a), p);
    match first_index(load_paths(a), p) {
        Some(i) => {
            assert(a[i].blocked_on == b[i].blocked_on);
            match a[i].blocked_on {
                Some(q) => {
                    if f > 0 {
                        lemma_same_chains(a, b, q, (f - 1) as nat);
                    }
                },
                None => {},
            }
        },
        None => {},
    }
}

/// Chains that avoid a module are the same where paths and blocked loads
/// are the same.
pub proof fn lemma_same_chain_ends(
    a: Seq<LoadView>,
    b: Seq<LoadView>,
    p: Seq<char>,
    m: Seq<char>,
    f: nat,
)
    requires
        same_but(a, b, -1),
    ensures
        chain_ends(a, p, m, f) == chain_ends(b, p, m, f),
    decreases f,
{
    lemma_first_index(load_paths(a), p);
    match first_index(load_paths(a), p) {
        Some(i) => {
            assert(a[i].blocked_on == b[i].blocked_on);
            match a[i].blocked_on {
                Some(q) => {
                    if f > 0 {
                        lemma_same_chain_ends(a, b, q, m, (f - 1) as nat);
                    }
                },
                None => {},
            }
        },
        None => {},
    }
}

/// To block the load of `from` on `p` leaves every chain with an end,
/// where the chain from `p` ends before it comes to `from`.
pub proof fn lemma_block_settled(
    loads: Seq<LoadView>,
    from: Option<Seq<char>>,
    p: Seq<char>,
    f: nat,
)
    requires
        settled(loads),
        match from {
            Some(m) => first_index(load_paths(loads), m) is Some ==> chain_ends(loads, p, m, f),
            None => true,
        },
    ensures
        settled(block(loads, from, p)),
{
    let after = block(loads, from, p);
    match from {
        Some(m) => match first_index(load_paths(loads), m) {
            Some(j) => {
                lemma_first_index(load_paths(loads), m);
                assert(load_paths(after) =~= load_paths(loads));
                assert(same_but(loads, after, j));
                lemma_chain_avoids(loads, after, j, p, m, f);
                assert(after[j].blocked_on == Some(p));
                assert(ends(after, m, f + 1));
                assert forall|i: int| 0 <= i < after.len() implies ends_at_last(
                    after,
                    (#[trigger] after[i]).path,
                ) by {
                    assert(ends_at_last(loads, loads[i].path));
                    let fa = choose|fa: nat| ends(loads, loads[i].path, fa);
                    lemma_chain_through(loads, after, j, m, f + 1, loads[i].path, fa);
                    assert(after[i].path == loads[i].path);
                }
            },
            None => {},
        },
        None => {},
    }
}

/// A new load that is not blocked, of a path without a load, leaves
/// every chain with an end.
pub proof fn lemma_push_settled(loads: Seq<LoadView>, p: Seq<char>)
    requires
        settled(loads),
        first_index(load_paths(loads), p) is None,
    ensures
        settled(loads.push(LoadView { path: p, waiters: Seq::empty(), blocked_on: None })),
{
    let fresh = LoadView { path: p, waiters: Seq::empty(), blocked_on: None };
    let after = loads.push(fresh);
    assert forall|i: int| 0 <= i < after.len() implies ends_at_last(
        after,
        (#[trigger] after[i]).path,
    ) by {
        if i < loads.len() {
            assert(after[i] == loads[i]);
            assert(ends_at_last(loads, loads[i].path));
            let fa = choose|fa: nat| ends(loads, loads[i].path, fa);
            lemma_push_chain(loads, p, loads[i].path, fa);
        } else {
            lemma_push_chain(loads, p, p, 0);
        }
    }
}

/// A chain that ended ends with the new load.
proof fn lemma_push_chain(loads: Seq<LoadView>, p: Seq<char>, a: Seq<char>, f: nat)
    requires
        first_index(load_paths(loads), p) is None,
        ends(loads, a, f),
    ensures
        ends(loads.push(LoadView { path: p, waiters: Seq::empty(), blocked_on: None }), a, f),
    decreases f,
{
    let fresh = LoadView { path: p, waiters: Seq::empty(), blocked_on: None };
    let after = loads.push(fresh);
    assert(load_paths(after) =~= load_paths(loads).push(p));
    assert(load_paths(loads).push(p).drop_last() =~= load_paths(loads));
    lemma_first_index(load_paths(loads), a);
    match first_index(load_paths(loads), a) {
        Some(i) => {
            assert(after[i] == loads[i]);
            match loads[i].blocked_on {
                Some(q) => {
                    lemma_push_chain(loads, p, q, (f - 1) as nat);
                },
                None => {},
            }
        },
        None => {},
    }
}

/// Where the first `q` stands in keys without the first `p`.
pub proof fn lemma_remove_index(keys: Seq<Seq<char>>, p: Seq<char>, q: Seq<char>)
    requires
        distinct(keys),
        first_index(keys, p) is Some,
        first_index(keys, q) is Some,
        q != p,
    ensures
        first_index(keys.remove(first_index(keys, p)->0), q) == Some(
            if first_index(keys, q)->0 < first_index(keys, p)->0 {
                first_index(keys, q)->0
            } else {
                first_index(keys, q)->0 - 1
            },
        ),
{
    let i = first_index(keys, p)->0;
    let k = first_index(keys, q)->0;
    let rest = keys.remove(i);
    lemma_first_index(keys, p);
    lemma_first_index(keys, q);
    lemma_remove_key(keys, p, q);
    lemma_first_index(rest, q);
    let r = first_index(rest, q)->0;
    let back = if r < i {
        r
    } else {
        r + 1
    };
    assert(keys[back] == q);
    if back < k {
        assert(keys[back] != keys[k]);
    }
    if k < back {
        assert(keys[k] != keys[back]);
    }
}

/// A chain that ended ends when the load of `p` is gone.
proof fn lemma_finish_chain(loads: Seq<LoadView>, p: Seq<char>, a: Seq<char>, f: nat)
    requires
        distinct(load_paths(loads)),
        first_index(load_paths(loads), p) is Some,
        ends(loads, a, f),
        a != p,
    ensures
        ends(unblock(loads.remove(first_index(load_paths(loads), p)->0), p), a, f),
    decreases f,
{
    let i = first_index(load_paths(loads), p)->0;
    lemma_first_index(load_paths(loads), p);
    let cut = loads.remove(i);
    let after = unblock(cut, p);
    assert(load_paths(cut) =~= load_paths(loads).remove(i));
    assert(load_paths(after) =~= load_paths(cut));
    lemma_remove_key(load_paths(loads), p, a);
    match first_index(load_paths(loads), a) {
        Some(k) => {
            lemma_first_index(load_paths(loads), a);
            lemma_remove_index(load_paths(loads), p, a);
            let k2 = if k < i {
                k
            } else {
                k - 1
            };
            assert(cut[k2] == loads[k]);
            match loads[k].blocked_on {
                Some(q) => {
                    if q != p {
                        lemma_finish_chain(loads, p, q, (f - 1) as nat);
                    }
                },
                None => {},
            }
        },
        None => {},
    }
}

/// A require leaves no load waiting in a circle.
pub proof fn lemma_require_live(s: LoaderView, p: Seq<char>, caller: u64, from: Option<Seq<char>>)
    requires
        live(s),
    ensures
        live(after_require(s, p, caller, from)),
{
    lemma_require_wf(s, p, caller, from);
    let t = after_require(s, p, caller, from);
    let n = s.loads.len();
    match decide(s, p, from) {
        Decision::Wait => {
            let i = load_index(s, p)->0;
            lemma_first_index(load_paths(s.loads), p);
            let joined = s.loads.update(
                i,
                LoadView { waiters: s.loads[i].waiters.push(caller), ..s.loads[i] },
            );
            assert(load_paths(joined) =~= load_paths(s.loads));
            assert(same_but(s.loads, joined, -1));
            assert forall|k: int| 0 <= k < joined.len() implies ends_at_last(
                joined,
                (#[trigger] joined[k]).path,
            ) by {
                assert(ends_at_last(s.loads, s.loads[k].path));
                let fa = choose|fa: nat| ends(s.loads, s.loads[k].path, fa);
                lemma_same_chains(s.loads, joined, s.loads[k].path, fa);
            }
            match from {
                Some(m) => {
                    lemma_same_chain_ends(s.loads, joined, p, m, n);
                },
                None => {},
            }
            lemma_block_settled(joined, from, p, n);
            assert forall|k: int| 0 <= k < joined.len() implies ((#[trigger] joined[k]).blocked_on
                matches Some(q) ==> first_index(load_paths(joined), q) is Some) by {
                assert(joined[k].blocked_on == s.loads[k].blocked_on);
            }
            lemma_block_edges(joined, from, p);
        },
        Decision::Start => {
            lemma_first_index(load_paths(s.loads), p);
            match from {
                Some(m) => {
                    lemma_first_index(load_paths(s.loads), m);
                },
                None => {},
            }
            lemma_block_settled(s.loads, from, p, 0);
            let blocked = block(s.loads, from, p);
            assert(load_paths(blocked) =~= load_paths(s.loads));
            lemma_push_settled(blocked, p);
            // every blocked load is blocked on a running load
            let keys = load_paths(t.loads);
            assert(keys =~= load_paths(s.loads).push(p));
            assert(load_paths(s.loads).push(p).drop_last() =~= load_paths(s.loads));
            assert forall|k: int| 0 <= k < t.loads.len() implies ((#[trigger] t.loads[k]).blocked_on
                matches Some(q) ==> first_index(keys, q) is Some) by {
                if k < s.loads.len() {
                    assert(t.loads[k] == blocked[k]);
                    match t.loads[k].blocked_on {
                        Some(q) => {
                            if q != p {
                                assert(blocked[k].blocked_on == s.loads[k].blocked_on);
                                assert(first_index(load_paths(s.loads), q) is Some);
                            }
                        },
                        None => {},
                    }
                }
            }
        },
        _ => {},
    }
}

/// To block the load of `from` on a running load `p` leaves every
/// blocked load blocked on a running load.
proof fn lemma_block_edges(loads: Seq<LoadView>, from: Option<Seq<char>>, p: Seq<char>)
    requires
        edges_ok(loads),
        first_index(load_paths(loads), p) is Some,
    ensures
        edges_ok(block(loads, from, p)),
{
    let after = block(loads, from, p);
    match from {
        Some(m) => {
            lemma_first_index(load_paths(loads), m);
        },
        None => {},
    }
    assert(load_paths(after) =~= load_paths(loads));
    assert forall|k: int| 0 <= k < after.len() implies ((#[trigger] after[k]).blocked_on
        matches Some(q) ==> first_index(load_paths(after), q) is Some) by {
        if after[k].blocked_on != loads[k].blocked_on {
            assert(after[k].blocked_on == Some(p));
        }
    }
}

/// The end of a load leaves no load waiting in a circle.
pub proof fn lemma_finish_live(s: LoaderView, p: Seq<char>, outcome: crate::loader_model::Outcome)
    requires
        live(s),
    ensures
        live(after_finish(s, p, outcome)),
{
    lemma_finish_wf(s, p, outcome);
    match load_index(s, p) {
        Some(i) => {
            lemma_first_index(load_paths(s.loads), p);
            let cut = s.loads.remove(i);
            let after = unblock(cut, p);
            assert(load_paths(cut) =~= load_paths(s.loads).remove(i));
            assert(load_paths(after) =~= load_paths(cut));
            assert forall|k: int| 0 <= k < after.len() implies ends_at_last(
                after,
                (#[trigger] after[k]).path,
            ) by {
                let back = if k < i {
                    k
                } else {
                    k + 1
                };
                assert(cut[k] == s.loads[back]);
                let a = s.loads[back].path;
                assert(load_paths(s.loads)[back] == a && load_paths(s.loads)[i] == p);
                assert(a != p) by {
                    if back < i {
                        assert(load_paths(s.loads)[back] != load_paths(s.loads)[i]);
                    } else {
                        assert(load_paths(s.loads)[i] != load_paths(s.loads)[back]);
                    }
                }
                assert(ends_at_last(s.loads, s.loads[back].path));
                let fa = choose|fa: nat| ends(s.loads, a, fa);
                lemma_finish_chain(s.loads, p, a, fa);
                assert(after[k].path == a);
            }
            assert forall|k: int| 0 <= k < after.len() implies ((#[trigger] after[k]).blocked_on
                matches Some(q) ==> first_index(load_paths(after), q) is Some) by {
                let back = if k < i {
                    k
                } else {
                    k + 1
                };
                assert(cut[k] == s.loads[back]);
                match after[k].blocked_on {
                    Some(q) => {
                        assert(s.loads[back].blocked_on == Some(q));
                        assert(q != p);
                        lemma_remove_key(load_paths(s.loads), p, q);
                    },
                    None => {},
                }
            }
        },
        None => {},
    }
}

/// Whatever happens, no load waits in a circle.
pub proof fn law_never_in_a_circle(s: LoaderView, events: Seq<Event>)
    requires
        live(s),
    ensures
        live(after_all(s, events)),
    decreases events.len(),
{
    if events.len() > 0 {
        law_never_in_a_circle(s, events.drop_last());
        let mid = after_all(s, events.drop_last());
        match events.last() {
            Event::Require { path, caller, from } => {
                lemma_require_live(mid, path, caller, from);
            },
            Event::Finish { path, outcome } => {
                lemma_finish_live(mid, path, outcome);
            },
        }
    }
}

/// A loader that has loaded nothing has no load waiting in a circle.
pub proof fn law_empty_is_live(s: LoaderView)
    requires
        s.cache.len() == 0,
        s.loads.len() == 0,
        s.locations.len() == 0,
    ensures
        live(s),
{
    assert(s.locations =~= load_paths(s.loads));
}

/// Some load can run: where loads run and none waits in a circle, one
/// of them is not blocked. The loader never brings all loads to a halt.
pub proof fn law_some_load_can_run(s: LoaderView)
    requires
        live(s),
        s.loads.len() > 0,
    ensures
        exists|i: int| 0 <= i < s.loads.len() && (#[trigger] s.loads[i]).blocked_on is None,
{
    let a = s.loads[0].path;
    assert(ends_at_last(s.loads, a));
    let f = choose|f: nat| ends(s.loads, a, f);
    lemma_first_index(load_paths(s.loads), a);
    assert(load_paths(s.loads)[0] == a);
    lemma_end_of_chain(s.loads, a, f);
}

/// A chain of blocked loads that ends, ends at a load that is not blocked.
proof fn lemma_end_of_chain(loads: Seq<LoadView>, a: Seq<char>, f: nat)
    requires
        edges_ok(loads),
        first_index(load_paths(loads), a) is Some,
        ends(loads, a, f),
    ensures
        exists|i: int| 0 <= i < loads.len() && (#[trigger] loads[i]).blocked_on is None,
    decreases f,
{
    lemma_first_index(load_paths(loads), a);
    let k = first_index(load_paths(loads), a)->0;
    match loads[k].blocked_on {
        Some(q) => {
            lemma_end_of_chain(loads, q, (f - 1) as nat);
        },
        None => {},
    }
}

} // verus!
