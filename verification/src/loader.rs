//! The module loader: the cache of loaded modules and the table of
//! running loads.
//!
//! The loader decides; it runs nothing. Whoever drives it resolves the
//! reference, asks [`Loader::require`] what to do, runs the module where
//! the answer is `Start`, and reports the end of the run with
//! [`Loader::finish`], which says whom to hand the outcome to.

use crate::loader_laws::{lemma_finish_wf, lemma_require_wf};
use crate::loader_model::{
    after_finish, after_require, block, cache_paths, cached, decide, load_index, load_paths,
    chain_ends, loading, unblock, waiters, wf, Decision, LoadView, LoaderView, Outcome,
};
use crate::path::{same_text, texts};
use crate::snapshot::{lemma_first_index, lemma_first_index_is};
use vstd::prelude::*;

verus! {

/// A running load: its path, those who wait for it, and the path that
/// the module is blocked on.
pub struct Load {
    pub path: String,
    pub waiters: Vec<u64>,
    pub blocked_on: Option<String>,
}

/// The cache of loaded modules, the running loads, and the locations of
/// the modules that are being run.
pub struct Loader {
    cache: Vec<(String, Option<u64>)>,
    loads: Vec<Load>,
    locations: Vec<String>,
}

/// The text of an optional string.
pub open spec fn opt_view(s: Option<String>) -> Option<Seq<char>> {
    match s {
        Some(t) => Some(t@),
        None => None,
    }
}

/// The text of an optional string slice.
pub open spec fn opt_str_view(s: Option<&str>) -> Option<Seq<char>> {
    match s {
        Some(t) => Some(t@),
        None => None,
    }
}

/// A running load over plain values.
pub open spec fn load_view(l: Load) -> LoadView {
    LoadView { path: l.path@, waiters: l.waiters@, blocked_on: opt_view(l.blocked_on) }
}

/// The running loads over plain values.
pub open spec fn loads_view(loads: Seq<Load>) -> Seq<LoadView> {
    Seq::new(loads.len(), |i: int| load_view(loads[i]))
}

/// The cache over plain values.
pub open spec fn cache_view(cache: Seq<(String, Option<u64>)>) -> Seq<(Seq<char>, Option<u64>)> {
    Seq::new(cache.len(), |i: int| (cache[i].0@, cache[i].1))
}

impl View for Loader {
    type V = LoaderView;

    /// The value over plain sequences and texts.
    closed spec fn view(&self) -> LoaderView {
        LoaderView {
            cache: cache_view(self.cache@),
            loads: loads_view(self.loads@),
            locations: texts(self.locations@),
        }
    }
}

impl Loader {
    /// A loader that has loaded nothing.
    pub fn new() -> (r: Loader)
        ensures
            wf(r@),
            r@.cache.len() == 0,
            r@.loads.len() == 0,
            r@.locations.len() == 0,
    {
        let r = Loader { cache: Vec::new(), loads: Vec::new(), locations: Vec::new() };
        assert(texts(r.locations@) =~= load_paths(loads_view(r.loads@)));
        r
    }

    /// The position of the cached value of `path`.
    fn find_cache(&self, path: &str) -> (r: Option<usize>)
        ensures
            match r {
                Some(i) => crate::snapshot::first_index(cache_paths(self@.cache), path@) == Some(
                    i as int,
                ) && i < self.cache@.len(),
                None => crate::snapshot::first_index(cache_paths(self@.cache), path@) is None,
            },
    {
        let mut i: usize = 0;
        while i < self.cache.len()
            invariant
                i <= self.cache@.len(),
                forall|j: int| 0 <= j < i ==> cache_paths(self@.cache)[j] != path@,
            decreases self.cache@.len() - i,
        {
            if same_text(self.cache[i].0.as_str(), path) {
                proof {
                    lemma_first_index_is(cache_paths(self@.cache), path@, i as int);
                }
                return Some(i);
            }
            i += 1;
        }
        proof {
            lemma_first_index(cache_paths(self@.cache), path@);
        }
        None
    }

    /// The position of the running load of `path`.
    fn find_load(&self, path: &str) -> (r: Option<usize>)
        ensures
            match r {
                Some(i) => load_index(self@, path@) == Some(i as int) && i < self.loads@.len(),
                None => load_index(self@, path@) is None,
            },
    {
        let mut i: usize = 0;
        while i < self.loads.len()
            invariant
                i <= self.loads@.len(),
                forall|j: int| 0 <= j < i ==> load_paths(self@.loads)[j] != path@,
            decreases self.loads@.len() - i,
        {
            if same_text(self.loads[i].path.as_str(), path) {
                proof {
                    lemma_first_index_is(load_paths(self@.loads), path@, i as int);
                }
                return Some(i);
            }
            i += 1;
        }
        proof {
            lemma_first_index(load_paths(self@.loads), path@);
        }
        None
    }

    /// What is cached for `path`.
    pub fn cached_value(&self, path: &str) -> (r: Option<Option<u64>>)
        ensures
            r == cached(self@, path@),
    {
        match self.find_cache(path) {
            Some(i) => Some(self.cache[i].1),
            None => None,
        }
    }

    /// Whether a load of `path` is running.
    pub fn is_loading(&self, path: &str) -> (r: bool)
        ensures
            r == loading(self@, path@),
    {
        self.find_load(path).is_some()
    }

    /// The location of the module that was started last and has not
    /// ended: the top of the stack of locations.
    pub fn current_location(&self) -> (r: Option<String>)
        ensures
            match r {
                Some(t) => self@.locations.len() > 0 && t@ == self@.locations.last(),
                None => self@.locations.len() == 0,
            },
    {
        let n = self.locations.len();
        if n == 0 {
            None
        } else {
            Some(self.locations[n - 1].clone())
        }
    }

    /// Whether the chain of blocked loads from `p` ends before it comes to `m`.
    fn chain_is_free(&self, p: &str, m: &str) -> (r: bool)
        ensures
            r == chain_ends(self@.loads, p@, m@, self@.loads.len()),
    {
        let mut cur: String = p.to_owned();
        let mut fuel: usize = self.loads.len();
        loop
            invariant
                fuel <= self.loads@.len(),
                chain_ends(self@.loads, p@, m@, self@.loads.len()) == chain_ends(
                    self@.loads,
                    cur@,
                    m@,
                    fuel as nat,
                ),
            decreases fuel,
        {
            if same_text(cur.as_str(), m) {
                return false;
            }
            match self.find_load(cur.as_str()) {
                Some(i) => {
                    match &self.loads[i].blocked_on {
                        Some(q) => {
                            if fuel == 0 {
                                return false;
                            }
                            cur = q.clone();
                            fuel = fuel - 1;
                        },
                        None => {
                            return true;
                        },
                    }
                },
                None => {
                    return true;
                },
            }
        }
    }

    /// Blocks the load of the module `from`, if one runs, on `p`.
    fn block_on(&mut self, from: Option<&str>, p: &str)
        ensures
            final(self)@.loads == block(old(self)@.loads, opt_str_view(from), p@),
            final(self)@.cache == old(self)@.cache,
            final(self)@.locations == old(self)@.locations,
    {
        match from {
            Some(m) => {
                match self.find_load(m) {
                    Some(j) => {
                        let ghost before = self.loads@;
                        let Load { path, waiters, blocked_on: _ } = self.loads.remove(j);
                        self.loads.insert(j, Load { path, waiters, blocked_on: Some(p.to_owned()) });
                        assert(loads_view(self.loads@) =~= loads_view(before).update(
                            j as int,
                            LoadView { blocked_on: Some(p@), ..loads_view(before)[j as int] },
                        ));
                    },
                    None => {},
                }
            },
            None => {},
        }
    }

    /// Lets go every load that is blocked on `p`.
    fn unblock_all(&mut self, p: &str)
        ensures
            final(self)@.loads == unblock(old(self)@.loads, p@),
            final(self)@.cache == old(self)@.cache,
            final(self)@.locations == old(self)@.locations,
    {
        let ghost before = self.loads@;
        let mut k: usize = 0;
        while k < self.loads.len()
            invariant
                k <= self.loads@.len(),
                self.loads@.len() == before.len(),
                self.cache == old(self).cache,
                self.locations == old(self).locations,
                before == old(self).loads@,
                forall|x: int|
                    0 <= x < k ==> load_view(#[trigger] self.loads@[x]) == unblock(
                        loads_view(before),
                        p@,
                    )[x],
                forall|x: int| k <= x < before.len() ==> #[trigger] self.loads@[x] == before[x],
            decreases self.loads@.len() - k,
        {
            let held = match &self.loads[k].blocked_on {
                Some(q) => same_text(q.as_str(), p),
                None => false,
            };
            if held {
                let ghost mid = self.loads@;
                let Load { path, waiters, blocked_on: _ } = self.loads.remove(k);
                self.loads.insert(k, Load { path, waiters, blocked_on: None });
                assert(forall|x: int| 0 <= x < mid.len() && x != k ==> self.loads@[x] == mid[x]);
            }
            k += 1;
        }
        assert(loads_view(self.loads@) =~= unblock(loads_view(before), p@));
    }

    /// Answers a require of `path` by the thread `caller`, running in the
    /// module `from`: what the thread is to do, with the loader changed
    /// as the decision asks.
    pub fn require(&mut self, path: &str, caller: u64, from: Option<&str>) -> (d: Decision)
        requires
            wf(old(self)@),
        ensures
            d == decide(old(self)@, path@, opt_str_view(from)),
            final(self)@ == after_require(old(self)@, path@, caller, opt_str_view(from)),
            wf(final(self)@),
    {
        proof {
            lemma_require_wf(self@, path@, caller, opt_str_view(from));
        }
        match self.find_cache(path) {
            Some(i) => {
                return Decision::Cached(self.cache[i].1);
            },
            None => {},
        }
        match self.find_load(path) {
            Some(i) => {
                let circle = match from {
                    Some(m) => self.is_loading(m) && !self.chain_is_free(path, m),
                    None => false,
                };
                if circle {
                    return Decision::Cyclic;
                }
                let ghost before = self.loads@;
                let Load { path: held, waiters, blocked_on } = self.loads.remove(i);
                let mut waiters = waiters;
                let ghost waiting = waiters@;
                waiters.push(caller);
                self.loads.insert(i, Load { path: held, waiters, blocked_on });
                assert(loads_view(self.loads@) =~= loads_view(before).update(
                    i as int,
                    LoadView { waiters: waiting.push(caller), ..loads_view(before)[i as int] },
                ));
                self.block_on(from, path);
                Decision::Wait
            },
            None => {
                self.block_on(from, path);
                let ghost blocked = self.loads@;
                let ghost places = self.locations@;
                self.loads.push(Load { path: path.to_owned(), waiters: Vec::new(), blocked_on: None });
                self.locations.push(path.to_owned());
                assert(loads_view(self.loads@) =~= loads_view(blocked).push(
                    LoadView { path: path@, waiters: Seq::empty(), blocked_on: None },
                ));
                assert(texts(self.locations@) =~= texts(places).push(path@));
                Decision::Start
            },
        }
    }

    /// Ends the load of `path` with `outcome`: caches what a run
    /// returned, if nothing is cached for the path, removes the load
    /// and the module's own location, and hands out those who wait for
    /// the outcome. Where no load of `path` runs, nothing changes and
    /// nobody waits.
    pub fn finish(&mut self, path: &str, outcome: Outcome) -> (r: Vec<u64>)
        requires
            wf(old(self)@),
        ensures
            r@ == waiters(old(self)@, path@),
            final(self)@ == after_finish(old(self)@, path@, outcome),
            wf(final(self)@),
    {
        proof {
            lemma_finish_wf(self@, path@, outcome);
        }
        match self.find_load(path) {
            Some(i) => {
                match outcome {
                    Outcome::Returned(v) => {
                        if self.find_cache(path).is_none() {
                            let ghost held = self.cache@;
                            self.cache.push((path.to_owned(), v));
                            assert(cache_view(self.cache@) =~= cache_view(held).push((path@, v)));
                        }
                    },
                    Outcome::Failed(_) => {},
                }
                let ghost before = self.loads@;
                let ghost places = self.locations@;
                proof {
                    lemma_first_index(load_paths(loads_view(before)), path@);
                    crate::loader_laws::lemma_last_is_first(texts(places), path@);
                }
                let load = self.loads.remove(i);
                assert(loads_view(self.loads@) =~= loads_view(before).remove(i as int));
                self.locations.remove(i);
                assert(texts(self.locations@) =~= texts(places).remove(i as int));
                self.unblock_all(path);
                load.waiters
            },
            None => Vec::new(),
        }
    }
}

} // verus!
