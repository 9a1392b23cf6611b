//! The walk over the module graph: from an entry file to every file that
//! can be reached from it, each visited once.

use crate::graph::{lemma_closed_holds_all, lemma_reach_entry, lemma_reach_step, lit_target, reachable, requires_file, source_of};
use crate::path::{canonical, copy_parts, parent_of, render_abs, render_path, texts};
use crate::path_laws::lemma_render_abs_injective;
use crate::resolver::{resolve, ResolveError, Target, Verdict};
use crate::resolver_laws::lemma_resolution_canonical;
use crate::scan::{regex_compiles, required_literals, scan_requires, REQUIRE_PATTERN};
use crate::snapshot::{Entry, Query, Snapshot};
use vstd::prelude::*;

verus! {

/// Why no bundle could be made.
#[derive(Debug, Clone, PartialEq, Eq)]
pub enum BundleError {
    /// The file at this path is needed and cannot be read.
    Io(String),
    /// The pattern that finds the references cannot be matched.
    Pattern,
    /// The snapshot does not answer a question that the bundle depends on.
    Unprobed(Query),
}

/// A file that the walk has visited: its canonical components and the
/// position of its listing in the snapshot.
pub struct Visited {
    pub parts: Vec<String>,
    pub index: usize,
}

/// The paths of the visited files, in the order of the visits.
pub open spec fn visited_paths(found: Seq<Visited>) -> Seq<Seq<Seq<char>>> {
    Seq::new(found.len(), |i: int| texts(found[i].parts@))
}

/// The paths that wait for a visit.
pub open spec fn waiting_paths(queue: Seq<Vec<String>>) -> Seq<Seq<Seq<char>>> {
    Seq::new(queue.len(), |i: int| texts(queue[i]@))
}

/// `p` is a canonical, reachable, readable file listed at `index`.
pub open spec fn good_file(
    snap: Snapshot,
    entry: Seq<Seq<char>>,
    p: Seq<Seq<char>>,
    index: int,
) -> bool {
    &&& canonical(p)
    &&& snap.index_of(render_abs(p)) == Some(index)
    &&& source_of(snap, p) is Some
    &&& reachable(snap, entry, p)
}

/// Every visited file is a good file, and no two were listed at one position.
pub open spec fn visited_ok(snap: Snapshot, entry: Seq<Seq<char>>, found: Seq<Visited>) -> bool {
    &&& forall|i: int|
        0 <= i < found.len() ==> good_file(
            snap,
            entry,
            #[trigger] visited_paths(found)[i],
            found[i].index as int,
        )
    &&& forall|i: int, j: int|
        0 <= i < j < found.len() ==> (#[trigger] found[i]).index != (#[trigger] found[j]).index
}

/// Every waiting path is canonical and reachable.
spec fn waiting_ok(snap: Snapshot, entry: Seq<Seq<char>>, queue: Seq<Vec<String>>) -> bool {
    forall|i: int|
        0 <= i < queue.len() ==> canonical(#[trigger] waiting_paths(queue)[i]) && reachable(
            snap,
            entry,
            waiting_paths(queue)[i],
        )
}

/// What a visited file requires has been visited or waits.
spec fn closed(snap: Snapshot, found: Seq<Visited>, queue: Seq<Vec<String>>) -> bool {
    forall|f: Seq<Seq<char>>, g: Seq<Seq<char>>|
        visited_paths(found).contains(f) && #[trigger] requires_file(snap, f, g)
            ==> visited_paths(found).contains(g) || waiting_paths(queue).contains(g)
}

/// A position is marked exactly where a visited file was listed at it.
spec fn marks_ok(seen: Seq<bool>, found: Seq<Visited>) -> bool {
    forall|x: int|
        0 <= x < seen.len() ==> (#[trigger] seen[x] <==> exists|i: int|
            0 <= i < found.len() && (#[trigger] found[i]).index == x)
}

/// The number of positions without a mark.
pub open spec fn unmarked(seen: Seq<bool>) -> nat
    decreases seen.len(),
{
    if seen.len() == 0 {
        0
    } else {
        unmarked(seen.drop_last()) + if seen.last() {
            0nat
        } else {
            1nat
        }
    }
}

/// A mark at a position without one leaves one position less unmarked.
pub proof fn lemma_mark(seen: Seq<bool>, i: int)
    requires
        0 <= i < seen.len(),
        !seen[i],
    ensures
        unmarked(seen.update(i, true)) + 1 == unmarked(seen),
    decreases seen.len(),
{
    let after = seen.update(i, true);
    if i == seen.len() - 1 {
        assert(after.drop_last() =~= seen.drop_last());
    } else {
        lemma_mark(seen.drop_last(), i);
        assert(after.drop_last() =~= seen.drop_last().update(i, true));
    }
}

/// As many `false` as the snapshot has listings.
fn no_marks(n: usize) -> (r: Vec<bool>)
    ensures
        r@.len() == n,
        forall|i: int| 0 <= i < n ==> !r@[i],
{
    let mut out: Vec<bool> = Vec::new();
    while out.len() < n
        invariant
            out@.len() <= n,
            forall|i: int| 0 <= i < out@.len() ==> !out@[i],
        decreases n - out@.len(),
    {
        out.push(false);
    }
    out
}

/// One of the first `upto` references of `lits`, written in a script of
/// the directory `dir`, resolves to the file `g`.
pub open spec fn named_by(
    snap: Snapshot,
    lits: Seq<Seq<char>>,
    upto: int,
    dir: Seq<Seq<char>>,
    g: Seq<Seq<char>>,
) -> bool {
    exists|j: int| 0 <= j < upto && #[trigger] lit_target(snap, lits, j, dir) == Verdict::Module(g)
}

/// The files that the references `lits`, written in a script of the
/// directory `dir`, resolve to, in the order of the references.
pub open spec fn targets(snap: Snapshot, lits: Seq<Seq<char>>, dir: Seq<Seq<char>>) -> Seq<
    Seq<Seq<char>>,
>
    decreases lits.len(),
{
    if lits.len() == 0 {
        Seq::empty()
    } else {
        let before = targets(snap, lits.drop_last(), dir);
        match lit_target(snap, lits, lits.len() - 1, dir) {
            Verdict::Module(g) => before.push(g),
            _ => before,
        }
    }
}

/// `q` is a question that the resolution of the `j`-th of `lits` depends on.
pub open spec fn lit_asks(
    snap: Snapshot,
    lits: Seq<Seq<char>>,
    j: int,
    dir: Seq<Seq<char>>,
    q: Query,
) -> bool {
    crate::resolver::asks(snap, lits[j], dir, q)
}

/// `q` is a question that the resolution of one of the first `upto` of
/// `lits` depends on.
pub open spec fn any_asks(
    snap: Snapshot,
    lits: Seq<Seq<char>>,
    upto: int,
    dir: Seq<Seq<char>>,
    q: Query,
) -> bool {
    exists|j: int| 0 <= j < upto && #[trigger] lit_asks(snap, lits, j, dir, q)
}

/// `q` is a question that the visit of the file `f` depends on: what is
/// at `f`, or a question that one of its references depends on.
pub open spec fn file_asks(snap: Snapshot, f: Seq<Seq<char>>, q: Query) -> bool {
    ||| crate::resolver::asks_path(q, render_abs(f))
    ||| match source_of(snap, f) {
        Some(bytes) => any_asks(
            snap,
            required_literals(bytes),
            required_literals(bytes).len() as int,
            crate::path::parent(f),
            q,
        ),
        None => false,
    }
}

/// `q` is a question that the visit of a file which `entry` reaches
/// depends on.
pub open spec fn walk_asks(snap: Snapshot, entry: Seq<Seq<char>>, q: Query) -> bool {
    exists|f: Seq<Seq<char>>| reachable(snap, entry, f) && #[trigger] file_asks(snap, f, q)
}

/// The walk from the state with the marks `seen`, the visited files
/// `found` and the waiting paths `queue`: the path that waits last is
/// visited next. A file that is not marked is marked and visited, and
/// what its references resolve to waits behind the rest. The walk ends
/// with the visited files in the order of the visits, or at the first
/// path that is no readable file, with the text of that path.
pub open spec fn walk_from(
    snap: Snapshot,
    seen: Seq<bool>,
    found: Seq<Seq<Seq<char>>>,
    queue: Seq<Seq<Seq<char>>>,
) -> Result<Seq<Seq<Seq<char>>>, Seq<char>>
    decreases unmarked(seen), queue.len(),
{
    if queue.len() == 0 {
        Ok(found)
    } else {
        let t = queue.last();
        let rest = queue.drop_last();
        match snap.index_of(render_abs(t)) {
            Some(i) => match snap.listings[i].entry {
                Entry::File(bytes) => if 0 <= i < seen.len() && !seen[i] {
                    proof {
                        lemma_mark(seen, i);
                    }
                    walk_from(
                        snap,
                        seen.update(i, true),
                        found.push(t),
                        rest + targets(snap, required_literals(bytes@), crate::path::parent(t)),
                    )
                } else {
                    walk_from(snap, seen, found, rest)
                },
                _ => Err(render_abs(t)),
            },
            None => Err(render_abs(t)),
        }
    }
}

/// The walk from `entry`: the files that `entry` reaches in the order
/// in which they are visited, or the text of the first path that is
/// needed and is no readable file.
pub open spec fn walk_order(snap: Snapshot, entry: Seq<Seq<char>>) -> Result<
    Seq<Seq<Seq<char>>>,
    Seq<char>,
> {
    walk_from(
        snap,
        Seq::new(snap.listings@.len(), |i: int| false),
        Seq::empty(),
        seq![entry],
    )
}

/// Resolves each of the references `lits`, written in a script of the
/// directory `dir`, and puts the files that they name on the waiting list.
pub fn expand(snap: &Snapshot, dir: &Vec<String>, lits: &Vec<String>, queue: &mut Vec<Vec<String>>) -> (r:
    Result<(), BundleError>)
    ensures
        match r {
            Ok(()) => {
                &&& final(queue)@.len() >= old(queue)@.len()
                &&& final(queue)@.take(old(queue)@.len() as int) == old(queue)@
                &&& forall|g: Seq<Seq<char>>| #[trigger]
                    named_by(*snap, texts(lits@), lits@.len() as int, texts(dir@), g)
                        ==> waiting_paths(final(queue)@).contains(g)
                &&& forall|k: int|
                    old(queue)@.len() <= k < final(queue)@.len() ==> named_by(
                        *snap,
                        texts(lits@),
                        lits@.len() as int,
                        texts(dir@),
                        #[trigger] waiting_paths(final(queue)@)[k],
                    )
                &&& waiting_paths(final(queue)@) == waiting_paths(old(queue)@) + targets(
                    *snap,
                    texts(lits@),
                    texts(dir@),
                )
            },
            Err(e) => e matches BundleError::Unprobed(q) && !snap.answers(q) && any_asks(
                *snap,
                texts(lits@),
                lits@.len() as int,
                texts(dir@),
                q,
            ),
        },
{
    let none: Vec<String> = Vec::new();
    assert(texts(none@) =~= Seq::<Seq<char>>::empty());
    let mut j: usize = 0;
    assert(queue@.take(queue@.len() as int) =~= queue@);
    assert(texts(lits@).take(0) =~= Seq::empty());
    assert(waiting_paths(queue@) + Seq::<Seq<Seq<char>>>::empty() =~= waiting_paths(queue@));
    while j < lits.len()
        invariant
            j <= lits@.len(),
            waiting_paths(queue@) == waiting_paths(old(queue)@) + targets(
                *snap,
                texts(lits@).take(j as int),
                texts(dir@),
            ),
            texts(none@) == Seq::<Seq<char>>::empty(),
            queue@.len() >= old(queue)@.len(),
            queue@.take(old(queue)@.len() as int) == old(queue)@,
            forall|g: Seq<Seq<char>>| #[trigger]
                named_by(*snap, texts(lits@), j as int, texts(dir@), g) ==> waiting_paths(
                    queue@,
                ).contains(g),
            forall|k: int|
                old(queue)@.len() <= k < queue@.len() ==> named_by(
                    *snap,
                    texts(lits@),
                    lits@.len() as int,
                    texts(dir@),
                    #[trigger] waiting_paths(queue@)[k],
                ),
        decreases lits@.len() - j,
    {
        let ghost before = queue@;
        let ghost ls = texts(lits@);
        let ghost d = texts(dir@);
        proof {
            let t = ls.take(j as int + 1);
            assert(t.drop_last() =~= ls.take(j as int));
            assert(t[t.len() - 1] == ls[j as int]);
            assert(lit_target(*snap, t, t.len() - 1, d) == lit_target(*snap, ls, j as int, d));
        }
        match resolve(snap, &none, lits[j].as_str(), dir) {
            Ok(Target::Module(p)) => {
                let ghost h = texts(p@);
                queue.push(p);
                proof {
                    assert(waiting_paths(queue@) =~= waiting_paths(before).push(h));
                    assert(waiting_paths(queue@) =~= waiting_paths(old(queue)@) + targets(
                        *snap,
                        ls.take(j as int + 1),
                        d,
                    ));
                    assert(lit_target(*snap, ls, j as int, d) == Verdict::Module(h));
                    assert(waiting_paths(queue@)[before.len() as int] == h);
                    assert(queue@.take(old(queue)@.len() as int) =~= before.take(
                        old(queue)@.len() as int,
                    ));
                    assert forall|g: Seq<Seq<char>>| #[trigger]
                        named_by(*snap, ls, j + 1, d, g) implies waiting_paths(queue@).contains(
                        g,
                    ) by {
                        let x = choose|x: int|
                            0 <= x < j + 1 && #[trigger] lit_target(*snap, ls, x, d)
                                == Verdict::Module(g);
                        if x < j {
                            assert(named_by(*snap, ls, j as int, d, g));
                            let k = choose|k: int|
                                0 <= k < waiting_paths(before).len() && waiting_paths(before)[k]
                                    == g;
                            assert(waiting_paths(queue@)[k] == g);
                        } else {
                            assert(g == h);
                        }
                    }
                    assert forall|k: int| old(queue)@.len() <= k < queue@.len() implies named_by(
                        *snap,
                        ls,
                        lits@.len() as int,
                        d,
                        #[trigger] waiting_paths(queue@)[k],
                    ) by {
                        if k < before.len() {
                            assert(waiting_paths(queue@)[k] == waiting_paths(before)[k]);
                        }
                    }
                }
            },
            Err(ResolveError::Unprobed(q)) => {
                assert(lit_asks(*snap, ls, j as int, d, q));
                return Err(BundleError::Unprobed(q));
            },
            _ => {
                proof {
                    assert forall|g: Seq<Seq<char>>| #[trigger]
                        named_by(*snap, ls, j + 1, d, g) implies waiting_paths(queue@).contains(
                        g,
                    ) by {
                        let x = choose|x: int|
                            0 <= x < j + 1 && #[trigger] lit_target(*snap, ls, x, d)
                                == Verdict::Module(g);
                        assert(x < j);
                        assert(named_by(*snap, ls, j as int, d, g));
                    }
                }
            },
        }
        j += 1;
    }
    assert(texts(lits@).take(j as int) =~= texts(lits@));
    Ok(())
}

/// The waiting paths with one more are the waiting paths and its path.
proof fn lemma_waiting_push(queue: Seq<Vec<String>>, t: Vec<String>)
    ensures
        waiting_paths(queue.push(t)) == waiting_paths(queue).push(texts(t@)),
{
    assert(waiting_paths(queue.push(t)) =~= waiting_paths(queue).push(texts(t@)));
}

/// The visited paths with one more are the visited paths and its path.
proof fn lemma_visited_push(found: Seq<Visited>, v: Visited)
    ensures
        visited_paths(found.push(v)) == visited_paths(found).push(texts(v.parts@)),
{
    assert(visited_paths(found.push(v)) =~= visited_paths(found).push(texts(v.parts@)));
}

/// Visits every file that can be reached from `entry`, each once.
pub fn collect(snap: &Snapshot, entry: &Vec<String>) -> (r: Result<Vec<Visited>, BundleError>)
    requires
        canonical(texts(entry@)),
    ensures
        match r {
            Ok(found) => {
                &&& regex_compiles(REQUIRE_PATTERN@)
                &&& visited_ok(*snap, texts(entry@), found@)
                &&& forall|g: Seq<Seq<char>>| #[trigger]
                    reachable(*snap, texts(entry@), g) ==> visited_paths(found@).contains(g)
                &&& walk_order(*snap, texts(entry@)) == Ok::<Seq<Seq<Seq<char>>>, Seq<char>>(
                    visited_paths(found@),
                )
            },
            Err(BundleError::Io(p)) => {
                &&& exists|g: Seq<Seq<char>>|
                    reachable(*snap, texts(entry@), g) && #[trigger] render_abs(g) == p@
                        && snap.knows(p@) && source_of(*snap, g) is None
                &&& walk_order(*snap, texts(entry@)) == Err::<Seq<Seq<Seq<char>>>, Seq<char>>(p@)
            },
            Err(BundleError::Pattern) => !regex_compiles(REQUIRE_PATTERN@),
            Err(BundleError::Unprobed(q)) => !snap.answers(q) && walk_asks(
                *snap,
                texts(entry@),
                q,
            ),
        },
{
    let ghost e = texts(entry@);
    let mut seen = no_marks(snap.listings.len());
    let mut found: Vec<Visited> = Vec::new();
    let mut queue: Vec<Vec<String>> = Vec::new();
    queue.push(copy_parts(entry));
    proof {
        lemma_reach_entry(*snap, e);
        assert(waiting_paths(queue@)[0] == e);
        assert(waiting_paths(queue@) =~= seq![e]);
        assert(visited_paths(found@) =~= Seq::empty());
        assert(seen@ =~= Seq::new(snap.listings@.len(), |i: int| false));
    }
    while queue.len() > 0
        invariant
            canonical(e),
            e == texts(entry@),
            walk_order(*snap, e) == walk_from(
                *snap,
                seen@,
                visited_paths(found@),
                waiting_paths(queue@),
            ),
            seen@.len() == snap.listings@.len(),
            visited_ok(*snap, e, found@),
            waiting_ok(*snap, e, queue@),
            closed(*snap, found@, queue@),
            marks_ok(seen@, found@),
            visited_paths(found@).contains(e) || waiting_paths(queue@).contains(e),
            found@.len() > 0 ==> regex_compiles(REQUIRE_PATTERN@),
        decreases unmarked(seen@), queue@.len(),
    {
        let ghost queue0 = queue@;
        let t = queue.pop().unwrap();
        let ghost rest = queue@;
        let ghost tp = texts(t@);
        proof {
            assert(queue0 =~= rest.push(t));
            lemma_waiting_push(rest, t);
            assert(waiting_paths(queue0)[rest.len() as int] == tp);
            assert(canonical(tp) && reachable(*snap, e, tp));
            assert(waiting_paths(queue0).last() == tp);
            assert(waiting_paths(queue0).drop_last() =~= waiting_paths(rest));
        }
        let text = render_path(&t);
        let idx = match snap.find(text.as_str()) {
            Some(i) => i,
            None => {
                if snap.sealed {
                    return Err(BundleError::Io(text));
                } else {
                    proof {
                        assert(file_asks(*snap, tp, Query::Entry(text)));
                    }
                    return Err(BundleError::Unprobed(Query::Entry(text)));
                }
            },
        };
        let bytes = match &snap.listings[idx].entry {
            Entry::File(b) => b,
            _ => {
                return Err(BundleError::Io(text));
            },
        };
        if seen[idx] {
            proof {
                let i = choose|i: int| 0 <= i < found@.len() && (#[trigger] found@[i]).index == idx;
                let fp = visited_paths(found@)[i];
                assert(good_file(*snap, e, fp, idx as int));
                lemma_first_index_of(*snap, render_abs(fp), render_abs(tp));
                lemma_render_abs_injective(fp, tp);
                assert(visited_paths(found@).contains(tp));
                assert forall|k: int| 0 <= k < rest.len() implies canonical(
                    #[trigger] waiting_paths(rest)[k],
                ) && reachable(*snap, e, waiting_paths(rest)[k]) by {
                    assert(waiting_paths(rest)[k] == waiting_paths(queue0)[k]);
                }
                assert forall|f: Seq<Seq<char>>, g: Seq<Seq<char>>|
                    visited_paths(found@).contains(f) && #[trigger] requires_file(
                        *snap,
                        f,
                        g,
                    ) implies visited_paths(found@).contains(g) || waiting_paths(rest).contains(
                    g,
                ) by {
                    lemma_contains_push(waiting_paths(rest), tp, g);
                }
                lemma_contains_push(waiting_paths(rest), tp, e);
            }
        } else {
            let lits = match scan_requires(bytes) {
                Some(l) => l,
                None => {
                    return Err(BundleError::Pattern);
                },
            };
            let dir = parent_of(&t);
            let ghost d = texts(dir@);
            let ghost ls = texts(lits@);
            match expand(snap, &dir, &lits, &mut queue) {
                Ok(()) => {},
                Err(err) => {
                    proof {
                        assert(source_of(*snap, tp) == Some(bytes@));
                        assert(err matches BundleError::Unprobed(q) && file_asks(*snap, tp, q));
                    }
                    return Err(err);
                },
            }
            let ghost grown = queue@;
            let ghost marks0 = seen@;
            let ghost found0 = found@;
            seen.set(idx, true);
            let v = Visited { parts: t, index: idx };
            found.push(v);
            proof {
                lemma_mark(marks0, idx as int);
                lemma_visited_push(found0, v);
                assert(source_of(*snap, tp) == Some(bytes@));
                assert(waiting_paths(grown) == waiting_paths(rest) + targets(*snap, ls, d));
                assert(walk_from(*snap, marks0, visited_paths(found0), waiting_paths(queue0))
                    == walk_from(
                    *snap,
                    marks0.update(idx as int, true),
                    visited_paths(found0).push(tp),
                    waiting_paths(rest) + targets(*snap, ls, d),
                ));
                assert(canonical(d)) by {
                    if tp.len() > 0 {
                        assert forall|i: int| 0 <= i < d.len() implies crate::path::is_name(
                            #[trigger] d[i],
                        ) && crate::path::slash_free(d[i]) by {
                            assert(d[i] == tp[i]);
                        }
                    }
                }
                // every file named by a reference of `t` is required by `t`
                assert forall|g: Seq<Seq<char>>| #[trigger]
                    named_by(*snap, ls, ls.len() as int, d, g) implies requires_file(
                    *snap,
                    tp,
                    g,
                ) && canonical(g) by {
                    let j = choose|j: int|
                        0 <= j < ls.len() && #[trigger] lit_target(*snap, ls, j, d)
                            == Verdict::Module(g);
                    lemma_resolution_canonical(*snap, Seq::empty(), ls[j], d);
                }
                // the visited files are good
                assert forall|i: int| 0 <= i < found@.len() implies good_file(
                    *snap,
                    e,
                    #[trigger] visited_paths(found@)[i],
                    found@[i].index as int,
                ) by {
                    if i < found0.len() {
                        assert(visited_paths(found@)[i] == visited_paths(found0)[i]);
                        assert(found@[i] == found0[i]);
                    }
                }
                assert forall|i: int, j: int| 0 <= i < j < found@.len() implies (
                #[trigger] found@[i]).index != (#[trigger] found@[j]).index by {
                    if j == found0.len() {
                        assert(found@[i] == found0[i]);
                        assert(!marks0[idx as int]);
                    } else {
                        assert(found@[i] == found0[i]);
                        assert(found@[j] == found0[j]);
                    }
                }
                // the waiting paths are canonical and reachable
                assert forall|k: int| 0 <= k < grown.len() implies canonical(
                    #[trigger] waiting_paths(grown)[k],
                ) && reachable(*snap, e, waiting_paths(grown)[k]) by {
                    if k < rest.len() {
                        assert(grown.take(rest.len() as int)[k] == grown[k]);
                        assert(waiting_paths(grown)[k] == waiting_paths(queue0)[k]);
                    } else {
                        let g = waiting_paths(grown)[k];
                        assert(named_by(*snap, ls, ls.len() as int, d, g));
                        lemma_reach_step(*snap, e, tp, g);
                    }
                }
                // the marks follow the visits
                assert forall|x: int| 0 <= x < seen@.len() implies (#[trigger] seen@[x]
                    <==> exists|i: int|
                    0 <= i < found@.len() && (#[trigger] found@[i]).index == x) by {
                    if x == idx {
                        assert(found@[found0.len() as int].index == x);
                    } else {
                        assert(seen@[x] == marks0[x]);
                        if marks0[x] {
                            let i = choose|i: int|
                                0 <= i < found0.len() && (#[trigger] found0[i]).index == x;
                            assert(found@[i].index == x);
                        }
                        if exists|i: int|
                            0 <= i < found@.len() && (#[trigger] found@[i]).index == x {
                            let i = choose|i: int|
                                0 <= i < found@.len() && (#[trigger] found@[i]).index == x;
                            assert(found0[i].index == x);
                        }
                    }
                }
                // what a visited file requires has been visited or waits
                assert forall|f: Seq<Seq<char>>, g: Seq<Seq<char>>|
                    visited_paths(found@).contains(f) && #[trigger] requires_file(
                        *snap,
                        f,
                        g,
                    ) implies visited_paths(found@).contains(g) || waiting_paths(
                    grown,
                ).contains(g) by {
                    lemma_contains_push(visited_paths(found0), tp, f);
                    if f == tp {
                        let j = choose|j: int|
                            0 <= j < ls.len() && #[trigger] lit_target(*snap, ls, j, d)
                                == Verdict::Module(g);
                        assert(named_by(*snap, ls, ls.len() as int, d, g));
                    } else {
                        assert(visited_paths(found0).contains(f));
                        lemma_contains_push(waiting_paths(rest), tp, g);
                        lemma_contains_push(visited_paths(found0), tp, g);
                        if waiting_paths(rest).contains(g) {
                            lemma_contains_prefix(grown, rest, g);
                        }
                    }
                }
                lemma_contains_push(visited_paths(found0), tp, e);
                lemma_contains_push(waiting_paths(rest), tp, e);
                if waiting_paths(rest).contains(e) {
                    lemma_contains_prefix(grown, rest, e);
                }
            }
        }
    }
    proof {
        assert forall|g: Seq<Seq<char>>| #[trigger]
            reachable(*snap, e, g) implies visited_paths(found@).contains(g) by {
            let n = choose|n: nat| crate::graph::reach_in(*snap, e, g, n);
            assert forall|f: Seq<Seq<char>>, h: Seq<Seq<char>>|
                visited_paths(found@).contains(f) && #[trigger] requires_file(
                    *snap,
                    f,
                    h,
                ) implies visited_paths(found@).contains(h) by {
                assert(!waiting_paths(queue@).contains(h));
            }
            assert(!waiting_paths(queue@).contains(e));
            lemma_closed_holds_all(*snap, e, visited_paths(found@), g, n);
        }
        let i = choose|i: int|
            0 <= i < visited_paths(found@).len() && visited_paths(found@)[i] == e;
        assert(found@.len() > 0);
    }
    Ok(found)
}

/// Two paths listed at one position are one text.
proof fn lemma_first_index_of(snap: Snapshot, a: Seq<char>, b: Seq<char>)
    requires
        snap.index_of(a) is Some,
        snap.index_of(a) == snap.index_of(b),
    ensures
        a == b,
{
    crate::snapshot::lemma_first_index(crate::snapshot::listing_paths(snap.listings@), a);
    crate::snapshot::lemma_first_index(crate::snapshot::listing_paths(snap.listings@), b);
}

/// What a sequence with one more element holds.
proof fn lemma_contains_push(s: Seq<Seq<Seq<char>>>, x: Seq<Seq<char>>, g: Seq<Seq<char>>)
    ensures
        s.push(x).contains(g) <==> s.contains(g) || g == x,
{
    if s.contains(g) {
        let i = choose|i: int| 0 <= i < s.len() && s[i] == g;
        assert(s.push(x)[i] == g);
    }
    if g == x {
        assert(s.push(x)[s.len() as int] == g);
    }
    if s.push(x).contains(g) {
        let i = choose|i: int| 0 <= i < s.push(x).len() && s.push(x)[i] == g;
        if i < s.len() {
            assert(s[i] == g);
        }
    }
}

/// What waits in a list waits in every list that starts with it.
proof fn lemma_contains_prefix(grown: Seq<Vec<String>>, rest: Seq<Vec<String>>, g: Seq<Seq<char>>)
    requires
        grown.len() >= rest.len(),
        grown.take(rest.len() as int) == rest,
        waiting_paths(rest).contains(g),
    ensures
        waiting_paths(grown).contains(g),
{
    let i = choose|i: int| 0 <= i < waiting_paths(rest).len() && waiting_paths(rest)[i] == g;
    assert(grown.take(rest.len() as int)[i] == grown[i]);
    assert(waiting_paths(grown)[i] == g);
}

} // verus!
