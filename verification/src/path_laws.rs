//! What holds of the path functions: a location is written in one way
//! only, and the spellings of one location are followed to the same place.

use crate::path::{
    canonical, common_ancestor, common_len, dot, dotdot, is_name, is_prefix, join, parse, render,
    render_abs, slash_free, split, step, walk,
};
use vstd::prelude::*;

verus! {

/// Every text has at least one raw component, and none of them holds a slash.
pub proof fn lemma_split_slash_free(s: Seq<char>)
    ensures
        split(s).len() >= 1,
        forall|i: int| 0 <= i < split(s).len() ==> slash_free(#[trigger] split(s)[i]),
    decreases s.len(),
{
    if s.len() > 0 {
        lemma_split_slash_free(s.drop_last());
        let init = split(s.drop_last());
        if s.last() != '/' {
            let grown = init.last().push(s.last());
            assert(slash_free(init[init.len() - 1]));
            assert(slash_free(grown));
            assert forall|i: int| 0 <= i < split(s).len() implies slash_free(
                #[trigger] split(s)[i],
            ) by {
                if i < init.len() - 1 {
                    assert(split(s)[i] == init[i]);
                }
            }
        } else {
            assert forall|i: int| 0 <= i < split(s).len() implies slash_free(
                #[trigger] split(s)[i],
            ) by {
                if i < init.len() {
                    assert(split(s)[i] == init[i]);
                }
            }
        }
    }
}

/// A walk from a canonical directory along components without a slash ends
/// at a canonical location.
pub proof fn lemma_walk_canonical(at: Seq<Seq<char>>, parts: Seq<Seq<char>>)
    requires
        canonical(at),
        forall|i: int| 0 <= i < parts.len() ==> slash_free(#[trigger] parts[i]),
    ensures
        canonical(walk(at, parts)),
    decreases parts.len(),
{
    if parts.len() > 0 {
        let init = parts.drop_last();
        assert forall|i: int| 0 <= i < init.len() implies slash_free(#[trigger] init[i]) by {
            assert(init[i] == parts[i]);
        }
        lemma_walk_canonical(at, init);
        let mid = walk(at, init);
        let c = parts.last();
        assert(slash_free(parts[parts.len() - 1]));
        let end = step(mid, c);
        assert forall|i: int| 0 <= i < end.len() implies is_name(#[trigger] end[i]) && slash_free(
            end[i],
        ) by {
            if i < mid.len() {
                assert(end[i] == mid[i]);
            }
        }
    }
}

/// The location that a path given as text is followed to is canonical.
pub proof fn lemma_join_canonical(at: Seq<Seq<char>>, text: Seq<char>)
    requires
        canonical(at),
    ensures
        canonical(join(at, text)),
        canonical(parse(text)),
{
    lemma_split_slash_free(text);
    lemma_walk_canonical(at, split(text));
    lemma_walk_canonical(Seq::empty(), split(text));
}

/// To follow `a` and then `b` is to follow `a + b`.
pub proof fn lemma_walk_concat(at: Seq<Seq<char>>, a: Seq<Seq<char>>, b: Seq<Seq<char>>)
    ensures
        walk(at, a + b) == walk(walk(at, a), b),
    decreases b.len(),
{
    if b.len() == 0 {
        assert(a + b =~= a);
    } else {
        lemma_walk_concat(at, a, b.drop_last());
        assert((a + b).drop_last() =~= a + b.drop_last());
        assert((a + b).last() == b.last());
    }
}

/// A walk along canonical components goes down once for each of them.
pub proof fn lemma_walk_names(at: Seq<Seq<char>>, names: Seq<Seq<char>>)
    requires
        canonical(names),
    ensures
        walk(at, names) == at + names,
    decreases names.len(),
{
    if names.len() == 0 {
        assert(at + names =~= at);
    } else {
        let init = names.drop_last();
        assert forall|i: int| 0 <= i < init.len() implies is_name(#[trigger] init[i])
            && slash_free(init[i]) by {
            assert(init[i] == names[i]);
        }
        lemma_walk_names(at, init);
        assert(is_name(names[names.len() - 1]));
        assert((at + init).push(names.last()) =~= at + names);
    }
}

/// A canonical location is what following it from the root gives.
pub proof fn lemma_walk_idempotent(names: Seq<Seq<char>>)
    requires
        canonical(names),
    ensures
        walk(Seq::empty(), names) == names,
{
    lemma_walk_names(Seq::empty(), names);
    assert(Seq::<Seq<char>>::empty() + names =~= names);
}

/// A `.` or an empty component anywhere in a path does not change where it leads.
pub proof fn lemma_walk_ignores_dot(
    at: Seq<Seq<char>>,
    a: Seq<Seq<char>>,
    c: Seq<char>,
    b: Seq<Seq<char>>,
)
    requires
        c.len() == 0 || c == dot(),
    ensures
        walk(at, a + seq![c] + b) == walk(at, a + b),
{
    lemma_walk_concat(at, a + seq![c], b);
    lemma_walk_concat(at, a, b);
    assert((a + seq![c]).drop_last() =~= a);
    assert((a + seq![c]).last() == c);
}

/// A name followed at once by `..` does not change where a path leads.
pub proof fn lemma_walk_cancels_name(
    at: Seq<Seq<char>>,
    a: Seq<Seq<char>>,
    name: Seq<char>,
    b: Seq<Seq<char>>,
)
    requires
        is_name(name),
    ensures
        walk(at, a + seq![name, dotdot()] + b) == walk(at, a + b),
{
    let detour = a + seq![name, dotdot()];
    lemma_walk_concat(at, detour, b);
    lemma_walk_concat(at, a, b);
    assert(detour.drop_last() =~= a + seq![name]);
    assert(detour.last() == dotdot());
    assert((a + seq![name]).drop_last() =~= a);
    assert((a + seq![name]).last() == name);
    let mid = walk(at, a);
    assert(mid.push(name).drop_last() =~= mid);
    assert(dotdot().len() == 2 && dot().len() == 1);
    assert(walk(at, a + seq![name]) == mid.push(name));
    assert(walk(at, detour) == step(mid.push(name), dotdot()));
    assert(walk(at, detour) == mid);
}

/// The text of a non-empty canonical location ends in a character of its
/// last name, and holds a slash before that name.
proof fn lemma_render_shape(p: Seq<Seq<char>>)
    requires
        p.len() > 0,
    ensures
        render(p).len() == render(p.drop_last()).len() + 1 + p.last().len(),
        render(p)[render(p.drop_last()).len() as int] == '/',
        forall|j: int|
            0 <= j < p.last().len() ==> render(p)[render(p.drop_last()).len() + 1 + j]
                == p.last()[j],
        forall|j: int|
            0 <= j < render(p.drop_last()).len() ==> render(p)[j] == render(p.drop_last())[j],
{
}

/// Two canonical locations with the same text are the same location.
pub proof fn lemma_render_injective(p: Seq<Seq<char>>, q: Seq<Seq<char>>)
    requires
        canonical(p),
        canonical(q),
        render(p) == render(q),
    ensures
        p == q,
    decreases p.len(),
{
    if p.len() == 0 {
        if q.len() > 0 {
            lemma_render_shape(q);
        }
        assert(p =~= q);
    } else if q.len() == 0 {
        lemma_render_shape(p);
    } else {
        lemma_render_shape(p);
        lemma_render_shape(q);
        let r = render(p);
        let rp = render(p.drop_last());
        let rq = render(q.drop_last());
        let lp = p.last();
        let lq = q.last();
        assert(slash_free(p[p.len() - 1]) && slash_free(q[q.len() - 1]));
        if lp.len() < lq.len() {
            let j = lq.len() - lp.len() - 1;
            assert(r[rp.len() as int] == '/');
            assert(rp.len() == rq.len() + 1 + j);
            assert(r[rq.len() + 1 + j] == lq[j]);
            assert(false);
        }
        if lq.len() < lp.len() {
            let j = lp.len() - lq.len() - 1;
            assert(r[rq.len() as int] == '/');
            assert(rq.len() == rp.len() + 1 + j);
            assert(r[rp.len() + 1 + j] == lp[j]);
            assert(false);
        }
        assert(lp =~= lq) by {
            assert forall|j: int| 0 <= j < lp.len() implies lp[j] == lq[j] by {
                assert(r[rp.len() + 1 + j] == lp[j]);
                assert(r[rq.len() + 1 + j] == lq[j]);
            }
        }
        assert(rp.len() == rq.len());
        assert forall|j: int| 0 <= j < rp.len() implies rp[j] == rq[j] by {
            assert(r[j] == rp[j]);
            assert(r[j] == rq[j]);
        }
        assert(rp =~= rq);
        let pi = p.drop_last();
        let qi = q.drop_last();
        assert forall|i: int| 0 <= i < pi.len() implies is_name(#[trigger] pi[i]) && slash_free(
            pi[i],
        ) by {
            assert(pi[i] == p[i]);
        }
        assert forall|i: int| 0 <= i < qi.len() implies is_name(#[trigger] qi[i]) && slash_free(
            qi[i],
        ) by {
            assert(qi[i] == q[i]);
        }
        lemma_render_injective(pi, qi);
        assert(p =~= pi.push(lp));
        assert(q =~= qi.push(lq));
    }
}

/// Two canonical locations with the same absolute text are the same location.
pub proof fn lemma_render_abs_injective(p: Seq<Seq<char>>, q: Seq<Seq<char>>)
    requires
        canonical(p),
        canonical(q),
        render_abs(p) == render_abs(q),
    ensures
        p == q,
{
    if p.len() == 0 && q.len() == 0 {
        assert(p =~= q);
    } else if p.len() == 0 {
        lemma_render_shape(q);
        assert(is_name(q[q.len() - 1]));
        assert(slash_free(q[q.len() - 1]));
        let r = render(q);
        assert(r[render(q.drop_last()).len() + 1 + 0int] == q.last()[0]);
        assert(false);
    } else if q.len() == 0 {
        lemma_render_shape(p);
        assert(is_name(p[p.len() - 1]));
        assert(slash_free(p[p.len() - 1]));
        let r = render(p);
        assert(r[render(p.drop_last()).len() + 1 + 0int] == p.last()[0]);
        assert(false);
    } else {
        lemma_render_injective(p, q);
    }
}

/// The shared leading components of two paths lead to both of them.
pub proof fn lemma_common_ancestor(a: Seq<Seq<char>>, b: Seq<Seq<char>>)
    ensures
        common_len(a, b) <= a.len(),
        common_len(a, b) <= b.len(),
        is_prefix(common_ancestor(a, b), a),
        is_prefix(common_ancestor(a, b), b),
    decreases a.len(),
{
    if a.len() == 0 || b.len() == 0 || a[0] != b[0] {
        assert(a.take(0) =~= b.take(0));
    } else {
        lemma_common_ancestor(a.drop_first(), b.drop_first());
        let k = common_len(a.drop_first(), b.drop_first()) as int;
        assert(a.drop_first().take(k) == b.drop_first().take(k));
        assert(a.take(k + 1) =~= seq![a[0]] + a.drop_first().take(k));
        assert(b.take(k + 1) =~= seq![b[0]] + b.drop_first().take(k));
        assert(a.take(k + 1).take(k + 1) =~= a.take(k + 1));
    }
}

/// What leads to a directory leads to all that lies under it.
pub proof fn lemma_prefix_transitive(x: Seq<Seq<char>>, y: Seq<Seq<char>>, z: Seq<Seq<char>>)
    requires
        is_prefix(x, y),
        is_prefix(y, z),
    ensures
        is_prefix(x, z),
{
    assert(z.take(x.len() as int) =~= z.take(y.len() as int).take(x.len() as int));
}

/// Two references from one directory whose raw components differ only by
/// a `.`, an empty component or a name undone by `..` lead to one location.
pub proof fn law_spellings_agree(
    dir: Seq<Seq<char>>,
    a: Seq<Seq<char>>,
    b: Seq<Seq<char>>,
    name: Seq<char>,
)
    requires
        is_name(name),
    ensures
        walk(dir, a + seq![dot()] + b) == walk(dir, a + b),
        walk(dir, a + seq![Seq::<char>::empty()] + b) == walk(dir, a + b),
        walk(dir, a + seq![name, dotdot()] + b) == walk(dir, a + b),
{
    lemma_walk_ignores_dot(dir, a, dot(), b);
    lemma_walk_ignores_dot(dir, a, Seq::<char>::empty(), b);
    lemma_walk_cancels_name(dir, a, name, b);
}

/// A path goes on from where its first part led: two references whose
/// first parts lead to one directory, and which go on alike, lead to one
/// location, whatever directory each started from.
pub proof fn law_same_directory_same_target(
    dir1: Seq<Seq<char>>,
    head1: Seq<Seq<char>>,
    dir2: Seq<Seq<char>>,
    head2: Seq<Seq<char>>,
    rest: Seq<Seq<char>>,
)
    requires
        walk(dir1, head1) == walk(dir2, head2),
    ensures
        walk(dir1, head1 + rest) == walk(dir2, head2 + rest),
{
    lemma_walk_concat(dir1, head1, rest);
    lemma_walk_concat(dir2, head2, rest);
}

} // verus!
