//! What holds of relative paths: the relative path from a directory to a
//! target, followed from that directory, leads to the target.

use crate::path::{
    canonical, common_len, dot, dotdot, is_name, lead, relative_text, render_rel, slash_free,
    split, walk,
};
use crate::path_laws::{
    lemma_common_ancestor, lemma_walk_concat, lemma_walk_names,
};
use vstd::prelude::*;

verus! {

/// Text splits at a slash into what text before it and text behind it
/// split into.
pub proof fn lemma_split_at_slash(a: Seq<char>, b: Seq<char>)
    ensures
        split(a + seq!['/'] + b) == split(a) + split(b),
        split(b).len() >= 1,
    decreases b.len(),
{
    let whole = a + seq!['/'] + b;
    if b.len() == 0 {
        assert(whole.drop_last() =~= a);
        assert(split(a).push(Seq::<char>::empty()) =~= split(a) + split(b));
    } else {
        let init = b.drop_last();
        lemma_split_at_slash(a, init);
        assert(whole.drop_last() =~= a + seq!['/'] + init);
        assert(whole.last() == b.last());
        let left = split(a);
        let right = split(init);
        if b.last() == '/' {
            assert((left + right).push(Seq::<char>::empty()) =~= left + right.push(
                Seq::<char>::empty(),
            ));
        } else {
            assert((left + right).drop_last() =~= left + right.drop_last());
            assert((left + right).last() == right.last());
            assert((left + right.drop_last()).push(right.last().push(b.last())) =~= left
                + right.drop_last().push(right.last().push(b.last())));
        }
    }
}

/// Text without a slash is one component.
pub proof fn lemma_split_name(name: Seq<char>)
    requires
        slash_free(name),
    ensures
        split(name) == seq![name],
    decreases name.len(),
{
    if name.len() == 0 {
        assert(name =~= Seq::<char>::empty());
        assert(split(name) =~= seq![name]);
    } else {
        let init = name.drop_last();
        assert(slash_free(init));
        lemma_split_name(init);
        assert(name[name.len() - 1] != '/');
        assert(name.last() != '/');
        assert(init.push(name.last()) =~= name);
        assert(seq![init].drop_last() =~= Seq::<Seq<char>>::empty());
        assert(seq![init].last() == init);
        assert(split(name) == split(init).drop_last().push(split(init).last().push(name.last())));
        assert(split(name) =~= seq![name]);
    }
}

/// Names written with slashes between them split into those names.
pub proof fn lemma_split_names(names: Seq<Seq<char>>)
    requires
        canonical(names),
        names.len() > 0,
    ensures
        split(render_rel(names)) == names,
    decreases names.len(),
{
    if names.len() == 1 {
        assert(is_name(names[0]) && slash_free(names[0]));
        lemma_split_name(names[0]);
        assert(seq![names[0]] =~= names);
    } else {
        let init = names.drop_last();
        assert forall|i: int| 0 <= i < init.len() implies is_name(#[trigger] init[i])
            && slash_free(init[i]) by {
            assert(init[i] == names[i]);
        }
        lemma_split_names(init);
        assert(is_name(names[names.len() - 1]) && slash_free(names[names.len() - 1]));
        lemma_split_name(names.last());
        lemma_split_at_slash(render_rel(init), names.last());
        assert(init + seq![names.last()] =~= names);
    }
}

/// `n` times the component `..`.
pub open spec fn ups(n: nat) -> Seq<Seq<char>> {
    Seq::new(n, |i: int| dotdot())
}

/// The start of a relative path splits into one `.`, or into one `..`
/// for each directory to leave; and an empty component behind its last
/// slash.
pub proof fn lemma_split_lead(n: nat)
    ensures
        split(lead(n)) == if n == 0 {
            seq![dot(), Seq::<char>::empty()]
        } else {
            ups(n).push(Seq::<char>::empty())
        },
    decreases n,
{
    let empty = Seq::<char>::empty();
    assert(slash_free(dot()) && slash_free(dotdot()) && slash_free(empty));
    lemma_split_name(dot());
    lemma_split_name(dotdot());
    lemma_split_name(empty);
    if n == 0 {
        lemma_split_at_slash(dot(), empty);
        assert(lead(0) =~= dot() + seq!['/'] + empty);
        assert(seq![dot()] + seq![empty] =~= seq![dot(), empty]);
    } else if n == 1 {
        lemma_split_at_slash(dotdot(), empty);
        assert(lead(1) =~= dotdot() + seq!['/'] + empty);
        assert(seq![dotdot()] + seq![empty] =~= ups(1).push(empty));
    } else {
        let m = (n - 1) as nat;
        lemma_split_lead(m);
        // the text before the last slash of `lead(m)`, then `..`, then a slash
        let body = lead(m).drop_last();
        assert(lead(m).last() == '/') by {
            lemma_lead_ends_in_slash(m);
        }
        assert(lead(m) =~= body + seq!['/'] + empty);
        lemma_split_at_slash(body, empty);
        assert(split(body) + seq![empty] == ups(m).push(empty));
        assert(split(body) =~= ups(m)) by {
            assert((split(body) + seq![empty]).drop_last() =~= split(body));
            assert(ups(m).push(empty).drop_last() =~= ups(m));
        }
        lemma_split_at_slash(body, dotdot());
        let next = body + seq!['/'] + dotdot();
        assert(split(next) == ups(m) + seq![dotdot()]);
        lemma_split_at_slash(next, empty);
        assert(lead(n) =~= next + seq!['/'] + empty);
        assert(ups(m) + seq![dotdot()] + seq![empty] =~= ups(n).push(empty));
    }
}

/// The start of a relative path ends in a slash.
pub proof fn lemma_lead_ends_in_slash(n: nat)
    ensures
        lead(n).len() > 0,
        lead(n).last() == '/',
    decreases n,
{
    if n >= 2 {
        lemma_lead_ends_in_slash((n - 1) as nat);
    }
}

/// To go up `n` times from a directory at least `n` deep is to drop its
/// last `n` names.
pub proof fn lemma_walk_ups(at: Seq<Seq<char>>, n: nat)
    requires
        n <= at.len(),
    ensures
        walk(at, ups(n)) == at.take(at.len() - n),
    decreases n,
{
    if n == 0 {
        assert(at.take(at.len() as int) =~= at);
    } else {
        let m = (n - 1) as nat;
        lemma_walk_ups(at, m);
        assert(ups(n).drop_last() =~= ups(m));
        assert(ups(n).last() == dotdot());
        assert(dotdot().len() == 2 && dot().len() == 1);
        assert(at.take(at.len() - m).drop_last() =~= at.take(at.len() - n));
    }
}

/// The relative path from a directory to a target leads, from that
/// directory, to the target: what a location handle hands out as the
/// path to require is resolved to the location of the handle.
pub proof fn law_relative_path_leads_back(from: Seq<Seq<char>>, target: Seq<Seq<char>>)
    requires
        canonical(from),
        canonical(target),
    ensures
        walk(from, split(relative_text(from, target))) == target,
{
    let empty = Seq::<char>::empty();
    let k = common_len(from, target);
    lemma_common_ancestor(from, target);
    let n = (from.len() - k) as nat;
    let rest = target.skip(k as int);
    assert forall|i: int| 0 <= i < rest.len() implies is_name(#[trigger] rest[i]) && slash_free(
        rest[i],
    ) by {
        assert(rest[i] == target[i + k]);
    }
    // the text is the start without its last slash, a slash, and the names
    lemma_lead_ends_in_slash(n);
    lemma_split_lead(n);
    let body = lead(n).drop_last();
    assert(lead(n) =~= body + seq!['/'] + empty);
    lemma_split_at_slash(body, empty);
    let head = if n == 0 {
        seq![dot()]
    } else {
        ups(n)
    };
    assert(split(body) =~= head) by {
        assert((split(body) + seq![empty]).drop_last() =~= split(body));
        assert(seq![dot(), empty].drop_last() =~= seq![dot()]);
        assert(ups(n).push(empty).drop_last() =~= ups(n));
        lemma_split_name(empty);
    }
    assert(relative_text(from, target) =~= body + seq!['/'] + render_rel(rest));
    lemma_split_at_slash(body, render_rel(rest));
    let tail = split(render_rel(rest));
    // the names lead down from where the start leads
    let top = from.take(k as int);
    if n == 0 {
        assert(seq![dot()].drop_last() =~= Seq::<Seq<char>>::empty());
        assert(seq![dot()].last() == dot());
        assert(walk(from, seq![dot()].drop_last()) == from);
        assert(walk(from, seq![dot()]) == from);
        assert(from.take(k as int) =~= from);
    } else {
        lemma_walk_ups(from, n);
    }
    assert(walk(from, head) == top);
    lemma_walk_concat(from, head, tail);
    if rest.len() == 0 {
        lemma_split_name(empty);
        assert(render_rel(rest) =~= empty);
        assert(tail == seq![empty]);
        assert(seq![empty].drop_last() =~= Seq::<Seq<char>>::empty());
        assert(seq![empty].last() == empty);
        assert(walk(top, seq![empty].drop_last()) == top);
        assert(walk(top, seq![empty]) == top);
        assert(top + rest =~= top);
    } else {
        assert(canonical(rest));
        lemma_split_names(rest);
        lemma_walk_names(top, rest);
    }
    assert(walk(top, tail) == top + rest);
    assert(top == target.take(k as int));
    assert(target.take(k as int) + target.skip(k as int) =~= target);
}

} // verus!
