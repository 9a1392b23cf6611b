//! Slash-separated paths as sequences of components.
//!
//! A path is modelled by the list of names that lead from the filesystem
//! root to it. Text is turned into raw components by [`split`], a list of
//! raw components is followed from a starting directory by [`walk`], and a
//! list of names is written back as text by [`render`].

use vstd::prelude::*;
use vstd::string::*;

verus! {

/// The text of every component of `parts`.
pub open spec fn texts(parts: Seq<String>) -> Seq<Seq<char>> {
    Seq::new(parts.len(), |i: int| parts[i]@)
}

/// The raw components of `s`: the pieces between its slashes, empty pieces
/// included. The text without any slash is one component.
pub open spec fn split(s: Seq<char>) -> Seq<Seq<char>>
    decreases s.len(),
{
    if s.len() == 0 {
        seq![Seq::<char>::empty()]
    } else {
        let init = split(s.drop_last());
        if s.last() == '/' {
            init.push(Seq::<char>::empty())
        } else {
            init.drop_last().push(init.last().push(s.last()))
        }
    }
}

/// The component `.`, which stays in the directory.
pub open spec fn dot() -> Seq<char> {
    seq!['.']
}

/// The component `..`, which goes to the parent directory.
pub open spec fn dotdot() -> Seq<char> {
    seq!['.', '.']
}

/// A component that names a child: not empty, not `.`, not `..`.
pub open spec fn is_name(c: Seq<char>) -> bool {
    c.len() > 0 && c != dot() && c != dotdot()
}

/// A component that holds no slash.
pub open spec fn slash_free(c: Seq<char>) -> bool {
    forall|i: int| 0 <= i < c.len() ==> c[i] != '/'
}

/// A list of names only, none of which holds a slash: the form in which
/// a location is written in exactly one way.
pub open spec fn canonical(parts: Seq<Seq<char>>) -> bool {
    forall|i: int| 0 <= i < parts.len() ==> is_name(#[trigger] parts[i]) && slash_free(parts[i])
}

/// One step from the directory `at`: an empty component and `.` stay, `..`
/// goes to the parent (the root is its own parent), a name goes to the child.
pub open spec fn step(at: Seq<Seq<char>>, c: Seq<char>) -> Seq<Seq<char>> {
    if c.len() == 0 || c == dot() {
        at
    } else if c == dotdot() {
        if at.len() > 0 {
            at.drop_last()
        } else {
            at
        }
    } else {
        at.push(c)
    }
}

/// The location reached from the directory `at` by following `parts` in order.
pub open spec fn walk(at: Seq<Seq<char>>, parts: Seq<Seq<char>>) -> Seq<Seq<char>>
    decreases parts.len(),
{
    if parts.len() == 0 {
        at
    } else {
        step(walk(at, parts.drop_last()), parts.last())
    }
}

/// The canonical components of an absolute path given as text.
pub open spec fn parse(s: Seq<char>) -> Seq<Seq<char>> {
    walk(Seq::empty(), split(s))
}

/// Every component of `parts` behind a slash each, in order. Nothing for
/// the empty list.
pub open spec fn render(parts: Seq<Seq<char>>) -> Seq<char>
    decreases parts.len(),
{
    if parts.len() == 0 {
        Seq::empty()
    } else {
        render(parts.drop_last()) + seq!['/'] + parts.last()
    }
}

/// The text of an absolute path: `/` for the root, else [`render`].
pub open spec fn render_abs(parts: Seq<Seq<char>>) -> Seq<char> {
    if parts.len() == 0 {
        seq!['/']
    } else {
        render(parts)
    }
}

/// `prefix` leads to `parts`: `parts` lies at or under the directory `prefix`.
pub open spec fn is_prefix(prefix: Seq<Seq<char>>, parts: Seq<Seq<char>>) -> bool {
    prefix.len() <= parts.len() && parts.take(prefix.len() as int) == prefix
}

/// The number of leading components that `a` and `b` share.
pub open spec fn common_len(a: Seq<Seq<char>>, b: Seq<Seq<char>>) -> nat
    decreases a.len(),
{
    if a.len() == 0 || b.len() == 0 || a[0] != b[0] {
        0
    } else {
        1 + common_len(a.drop_first(), b.drop_first())
    }
}

/// The deepest directory that leads to both `a` and `b`.
pub open spec fn common_ancestor(a: Seq<Seq<char>>, b: Seq<Seq<char>>) -> Seq<Seq<char>> {
    a.take(common_len(a, b) as int)
}

/// The directory that holds `parts`; the root holds itself.
pub open spec fn parent(parts: Seq<Seq<char>>) -> Seq<Seq<char>> {
    if parts.len() == 0 {
        parts
    } else {
        parts.drop_last()
    }
}

/// The names of `parts` with a slash between each two.
pub open spec fn render_rel(parts: Seq<Seq<char>>) -> Seq<char>
    decreases parts.len(),
{
    if parts.len() == 0 {
        Seq::empty()
    } else if parts.len() == 1 {
        parts[0]
    } else {
        render_rel(parts.drop_last()) + seq!['/'] + parts.last()
    }
}

/// The start of a relative path that leaves `n` directories: `./` for
/// none, else `../` once for each.
pub open spec fn lead(n: nat) -> Seq<char>
    decreases n,
{
    if n == 0 {
        seq!['.', '/']
    } else if n == 1 {
        seq!['.', '.', '/']
    } else {
        lead((n - 1) as nat) + seq!['.', '.', '/']
    }
}

/// The relative path, as text, that leads from the directory `from` to
/// `target`: it leaves the directories of `from` that do not lead to
/// `target`, then names what is left of `target`.
pub open spec fn relative_text(from: Seq<Seq<char>>, target: Seq<Seq<char>>) -> Seq<char> {
    let k = common_len(from, target);
    lead((from.len() - k) as nat) + render_rel(target.skip(k as int))
}

/// The directory reached from `at` by the path `text`: a text that starts
/// with a slash is followed from the root, any other from `at`.
pub open spec fn join(at: Seq<Seq<char>>, text: Seq<char>) -> Seq<Seq<char>> {
    if text.len() > 0 && text[0] == '/' {
        walk(Seq::empty(), split(text))
    } else {
        walk(at, split(text))
    }
}

/// `parts` with a dot and `ext` added to the end of its last name.
pub open spec fn with_ext(parts: Seq<Seq<char>>, ext: Seq<char>) -> Seq<Seq<char>>
    recommends
        parts.len() > 0,
{
    parts.drop_last().push(parts.last() + seq!['.'] + ext)
}

/// `s` begins with `prefix`.
pub open spec fn begins_with(s: Seq<char>, prefix: Seq<char>) -> bool {
    prefix.len() <= s.len() && s.take(prefix.len() as int) == prefix
}

/// Whether `s` begins with `prefix`.
pub fn starts_with(s: &str, prefix: &str) -> (r: bool)
    ensures
        r == begins_with(s@, prefix@),
{
    let n = s.unicode_len();
    let m = prefix.unicode_len();
    if m > n {
        return false;
    }
    let mut i: usize = 0;
    while i < m
        invariant
            i <= m <= n,
            n == s@.len(),
            m == prefix@.len(),
            forall|j: int| 0 <= j < i ==> s@[j] == prefix@[j],
        decreases m - i,
    {
        if s.get_char(i) != prefix.get_char(i) {
            assert(s@.take(m as int)[i as int] != prefix@[i as int]);
            return false;
        }
        i += 1;
    }
    assert(s@.take(m as int) =~= prefix@);
    true
}

/// Whether two texts are the same.
pub fn same_text(a: &str, b: &str) -> (r: bool)
    ensures
        r == (a@ == b@),
{
    let r = a.unicode_len() == b.unicode_len() && starts_with(a, b);
    proof {
        if a@.len() == b@.len() {
            assert(a@.take(b@.len() as int) =~= a@);
        }
    }
    r
}

/// The directory that holds `parts`.
pub fn parent_of(parts: &Vec<String>) -> (r: Vec<String>)
    ensures
        texts(r@) == parent(texts(parts@)),
{
    let mut out = copy_parts(parts);
    if out.len() > 0 {
        let ghost before = texts(out@);
        out.pop();
        assert(texts(out@) =~= before.drop_last());
    }
    out
}

/// Whether `parts` lies at or under the directory `prefix`.
pub fn has_prefix(parts: &Vec<String>, prefix: &Vec<String>) -> (r: bool)
    ensures
        r == is_prefix(texts(prefix@), texts(parts@)),
{
    if prefix.len() > parts.len() {
        return false;
    }
    let mut i: usize = 0;
    while i < prefix.len()
        invariant
            i <= prefix.len() <= parts.len(),
            forall|j: int| 0 <= j < i ==> parts[j]@ == prefix[j]@,
        decreases prefix.len() - i,
    {
        if parts[i] != prefix[i] {
            assert(texts(parts@).take(prefix.len() as int)[i as int] != texts(prefix@)[i as int]);
            return false;
        }
        i += 1;
    }
    assert(texts(parts@).take(prefix.len() as int) =~= texts(prefix@));
    true
}

/// The number of leading components that `a` and `b` share.
pub fn shared_len(a: &Vec<String>, b: &Vec<String>) -> (k: usize)
    ensures
        k == common_len(texts(a@), texts(b@)),
        k <= a.len(),
        k <= b.len(),
{
    let mut i: usize = 0;
    assert(texts(a@).skip(0) =~= texts(a@));
    assert(texts(b@).skip(0) =~= texts(b@));
    while i < a.len() && i < b.len() && a[i] == b[i]
        invariant
            i <= a.len(),
            i <= b.len(),
            common_len(texts(a@), texts(b@)) == i + common_len(
                texts(a@).skip(i as int),
                texts(b@).skip(i as int),
            ),
        decreases a.len() - i,
    {
        proof {
            let x = texts(a@).skip(i as int);
            let y = texts(b@).skip(i as int);
            assert(x[0] == y[0]);
            assert(x.drop_first() =~= texts(a@).skip(i + 1));
            assert(y.drop_first() =~= texts(b@).skip(i + 1));
        }
        i += 1;
    }
    proof {
        let x = texts(a@).skip(i as int);
        let y = texts(b@).skip(i as int);
        if i < a.len() && i < b.len() {
            assert(x[0] == a[i as int]@ && y[0] == b[i as int]@);
        }
        assert(common_len(x, y) == 0);
    }
    i
}

/// The first `k` components of `parts`.
pub fn head_of(parts: &Vec<String>, k: usize) -> (r: Vec<String>)
    requires
        k <= parts.len(),
    ensures
        texts(r@) == texts(parts@).take(k as int),
{
    let mut out: Vec<String> = Vec::new();
    let mut i: usize = 0;
    while i < k
        invariant
            i <= k <= parts.len(),
            texts(out@) == texts(parts@).take(i as int),
        decreases k - i,
    {
        let ghost before = texts(out@);
        out.push(parts[i].clone());
        i += 1;
        assert(texts(out@) =~= before.push(parts[i - 1]@));
        assert(texts(parts@).take(i as int) =~= texts(parts@).take(i - 1).push(parts[i - 1]@));
    }
    out
}

/// The components of `parts` from the `k`-th on.
pub fn tail_of(parts: &Vec<String>, k: usize) -> (r: Vec<String>)
    requires
        k <= parts.len(),
    ensures
        texts(r@) == texts(parts@).skip(k as int),
{
    let mut out: Vec<String> = Vec::new();
    let mut i: usize = k;
    while i < parts.len()
        invariant
            k <= i <= parts.len(),
            texts(out@) == texts(parts@).subrange(k as int, i as int),
        decreases parts.len() - i,
    {
        let ghost before = texts(out@);
        out.push(parts[i].clone());
        i += 1;
        assert(texts(out@) =~= before.push(parts[i - 1]@));
        assert(texts(parts@).subrange(k as int, i as int) =~= texts(parts@).subrange(
            k as int,
            i - 1,
        ).push(parts[i - 1]@));
    }
    assert(texts(parts@).subrange(k as int, i as int) =~= texts(parts@).skip(k as int));
    out
}

/// The deepest directory that leads to both `a` and `b`.
pub fn common_ancestor_of(a: &Vec<String>, b: &Vec<String>) -> (r: Vec<String>)
    ensures
        texts(r@) == common_ancestor(texts(a@), texts(b@)),
{
    let k = shared_len(a, b);
    head_of(a, k)
}

/// The directory reached from `at` by the path `text`.
pub fn join_text(at: &Vec<String>, text: &str) -> (r: Vec<String>)
    ensures
        texts(r@) == join(texts(at@), text@),
{
    let raw = split_text(text);
    if text.unicode_len() > 0 && text.get_char(0) == '/' {
        assert(texts(Seq::<String>::empty()) =~= Seq::empty());
        walk_from(Vec::new(), &raw)
    } else {
        walk_from(copy_parts(at), &raw)
    }
}

/// `parts` with a dot and `ext` added to the end of its last name.
pub fn append_ext(parts: &Vec<String>, ext: &str) -> (r: Vec<String>)
    requires
        parts.len() > 0,
    ensures
        texts(r@) == with_ext(texts(parts@), ext@),
{
    let mut out = copy_parts(parts);
    let ghost before = texts(out@);
    let last = out.pop().unwrap();
    assert(texts(out@) =~= before.drop_last());
    let ghost init = texts(out@);
    proof {
        reveal_strlit(".");
        assert("."@ =~= seq!['.']);
    }
    let mut name = last;
    name.append(".");
    name.append(ext);
    out.push(name);
    assert(texts(out@) =~= init.push(before.last() + seq!['.'] + ext@));
    out
}

/// `parts` with one more name at its end.
pub fn child_of(parts: &Vec<String>, name: &str) -> (r: Vec<String>)
    ensures
        texts(r@) == texts(parts@).push(name@),
{
    let mut out = copy_parts(parts);
    let ghost before = texts(out@);
    out.push(String::from_str(name));
    assert(texts(out@) =~= before.push(name@));
    out
}

/// Writes the names of `parts` with a slash between each two.
pub fn render_names(parts: &Vec<String>) -> (r: String)
    ensures
        r@ == render_rel(texts(parts@)),
{
    let mut out = String::new();
    let mut i: usize = 0;
    assert(texts(parts@).take(0) =~= Seq::empty());
    while i < parts.len()
        invariant
            i <= parts.len(),
            out@ == render_rel(texts(parts@).take(i as int)),
        decreases parts.len() - i,
    {
        proof {
            reveal_strlit("/");
            let t = texts(parts@).take(i as int + 1);
            assert(t.drop_last() =~= texts(parts@).take(i as int));
            assert(t.last() == parts[i as int]@);
            assert("/"@ =~= seq!['/']);
        }
        if i > 0 {
            out.append("/");
        }
        out.append(parts[i].as_str());
        i += 1;
    }
    assert(texts(parts@).take(i as int) =~= texts(parts@));
    out
}

/// The relative path, as text, from the directory `from` to `target`.
pub fn relative_path(from: &Vec<String>, target: &Vec<String>) -> (r: String)
    ensures
        r@ == relative_text(texts(from@), texts(target@)),
{
    let k = shared_len(from, target);
    let n = from.len() - k;
    let mut out = String::new();
    proof {
        reveal_strlit("./");
        reveal_strlit("../");
        assert("./"@ =~= seq!['.', '/']);
        assert("../"@ =~= seq!['.', '.', '/']);
    }
    if n == 0 {
        out.append("./");
    } else {
        out.append("../");
        let mut i: usize = 1;
        while i < n
            invariant
                1 <= i <= n,
                out@ == lead(i as nat),
                "../"@ == seq!['.', '.', '/'],
            decreases n - i,
        {
            out.append("../");
            i += 1;
        }
    }
    let rest = tail_of(target, k);
    let names = render_names(&rest);
    out.append(names.as_str());
    out
}

/// Whether the component is `.`.
pub fn is_dot(c: &str) -> (r: bool)
    ensures
        r == (c@ == dot()),
{
    let n = c.unicode_len();
    if n == 1 {
        let r = c.get_char(0) == '.';
        assert(r == (c@ =~= dot()));
        r
    } else {
        false
    }
}

/// Whether the component is `..`.
pub fn is_dotdot(c: &str) -> (r: bool)
    ensures
        r == (c@ == dotdot()),
{
    let n = c.unicode_len();
    if n == 2 {
        let r = c.get_char(0) == '.' && c.get_char(1) == '.';
        assert(r == (c@ =~= dotdot()));
        r
    } else {
        false
    }
}

/// Copies a list of components.
pub fn copy_parts(parts: &Vec<String>) -> (r: Vec<String>)
    ensures
        texts(r@) == texts(parts@),
{
    let mut out: Vec<String> = Vec::new();
    let mut i: usize = 0;
    while i < parts.len()
        invariant
            i <= parts.len(),
            texts(out@) == texts(parts@.take(i as int)),
        decreases parts.len() - i,
    {
        let ghost before = texts(out@);
        out.push(parts[i].clone());
        i += 1;
        assert(texts(out@) =~= before.push(parts[i - 1]@));
        assert(texts(parts@.take(i as int)) =~= texts(parts@.take(i - 1)).push(parts[i - 1]@));
    }
    assert(parts@.take(i as int) == parts@);
    out
}

/// Whether two lists of components hold the same text.
pub fn same_parts(a: &Vec<String>, b: &Vec<String>) -> (r: bool)
    ensures
        r == (texts(a@) == texts(b@)),
{
    if a.len() != b.len() {
        assert(texts(a@).len() != texts(b@).len());
        return false;
    }
    let mut i: usize = 0;
    while i < a.len()
        invariant
            i <= a.len(),
            a.len() == b.len(),
            forall|j: int| 0 <= j < i ==> a[j]@ == b[j]@,
        decreases a.len() - i,
    {
        if a[i] != b[i] {
            assert(texts(a@)[i as int] != texts(b@)[i as int]);
            return false;
        }
        i += 1;
    }
    assert(texts(a@) =~= texts(b@));
    true
}

/// Splits text at its slashes.
pub fn split_text(s: &str) -> (r: Vec<String>)
    ensures
        texts(r@) == split(s@),
{
    let n = s.unicode_len();
    let mut out: Vec<String> = Vec::new();
    let mut start: usize = 0;
    let mut i: usize = 0;
    assert(s@.take(0) =~= Seq::<char>::empty());
    assert(texts(out@).push(s@.subrange(0, 0)) =~= split(s@.take(0)));
    while i < n
        invariant
            n == s@.len(),
            start <= i <= n,
            texts(out@).push(s@.subrange(start as int, i as int)) == split(s@.take(i as int)),
        decreases n - i,
    {
        let c = s.get_char(i);
        proof {
            let t = s@.take(i as int + 1);
            assert(t.drop_last() =~= s@.take(i as int));
            assert(t.last() == c);
        }
        if c == '/' {
            let ghost init = texts(out@).push(s@.subrange(start as int, i as int));
            let ghost done = texts(out@);
            let piece = s.substring_char(start, i);
            out.push(String::from_str(piece));
            assert(texts(out@) =~= done.push(piece@));
            start = i + 1;
            i += 1;
            assert(s@.subrange(start as int, i as int) =~= Seq::<char>::empty());
            assert(split(s@.take(i as int)) == init.push(Seq::<char>::empty()));
        } else {
            let ghost before = texts(out@).push(s@.subrange(start as int, i as int));
            i += 1;
            assert(s@.subrange(start as int, i as int) =~= before.last().push(c));
            assert(texts(out@).push(s@.subrange(start as int, i as int)) =~= before.drop_last().push(
                before.last().push(c),
            ));
        }
    }
    let ghost done = texts(out@);
    let piece = s.substring_char(start, n);
    out.push(String::from_str(piece));
    assert(s@.take(n as int) =~= s@);
    assert(texts(out@) =~= done.push(piece@));
    out
}

/// Follows `parts` from the directory `at`.
pub fn walk_from(at: Vec<String>, parts: &Vec<String>) -> (r: Vec<String>)
    ensures
        texts(r@) == walk(texts(at@), texts(parts@)),
{
    let mut cur = at;
    let mut i: usize = 0;
    assert(texts(parts@).take(0) =~= Seq::empty());
    while i < parts.len()
        invariant
            i <= parts.len(),
            texts(cur@) == walk(texts(at@), texts(parts@).take(i as int)),
        decreases parts.len() - i,
    {
        let ghost before = texts(cur@);
        proof {
            let t = texts(parts@).take(i as int + 1);
            assert(t.drop_last() =~= texts(parts@).take(i as int));
            assert(t.last() == parts[i as int]@);
        }
        let c = parts[i].as_str();
        if c.unicode_len() == 0 || is_dot(c) {
            assert(c@.len() == 0 || c@ == dot());
        } else if is_dotdot(c) {
            if cur.len() > 0 {
                cur.pop();
                assert(texts(cur@) =~= before.drop_last());
            }
        } else {
            cur.push(parts[i].clone());
            assert(texts(cur@) =~= before.push(c@));
        }
        i += 1;
    }
    assert(texts(parts@).take(i as int) =~= texts(parts@));
    cur
}

/// The canonical components of an absolute path given as text.
pub fn parse_path(s: &str) -> (r: Vec<String>)
    ensures
        texts(r@) == parse(s@),
{
    let raw = split_text(s);
    let r = walk_from(Vec::new(), &raw);
    assert(texts(Seq::<String>::empty()) =~= Seq::empty());
    r
}

/// Writes every component behind a slash.
pub fn render_parts(parts: &Vec<String>) -> (r: String)
    ensures
        r@ == render(texts(parts@)),
{
    let mut out = String::new();
    let mut i: usize = 0;
    assert(texts(parts@).take(0) =~= Seq::empty());
    while i < parts.len()
        invariant
            i <= parts.len(),
            out@ == render(texts(parts@).take(i as int)),
        decreases parts.len() - i,
    {
        proof {
            reveal_strlit("/");
            let t = texts(parts@).take(i as int + 1);
            assert(t.drop_last() =~= texts(parts@).take(i as int));
            assert(t.last() == parts[i as int]@);
            assert("/"@ =~= seq!['/']);
        }
        out.append("/");
        out.append(parts[i].as_str());
        i += 1;
    }
    assert(texts(parts@).take(i as int) =~= texts(parts@));
    out
}

/// Writes an absolute path: `/` for the root.
pub fn render_path(parts: &Vec<String>) -> (r: String)
    ensures
        r@ == render_abs(texts(parts@)),
{
    if parts.len() == 0 {
        proof {
            reveal_strlit("/");
            assert("/"@ =~= seq!['/']);
        }
        String::from_str("/")
    } else {
        render_parts(parts)
    }
}

} // verus!
