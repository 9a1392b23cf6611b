//! The project tree: how a project file maps the names of children to
//! paths.
//!
//! A project file is a tree of objects. An object may declare its path
//! under the key `$path`; its other keys, those that do not start with
//! `$` and hold objects, are its children.

use crate::path::{
    child_of, copy_parts, has_prefix, is_prefix, join, join_text, render_abs, render_path,
    same_parts, same_text, texts,
};
use crate::snapshot::{first_index, lemma_first_index, lemma_first_index_is, Kind, Query, Snapshot};
use vstd::prelude::*;
use vstd::string::*;

verus! {

/// A value of a project file: a text, an object with its members in
/// order, or anything else (neither).
pub struct Node {
    pub text: Option<String>,
    pub members: Option<Vec<(String, Node)>>,
}

/// The keys of `members`, in order.
pub open spec fn member_keys(members: Seq<(String, Node)>) -> Seq<Seq<char>> {
    Seq::new(members.len(), |i: int| members[i].0@)
}

/// The member of the object `node` under `key`.
pub open spec fn member(node: Node, key: Seq<char>) -> Option<Node> {
    match node.members {
        Some(members) => match first_index(member_keys(members@), key) {
            Some(i) => Some(members@[i].1),
            None => None,
        },
        None => None,
    }
}

/// The path that the object `node` declares.
pub open spec fn declared_path(node: Node) -> Option<Seq<char>> {
    match member(node, "$path"@) {
        Some(value) => match value.text {
            Some(t) => Some(t@),
            None => None,
        },
        None => None,
    }
}

/// The child `name` of the object `node`: its member under that name,
/// where the name does not start with `$` and the member is an object.
pub open spec fn project_child(node: Node, name: Seq<char>) -> Option<Node> {
    if name.len() > 0 && name[0] == '$' {
        None
    } else {
        match member(node, name) {
            Some(value) => if value.members is Some {
                Some(value)
            } else {
                None
            },
            None => None,
        }
    }
}

/// The member `entry` is a child that declares the path which leads from
/// `root` to `target`.
pub open spec fn declares(
    entry: (String, Node),
    root: Seq<Seq<char>>,
    target: Seq<Seq<char>>,
) -> bool {
    &&& project_key(entry.0@)
    &&& entry.1.members is Some
    &&& declared_path(entry.1) matches Some(p) && join(root, p) == target
}

/// `key` can name a child: it does not start with `$`.
pub open spec fn project_key(key: Seq<char>) -> bool {
    !(key.len() > 0 && key[0] == '$')
}

/// The position of the first of `members` that declares the path from
/// `root` to `target`; `members.len()` where none does.
pub open spec fn declaring(
    members: Seq<(String, Node)>,
    root: Seq<Seq<char>>,
    target: Seq<Seq<char>>,
) -> int
    decreases members.len(),
{
    if members.len() == 0 {
        0
    } else {
        let before = declaring(members.drop_last(), root, target);
        if before < members.len() - 1 {
            before
        } else if declares(members.last(), root, target) {
            members.len() - 1
        } else {
            members.len() as int
        }
    }
}

/// One step down the tree from `node`, by the component `name`: to the
/// child of that name, else to the first child that declares the path of
/// `base` with that name behind it.
pub open spec fn descend(
    node: Node,
    root: Seq<Seq<char>>,
    base: Seq<Seq<char>>,
    name: Seq<char>,
) -> Option<Node> {
    match project_child(node, name) {
        Some(child) => Some(child),
        None => match node.members {
            Some(members) => {
                let i = declaring(members@, root, base.push(name));
                if i < members@.len() {
                    Some(members@[i].1)
                } else {
                    None
                }
            },
            None => None,
        },
    }
}

/// The node reached from `node` by the components `names`, in order.
pub open spec fn descend_all(
    node: Node,
    root: Seq<Seq<char>>,
    base: Seq<Seq<char>>,
    names: Seq<Seq<char>>,
) -> Option<Node>
    decreases names.len(),
{
    if names.len() == 0 {
        Some(node)
    } else {
        match descend_all(node, root, base, names.drop_last()) {
            Some(mid) => descend(mid, root, base, names.last()),
            None => None,
        }
    }
}

/// The path that the project tree `tree`, the project file of the
/// directory `root`, gives the child `name` of the directory `base`.
pub open spec fn mapped_child(
    tree: Node,
    root: Seq<Seq<char>>,
    base: Seq<Seq<char>>,
    name: Seq<char>,
) -> Option<Seq<Seq<char>>> {
    if !is_prefix(root, base) {
        None
    } else {
        match descend_all(tree, root, base, base.skip(root.len() as int)) {
            Some(node) => match project_child(node, name) {
                Some(child) => match declared_path(child) {
                    Some(p) => Some(join(root, p)),
                    None => None,
                },
                None => None,
            },
            None => None,
        }
    }
}

/// The nearest of `dir` and the directories above it that holds a
/// project file.
pub open spec fn project_home(snap: Snapshot, dir: Seq<Seq<char>>) -> Option<Seq<Seq<char>>>
    decreases dir.len(),
{
    if snap.is_present(render_abs(dir.push("default.project.json"@))) {
        Some(dir)
    } else if dir.len() == 0 {
        None
    } else {
        project_home(snap, dir.drop_last())
    }
}

/// The member of the object `node` under `key`.
pub fn get_member<'a>(node: &'a Node, key: &str) -> (r: Option<&'a Node>)
    ensures
        match r {
            Some(n) => member(*node, key@) == Some(*n),
            None => member(*node, key@) is None,
        },
{
    match &node.members {
        Some(members) => {
            let mut i: usize = 0;
            while i < members.len()
                invariant
                    i <= members@.len(),
                    node.members == Some(*members),
                    forall|j: int| 0 <= j < i ==> member_keys(members@)[j] != key@,
                decreases members@.len() - i,
            {
                if same_text(members[i].0.as_str(), key) {
                    proof {
                        lemma_first_index_is(member_keys(members@), key@, i as int);
                    }
                    return Some(&members[i].1);
                }
                i += 1;
            }
            proof {
                lemma_first_index(member_keys(members@), key@);
            }
            None
        },
        None => None,
    }
}

/// The path that the object `node` declares.
pub fn get_declared_path<'a>(node: &'a Node) -> (r: Option<&'a String>)
    ensures
        crate::resolver::opt_text(
            match r {
                Some(s) => Some(*s),
                None => None,
            },
        ) == declared_path(*node),
{
    match get_member(node, "$path") {
        Some(value) => match &value.text {
            Some(t) => Some(t),
            None => None,
        },
        None => None,
    }
}

/// The tree of a project file: its member `tree`.
pub fn project_tree<'a>(file: &'a Node) -> (r: Option<&'a Node>)
    ensures
        match r {
            Some(n) => member(*file, "tree"@) == Some(*n),
            None => member(*file, "tree"@) is None,
        },
{
    get_member(file, "tree")
}

/// Whether `key` can name a child.
pub fn is_project_key(key: &str) -> (r: bool)
    ensures
        r == project_key(key@),
{
    !(key.unicode_len() > 0 && key.get_char(0) == '$')
}

/// The child `name` of the object `node`.
pub fn get_child<'a>(node: &'a Node, name: &str) -> (r: Option<&'a Node>)
    ensures
        match r {
            Some(n) => project_child(*node, name@) == Some(*n),
            None => project_child(*node, name@) is None,
        },
{
    if !is_project_key(name) {
        return None;
    }
    match get_member(node, name) {
        Some(value) => if value.members.is_some() {
            Some(value)
        } else {
            None
        },
        None => None,
    }
}

/// One step down the tree.
fn step_down<'a>(node: &'a Node, root: &Vec<String>, base: &Vec<String>, name: &str) -> (r: Option<
    &'a Node,
>)
    ensures
        match r {
            Some(n) => descend(*node, texts(root@), texts(base@), name@) == Some(*n),
            None => descend(*node, texts(root@), texts(base@), name@) is None,
        },
{
    match get_child(node, name) {
        Some(child) => {
            return Some(child);
        },
        None => {},
    }
    match &node.members {
        Some(members) => {
            let target = child_of(base, name);
            let mut i: usize = 0;
            assert(members@.take(0) =~= Seq::empty());
            while i < members.len()
                invariant
                    i <= members@.len(),
                    node.members == Some(*members),
                    project_child(*node, name@) is None,
                    texts(target@) == texts(base@).push(name@),
                    declaring(members@.take(i as int), texts(root@), texts(target@)) == i,
                decreases members@.len() - i,
            {
                proof {
                    let t = members@.take(i as int + 1);
                    assert(t.drop_last() =~= members@.take(i as int));
                    assert(t.last() == members@[i as int]);
                }
                let hit = is_project_key(members[i].0.as_str()) && members[i].1.members.is_some()
                    && match get_declared_path(&members[i].1) {
                    Some(p) => same_parts(&join_text(root, p.as_str()), &target),
                    None => false,
                };
                if hit {
                    proof {
                        lemma_declaring_stays(
                            members@,
                            texts(root@),
                            texts(target@),
                            i as int + 1,
                        );
                    }
                    return Some(&members[i].1);
                }
                i += 1;
            }
            assert(members@.take(i as int) =~= members@);
            None
        },
        None => None,
    }
}

/// A member that declares the path among the first `k` is the one among all.
proof fn lemma_declaring_stays(
    members: Seq<(String, Node)>,
    root: Seq<Seq<char>>,
    target: Seq<Seq<char>>,
    k: int,
)
    requires
        0 <= k <= members.len(),
        declaring(members.take(k), root, target) < k,
    ensures
        declaring(members, root, target) == declaring(members.take(k), root, target),
    decreases members.len() - k,
{
    if k < members.len() {
        let t = members.take(k + 1);
        assert(t.drop_last() =~= members.take(k));
        lemma_declaring_stays(members, root, target, k + 1);
    } else {
        assert(members.take(k) =~= members);
    }
}

/// The path that the project tree gives the child `name` of the
/// directory `base`.
pub fn resolve_through_project(tree: &Node, root: &Vec<String>, base: &Vec<String>, name: &str) -> (r:
    Option<Vec<String>>)
    ensures
        match r {
            Some(p) => mapped_child(*tree, texts(root@), texts(base@), name@) == Some(texts(p@)),
            None => mapped_child(*tree, texts(root@), texts(base@), name@) is None,
        },
{
    if !has_prefix(base, root) {
        return None;
    }
    let mut node: &Node = tree;
    let mut i: usize = root.len();
    let ghost names = texts(base@).skip(root@.len() as int);
    assert(names.take(0) =~= Seq::empty());
    while i < base.len()
        invariant
            root@.len() <= i <= base@.len(),
            names == texts(base@).skip(root@.len() as int),
            descend_all(*tree, texts(root@), texts(base@), names.take(i - root@.len())) == Some(
                *node,
            ),
        decreases base@.len() - i,
    {
        proof {
            let t = names.take(i - root@.len() + 1);
            assert(t.drop_last() =~= names.take(i - root@.len()));
            assert(t.last() == base@[i as int]@);
        }
        match step_down(node, root, base, base[i].as_str()) {
            Some(next) => {
                node = next;
            },
            None => {
                proof {
                    lemma_descend_fails(
                        *tree,
                        texts(root@),
                        texts(base@),
                        names,
                        i - root@.len() + 1,
                    );
                }
                return None;
            },
        }
        i += 1;
    }
    assert(names.take(i - root@.len()) =~= names);
    match get_child(node, name) {
        Some(child) => match get_declared_path(child) {
            Some(p) => Some(join_text(root, p.as_str())),
            None => None,
        },
        None => None,
    }
}

/// Where the first `k` components lead nowhere, all of them do.
proof fn lemma_descend_fails(
    tree: Node,
    root: Seq<Seq<char>>,
    base: Seq<Seq<char>>,
    names: Seq<Seq<char>>,
    k: int,
)
    requires
        0 <= k <= names.len(),
        descend_all(tree, root, base, names.take(k)) is None,
    ensures
        descend_all(tree, root, base, names) is None,
    decreases names.len() - k,
{
    if k < names.len() {
        let t = names.take(k + 1);
        assert(t.drop_last() =~= names.take(k));
        lemma_descend_fails(tree, root, base, names, k + 1);
    } else {
        assert(names.take(k) =~= names);
    }
}

/// Finds the nearest directory, from `dir` upward, that holds a project file.
pub fn find_project_home(snap: &Snapshot, dir: &Vec<String>) -> (r: Result<Option<Vec<String>>, Query>)
    ensures
        match r {
            Ok(Some(home)) => project_home(*snap, texts(dir@)) == Some(texts(home@)),
            Ok(None) => project_home(*snap, texts(dir@)) is None,
            Err(q) => !snap.answers(q) && crate::resolver::asks_named_above(
                q,
                texts(dir@),
                "default.project.json"@,
            ),
        },
{
    let mut cur = copy_parts(dir);
    let ghost mut depth: int = dir@.len() as int;
    assert(texts(dir@).take(depth) =~= texts(dir@));
    loop
        invariant
            0 <= depth <= dir@.len(),
            texts(cur@) == texts(dir@).take(depth),
            project_home(*snap, texts(dir@)) == project_home(*snap, texts(cur@)),
        decreases cur@.len(),
    {
        let file = child_of(&cur, "default.project.json");
        let text = render_path(&file);
        match snap.probe(text.as_str()) {
            Some(kind) => {
                if kind != Kind::Absent {
                    return Ok(Some(cur));
                }
            },
            None => {
                return Err(Query::Entry(text));
            },
        }
        if cur.len() == 0 {
            return Ok(None);
        }
        let ghost before = texts(cur@);
        cur.pop();
        assert(texts(cur@) =~= before.drop_last());
        proof {
            depth = depth - 1;
            assert(texts(dir@).take(depth) =~= before.drop_last());
        }
    }
}

} // verus!
