//! A file system held in memory: a tree of directories and files that are
//! reached by path.
//!
//! A path is a run of names with `/` between them; empty names are passed
//! over, so `/a//b/` is the path of `b` in `a` in the root. Where several
//! children of a directory bear one name, a path reaches the first of them.

use vstd::prelude::*;
use vstd::string::{StrSliceExecFns, StringExecFns, StringSliceAdditionalSpecFns};
use crate::dna::{find_from, occurs_at};
use std::time::SystemTime;

verus! {

#[verifier::external_type_specification]
#[verifier::external_body]
pub struct ExSystemTime(SystemTime);

/// `SystemTime::now` reads the system clock. Nothing is claimed of the time
/// it gives.
pub assume_specification[ SystemTime::now ]() -> (time: SystemTime);

/// A file: a name, the time of its last change and its content.
pub struct File {
    pub name: String,
    pub modified: SystemTime,
    pub content: Vec<u8>,
}

/// A directory: a name, the time of its last change and what it holds.
pub struct Dir {
    pub name: String,
    pub modified: SystemTime,
    pub children: Vec<Node>,
}

/// What a directory can hold.
pub enum Node {
    File(File),
    Dir(Dir),
}

/// Why an operation on the file system failed.
#[derive(Debug, PartialEq, Eq, Structural, Clone, Copy)]
pub enum FSError {
    /// No file or directory has this path.
    NotFound,
    /// The path leads through a file, or into one where a directory is
    /// needed.
    NotADir,
    /// The directory holds a child of this name already.
    Duplicate,
    /// A directory that holds something cannot be removed.
    DirNotEmpty,
    /// Something else went wrong.
    GenericError,
}

/// A node found by a query.
pub struct MatchResult {
    /// The query that the node meets.
    pub query: String,
    /// The path of the node.
    pub path: String,
    /// The name of the node.
    pub name: String,
}

/// A file system: the tree below its root directory.
pub struct Filesystem {
    pub root: Node,
}

/// A tree of files and directories as mathematics.
pub enum Tree {
    File { name: Seq<char>, modified: SystemTime, content: Seq<u8> },
    Dir { name: Seq<char>, modified: SystemTime, children: Seq<Tree> },
}

impl Tree {
    /// The name of the node at the top.
    pub open spec fn name(self) -> Seq<char> {
        match self {
            Tree::File { name, .. } => name,
            Tree::Dir { name, .. } => name,
        }
    }

    /// What the node at the top holds; a file holds nothing.
    pub open spec fn children(self) -> Seq<Tree> {
        match self {
            Tree::File { .. } => Seq::empty(),
            Tree::Dir { children, .. } => children,
        }
    }

    /// The same tree with other children at the top; a file stays as it
    /// is.
    pub open spec fn with_children(self, children: Seq<Tree>) -> Tree {
        match self {
            Tree::File { .. } => self,
            Tree::Dir { name, modified, .. } => Tree::Dir { name, modified, children },
        }
    }

    /// The same tree with another time of last change at the top.
    pub open spec fn with_stamp(self, stamp: SystemTime) -> Tree {
        match self {
            Tree::File { name, content, .. } => Tree::File { name, modified: stamp, content },
            Tree::Dir { name, children, .. } => Tree::Dir { name, modified: stamp, children },
        }
    }
}

/// The tree below `node`, as mathematics.
pub open spec fn tree_of(node: Node) -> Tree
    decreases node,
{
    match node {
        Node::File(file) => Tree::File {
            name: file.name@,
            modified: file.modified,
            content: file.content@,
        },
        Node::Dir(dir) => Tree::Dir {
            name: dir.name@,
            modified: dir.modified,
            children: trees_of(dir.children@),
        },
    }
}

/// The trees below `nodes`, one by one.
pub open spec fn trees_of(nodes: Seq<Node>) -> Seq<Tree>
    decreases nodes,
{
    if nodes.len() == 0 {
        Seq::empty()
    } else {
        trees_of(nodes.drop_last()).push(tree_of(nodes.last()))
    }
}

/// There is one tree for each node, in the same place.
pub proof fn lemma_trees_of(nodes: Seq<Node>)
    ensures
        trees_of(nodes).len() == nodes.len(),
        forall|i: int| 0 <= i < nodes.len() ==> trees_of(nodes)[i] == tree_of(#[trigger] nodes[i]),
    decreases nodes.len(),
{
    if nodes.len() > 0 {
        lemma_trees_of(nodes.drop_last());
        assert forall|i: int| 0 <= i < nodes.len() implies trees_of(nodes)[i] == tree_of(
            #[trigger] nodes[i],
        ) by {
            if i < nodes.len() - 1 {
                assert(nodes.drop_last()[i] == nodes[i]);
            }
        }
    }
}

impl View for Node {
    type V = Tree;

    open spec fn view(&self) -> Tree {
        tree_of(*self)
    }
}

impl View for Dir {
    type V = Tree;

    open spec fn view(&self) -> Tree {
        Node::Dir(*self)@
    }
}

impl View for File {
    type V = Tree;

    open spec fn view(&self) -> Tree {
        Node::File(*self)@
    }
}

impl View for Filesystem {
    type V = Tree;

    open spec fn view(&self) -> Tree {
        self.root@
    }
}

/// What reading the first `k` characters of a path has made of it: the
/// names that are complete, and the name that is being read.
pub open spec fn scanned(path: Seq<char>, k: int) -> (Seq<Seq<char>>, Seq<char>)
    decreases k,
{
    if k <= 0 {
        (Seq::empty(), Seq::empty())
    } else {
        let (done, current) = scanned(path, k - 1);
        if path[k - 1] == '/' {
            if current.len() > 0 {
                (done.push(current), Seq::empty())
            } else {
                (done, current)
            }
        } else {
            (done, current.push(path[k - 1]))
        }
    }
}

/// The names that `path` is made of: what stands between its `/`, without
/// the empty stretches.
pub open spec fn parts(path: Seq<char>) -> Seq<Seq<char>> {
    let (done, current) = scanned(path, path.len() as int);
    if current.len() > 0 {
        done.push(current)
    } else {
        done
    }
}

/// The place of the first of `children` that bears `name`.
pub open spec fn first_named(children: Seq<Tree>, name: Seq<char>) -> Option<int>
    decreases children.len(),
{
    if children.len() == 0 {
        None
    } else if children[0].name() == name {
        Some(0)
    } else {
        match first_named(children.drop_first(), name) {
            Some(i) => Some(i + 1),
            None => None,
        }
    }
}

/// The node that the names of `path` lead to from the top of `tree`.
pub open spec fn resolve(tree: Tree, path: Seq<Seq<char>>) -> Result<Tree, FSError>
    decreases path.len(),
{
    if path.len() == 0 {
        Ok(tree)
    } else {
        match tree {
            Tree::File { .. } => Err(FSError::NotADir),
            Tree::Dir { children, .. } => match first_named(children, path[0]) {
                Some(i) => resolve(children[i], path.drop_first()),
                None => Err(FSError::NotFound),
            },
        }
    }
}

/// `tree` with `new` in the place of the node that the names of `path` lead
/// to; `tree` as it is where they lead nowhere.
pub open spec fn replace_at(tree: Tree, path: Seq<Seq<char>>, new: Tree) -> Tree
    decreases path.len(),
{
    if path.len() == 0 {
        new
    } else {
        match tree {
            Tree::File { .. } => tree,
            Tree::Dir { name, modified, children } => match first_named(children, path[0]) {
                Some(i) => Tree::Dir {
                    name,
                    modified,
                    children: children.update(
                        i,
                        replace_at(children[i], path.drop_first(), new),
                    ),
                },
                None => tree,
            },
        }
    }
}

/// The first of `children` that bears `name` has no bearer of it before it.
pub proof fn lemma_first_named(children: Seq<Tree>, name: Seq<char>, i: int)
    requires
        0 <= i < children.len(),
        children[i].name() == name,
        forall|k: int| 0 <= k < i ==> (#[trigger] children[k]).name() != name,
    ensures
        first_named(children, name) == Some(i),
    decreases i,
{
    if i > 0 {
        let rest = children.drop_first();
        assert forall|k: int| 0 <= k < i - 1 implies (#[trigger] rest[k]).name() != name by {
            assert(rest[k] == children[k + 1]);
        }
        lemma_first_named(rest, name, i - 1);
    }
}

/// Where none of `children` bears `name`, there is no first bearer.
pub proof fn lemma_none_named(children: Seq<Tree>, name: Seq<char>)
    requires
        forall|k: int| 0 <= k < children.len() ==> (#[trigger] children[k]).name() != name,
    ensures
        first_named(children, name) is None,
    decreases children.len(),
{
    if children.len() > 0 {
        let rest = children.drop_first();
        assert forall|k: int| 0 <= k < rest.len() implies (#[trigger] rest[k]).name() != name by {
            assert(rest[k] == children[k + 1]);
        }
        lemma_none_named(rest, name);
    }
}

/// What `first_named` finds is a bearer of the name.
pub proof fn lemma_first_named_found(children: Seq<Tree>, name: Seq<char>)
    ensures
        first_named(children, name) matches Some(i) ==> 0 <= i < children.len()
            && children[i].name() == name,
    decreases children.len(),
{
    if children.len() > 0 && children[0].name() != name {
        lemma_first_named_found(children.drop_first(), name);
    }
}

/// What a directory holds, as mathematics, is what its children are, one
/// by one.
pub proof fn lemma_dir_view(dir: Dir)
    ensures
        dir@ is Dir,
        dir@.name() == dir.name@,
        dir@.children().len() == dir.children@.len(),
        forall|i: int|
            0 <= i < dir.children@.len() ==> dir@.children()[i] == (#[trigger] dir.children@[i])@,
{
    lemma_trees_of(dir.children@);
}

/// Whether two texts are the same.
pub fn same_text(a: &str, b: &str) -> (same: bool)
    ensures
        same == (a@ == b@),
{
    let left = a.as_bytes();
    let right = b.as_bytes();
    proof {
        vstd::utf8::encode_utf8_decode_utf8(a@);
        vstd::utf8::encode_utf8_decode_utf8(b@);
        assert(left@ == vstd::utf8::encode_utf8(a@));
        assert(right@ == vstd::utf8::encode_utf8(b@));
    }
    if left.len() != right.len() {
        return false;
    }
    let mut i: usize = 0;
    while i < left.len()
        invariant
            i <= left@.len(),
            left@.len() == right@.len(),
            left@ == vstd::utf8::encode_utf8(a@),
            right@ == vstd::utf8::encode_utf8(b@),
            forall|k: int| 0 <= k < i ==> left@[k] == right@[k],
        decreases left@.len() - i,
    {
        if left[i] != right[i] {
            return false;
        }
        i = i + 1;
    }
    assert(left@ =~= right@);
    true
}

/// The names that `path` is made of.
pub fn split_path<'a>(path: &'a str) -> (names: Vec<&'a str>)
    ensures
        names@.len() == parts(path@).len(),
        forall|i: int| 0 <= i < names@.len() ==> (#[trigger] names@[i])@ == parts(path@)[i],
{
    let total = path.unicode_len();
    let mut names: Vec<&'a str> = Vec::new();
    let mut start: usize = 0;
    let mut k: usize = 0;
    for c in it: path.chars()
        invariant
            it.seq() == path@,
            total == path@.len(),
            k == it.index(),
            start <= k <= total,
            names@.len() == scanned(path@, k as int).0.len(),
            forall|i: int|
                0 <= i < names@.len() ==> (#[trigger] names@[i])@ == scanned(path@, k as int).0[i],
            scanned(path@, k as int).1 == path@.subrange(start as int, k as int),
    {
        if c == '/' {
            if start < k {
                names.push(path.substring_char(start, k));
            }
            start = k + 1;
            assert(path@.subrange(start as int, k + 1) =~= Seq::<char>::empty());
        } else {
            assert(path@.subrange(start as int, k + 1) =~= path@.subrange(
                start as int,
                k as int,
            ).push(c));
        }
        k = k + 1;
    }
    if start < total {
        names.push(path.substring_char(start, total));
    }
    names
}

/// The names of `from` on, as mathematics.
pub open spec fn texts(names: Seq<&str>, from: int) -> Seq<Seq<char>> {
    Seq::new((names.len() - from) as nat, |i: int| names[from + i]@)
}

/// The place of the first of the children of `dir` that bears `name`.
pub fn child_index(dir: &Dir, name: &str) -> (found: Option<usize>)
    ensures
        first_named(dir@.children(), name@) == (match found {
            Some(i) => Some(i as int),
            None => None,
        }),
        found matches Some(i) ==> i < dir.children@.len() && dir.children@[i as int]@.name()
            == name@,
{
    let ghost children = dir@.children();
    proof {
        lemma_dir_view(*dir);
    }
    let mut i: usize = 0;
    while i < dir.children.len()
        invariant
            i <= dir.children@.len(),
            children == dir@.children(),
            children.len() == dir.children@.len(),
            forall|k: int| 0 <= k < i ==> (#[trigger] children[k]).name() != name@,
        decreases dir.children@.len() - i,
    {
        proof {
            lemma_dir_view(*dir);
        }
        assert(children[i as int] == dir.children@[i as int]@);
        let same = match &dir.children[i] {
            Node::File(file) => same_text(file.name.as_str(), name),
            Node::Dir(sub) => same_text(sub.name.as_str(), name),
        };
        if same {
            proof {
                lemma_first_named(children, name@, i as int);
            }
            return Some(i);
        }
        i = i + 1;
    }
    proof {
        lemma_none_named(children, name@);
    }
    None
}

/// The first child of `dir` that bears `name`.
pub fn find_child_by_name<'a>(dir: &'a Dir, name: &str) -> (found: Option<&'a Node>)
    ensures
        match found {
            Some(child) => first_named(dir@.children(), name@) matches Some(i) && child@
                == dir@.children()[i],
            None => first_named(dir@.children(), name@) is None,
        },
{
    match child_index(dir, name) {
        Some(i) => {
            proof {
                lemma_dir_view(*dir);
            }
            Some(&dir.children[i])
        },
        None => None,
    }
}

/// The first child of `dir` that bears `name`, to be changed in place.
pub fn find_child_by_name_mut<'a>(dir: &'a mut Dir, name: &str) -> (found: Option<&'a mut Node>)
    ensures
        match found {
            Some(child) => first_named(old(dir)@.children(), name@) matches Some(i) && child@
                == old(dir)@.children()[i] && final(dir)@ == old(dir)@.with_children(
                old(dir)@.children().update(i, final(child)@),
            ),
            None => first_named(old(dir)@.children(), name@) is None && final(dir)@ == old(dir)@,
        },
{
    match child_index(dir, name) {
        Some(i) => {
            proof {
                lemma_dir_view(*dir);
                lemma_child_replaced_any(*dir, i as int);
            }
            Some(&mut dir.children[i])
        },
        None => None,
    }
}

/// A directory of which one child has changed has, as mathematics, the same
/// change in its children.
pub proof fn lemma_child_replaced(before: Dir, after: Dir, i: int)
    requires
        0 <= i < before.children@.len(),
        after.name == before.name,
        after.modified == before.modified,
        after.children@ == before.children@.update(i, after.children@[i]),
    ensures
        after@ == before@.with_children(before@.children().update(i, after.children@[i]@)),
{
    lemma_dir_view(before);
    lemma_dir_view(after);
    let changed = before@.children().update(i, after.children@[i]@);
    assert(after.children@.len() == before.children@.len());
    assert forall|j: int| 0 <= j < changed.len() implies after@.children()[j] == changed[j] by {
        assert(after@.children()[j] == after.children@[j]@);
        if j != i {
            assert(after.children@[j] == before.children@[j]);
            assert(before@.children()[j] == before.children@[j]@);
        }
    }
    assert(after@.children() =~= changed);
}

/// The same, of whatever the child is changed to.
pub proof fn lemma_child_replaced_any(before: Dir, i: int)
    requires
        0 <= i < before.children@.len(),
    ensures
        forall|after: Dir|
            after.name == before.name && after.modified == before.modified && after.children@
                == before.children@.update(i, after.children@[i]) ==> #[trigger] after@
                == before@.with_children(before@.children().update(i, after.children@[i]@)),
{
    assert forall|after: Dir|
        after.name == before.name && after.modified == before.modified && after.children@
            == before.children@.update(i, after.children@[i]) implies #[trigger] after@
        == before@.with_children(before@.children().update(i, after.children@[i]@)) by {
        lemma_child_replaced(before, after, i);
    }
}

/// How the trees below a run of nodes follow the run: they are as many, each
/// in the place of its node, and a node that is appended, replaced or
/// removed has its tree appended, replaced or removed.
pub proof fn lemma_trees_follow()
    ensures
        forall|nodes: Seq<Node>| (#[trigger] trees_of(nodes)).len() == nodes.len(),
        forall|nodes: Seq<Node>, i: int|
            0 <= i < nodes.len() ==> (#[trigger] trees_of(nodes)[i]) == tree_of(nodes[i]),
        forall|nodes: Seq<Node>, node: Node| #[trigger]
            trees_of(nodes.push(node)) == trees_of(nodes).push(tree_of(node)),
        forall|nodes: Seq<Node>, i: int, node: Node|
            0 <= i < nodes.len() ==> #[trigger] trees_of(nodes.update(i, node)) == trees_of(
                nodes,
            ).update(i, tree_of(node)),
        forall|nodes: Seq<Node>, i: int|
            0 <= i < nodes.len() ==> #[trigger] trees_of(nodes.remove(i)) == trees_of(
                nodes,
            ).remove(i),
{
    assert forall|nodes: Seq<Node>| (#[trigger] trees_of(nodes)).len() == nodes.len() by {
        lemma_trees_of(nodes);
    }
    assert forall|nodes: Seq<Node>, i: int| 0 <= i < nodes.len() implies (#[trigger] trees_of(
        nodes,
    )[i]) == tree_of(nodes[i]) by {
        lemma_trees_of(nodes);
    }
    assert forall|nodes: Seq<Node>, node: Node| #[trigger]
        trees_of(nodes.push(node)) == trees_of(nodes).push(tree_of(node)) by {
        assert(nodes.push(node).drop_last() =~= nodes);
    }
    assert forall|nodes: Seq<Node>, i: int, node: Node| 0 <= i < nodes.len() implies #[trigger]
        trees_of(nodes.update(i, node)) == trees_of(nodes).update(i, tree_of(node)) by {
        lemma_trees_of(nodes);
        lemma_trees_of(nodes.update(i, node));
        assert(trees_of(nodes.update(i, node)) =~= trees_of(nodes).update(i, tree_of(node)));
    }
    assert forall|nodes: Seq<Node>, i: int| 0 <= i < nodes.len() implies #[trigger] trees_of(
        nodes.remove(i),
    ) == trees_of(nodes).remove(i) by {
        lemma_trees_of(nodes);
        lemma_trees_of(nodes.remove(i));
        assert(trees_of(nodes.remove(i)) =~= trees_of(nodes).remove(i));
    }
}

/// The names from number `from` on are the one with that number and those
/// behind it.
pub proof fn lemma_texts_step(names: Seq<&str>, from: int)
    requires
        0 <= from < names.len(),
    ensures
        texts(names, from).len() > 0,
        texts(names, from)[0] == names[from]@,
        texts(names, from).drop_first() == texts(names, from + 1),
{
    assert(texts(names, from).drop_first() =~= texts(names, from + 1));
}

/// Putting a node where it stands already changes nothing.
pub proof fn lemma_replace_same(tree: Tree, path: Seq<Seq<char>>)
    ensures
        resolve(tree, path) matches Ok(found) ==> replace_at(tree, path, found) == tree,
    decreases path.len(),
{
    if path.len() > 0 {
        match tree {
            Tree::File { .. } => {},
            Tree::Dir { children, .. } => {
                lemma_first_named_found(children, path[0]);
                match first_named(children, path[0]) {
                    Some(i) => {
                        lemma_replace_same(children[i], path.drop_first());
                        if resolve(tree, path) is Ok {
                            assert(children.update(
                                i,
                                replace_at(
                                    children[i],
                                    path.drop_first(),
                                    resolve(tree, path)->Ok_0,
                                ),
                            ) =~= children);
                        }
                    },
                    None => {},
                }
            },
        }
    }
}

/// The node that the names `names`, from number `from` on, lead to from
/// `node`, to be changed in place.
pub fn node_mut<'a>(node: &'a mut Node, names: &Vec<&str>, from: usize) -> (found: Result<
    &'a mut Node,
    FSError,
>)
    requires
        from <= names@.len(),
    ensures
        match found {
            Ok(target) => resolve(old(node)@, texts(names@, from as int)) == Ok::<Tree, FSError>(
                target@,
            ) && final(node)@ == replace_at(
                old(node)@,
                texts(names@, from as int),
                final(target)@,
            ),
            Err(error) => resolve(old(node)@, texts(names@, from as int)) == Err::<Tree, FSError>(
                error,
            ) && final(node)@ == old(node)@,
        },
    decreases names@.len() - from,
{
    if from == names.len() {
        assert(texts(names@, from as int).len() == 0);
        return Ok(node);
    }
    proof {
        lemma_trees_follow();
        lemma_texts_step(names@, from as int);
        lemma_first_named_found(node@.children(), names@[from as int]@);
    }
    match node {
        Node::File(_) => Err(FSError::NotADir),
        Node::Dir(dir) => {
            let ghost kids = dir@.children();
            proof {
                if first_named(kids, names@[from as int]@) is Some {
                    let i = first_named(kids, names@[from as int]@)->Some_0;
                    assert(kids.update(i, kids[i]) =~= kids);
                }
            }
            match find_child_by_name_mut(dir, names[from]) {
                None => Err(FSError::NotFound),
                Some(child) => node_mut(child, names, from + 1),
            }
        },
    }
}

/// The node that the names `names` lead to from `node`.
pub fn node_ref<'a>(node: &'a Node, names: &Vec<&str>) -> (found: Result<&'a Node, FSError>)
    ensures
        match found {
            Ok(target) => resolve(node@, texts(names@, 0)) == Ok::<Tree, FSError>(target@),
            Err(error) => resolve(node@, texts(names@, 0)) == Err::<Tree, FSError>(error),
        },
{
    let mut current_node: &Node = node;
    let mut k: usize = 0;
    while k < names.len()
        invariant
            k <= names@.len(),
            resolve(node@, texts(names@, 0)) == resolve(current_node@, texts(names@, k as int)),
        decreases names@.len() - k,
    {
        proof {
            lemma_texts_step(names@, k as int);
        }
        current_node =
        match current_node {
            Node::Dir(dir) => {
                match find_child_by_name(dir, names[k]) {
                    Some(child) => child,
                    None => {
                        return Err(FSError::NotFound);
                    },
                }
            },
            Node::File(_) => {
                return Err(FSError::NotADir);
            },
        };
        k = k + 1;
    }
    assert(texts(names@, k as int).len() == 0);
    Ok(current_node)
}

/// Makes `node` the last child of `dir` and lends it out.
pub fn add_child<'a>(dir: &'a mut Dir, node: Node) -> (added: &'a mut Node)
    ensures
        *added == node,
        final(dir)@ == old(dir)@.with_children(old(dir)@.children().push(final(added)@)),
{
    let last = dir.children.len();
    dir.children.push(node);
    proof {
        lemma_trees_follow();
        lemma_dir_view(*old(dir));
        lemma_dir_view(*dir);
        lemma_child_replaced_any(*dir, last as int);
        assert(dir.children@ == old(dir).children@.push(node));
        assert(dir@.children() == trees_of(dir.children@));
        assert(old(dir)@.children() == trees_of(old(dir).children@));
        assert(dir@.children() == old(dir)@.children().push(tree_of(node)));
        assert forall|tree: Tree| #[trigger]
            dir@.children().update(last as int, tree) == old(dir)@.children().push(tree) by {
            assert(dir@.children().update(last as int, tree) =~= old(dir)@.children().push(tree));
        }
    }
    &mut dir.children[last]
}

/// Why nothing of the name `name` can be made in the directory that `path`
/// leads to, if anything: the path leads nowhere or through a file, it leads
/// to a file, or the directory holds a child of that name.
pub open spec fn entry_refusal(tree: Tree, path: Seq<Seq<char>>, name: Seq<char>) -> Option<
    FSError,
> {
    match resolve(tree, path) {
        Err(error) => Some(error),
        Ok(Tree::File { .. }) => Some(FSError::NotADir),
        Ok(Tree::Dir { children, .. }) => if first_named(children, name) is Some {
            Some(FSError::Duplicate)
        } else {
            None
        },
    }
}

/// The place of the last `/` among the first `k` characters of `path`, or -1
/// where there is none.
pub open spec fn last_slash(path: Seq<char>, k: int) -> int
    decreases k,
{
    if k <= 0 {
        -1
    } else if path[k - 1] == '/' {
        k - 1
    } else {
        last_slash(path, k - 1)
    }
}

/// What `path` asks to remove: the names that lead to the directory, and the
/// place of the child in it. The child's name is what stands behind the last
/// `/` of `path`, the directory's path what stands before it. A directory
/// that holds something is not removed.
pub open spec fn removal(tree: Tree, path: Seq<char>) -> Result<(Seq<Seq<char>>, int), FSError> {
    let cut = last_slash(path, path.len() as int);
    if cut < 0 {
        Err(FSError::NotFound)
    } else {
        let parent = parts(path.subrange(0, cut));
        let name = path.subrange(cut + 1, path.len() as int);
        match resolve(tree, parent) {
            Err(error) => Err(error),
            Ok(Tree::File { .. }) => Err(FSError::NotADir),
            Ok(Tree::Dir { children, .. }) => match first_named(children, name) {
                None => Err(FSError::NotFound),
                Some(i) => if children[i] is Dir && children[i].children().len() > 0 {
                    Err(FSError::DirNotEmpty)
                } else {
                    Ok((parent, i))
                },
            },
        }
    }
}

/// Whether `needle` stands somewhere in `hay`, byte for byte.
pub open spec fn contains_text(hay: Seq<char>, needle: Seq<char>) -> bool {
    exists|at: int|
        occurs_at(vstd::utf8::encode_utf8(hay), vstd::utf8::encode_utf8(needle), at)
}

/// Whether the node at the top of `tree` meets the constraint `key:value`:
/// `type:dir` and `type:file` ask for the kind of node, `name` for its name
/// and `partname` for a stretch of its name.
pub open spec fn meets(tree: Tree, key: Seq<char>, value: Seq<char>) -> bool {
    ||| key == "type"@ && value == "dir"@ && tree is Dir
    ||| key == "type"@ && value == "file"@ && tree is File
    ||| key == "name"@ && tree.name() == value
    ||| key == "partname"@ && contains_text(tree.name(), value)
}

/// The place of the first `:` of `text` at or behind `from`, or -1 where
/// there is none.
pub open spec fn first_colon(text: Seq<char>, from: int) -> int
    decreases text.len() - from,
{
    if from < 0 || from >= text.len() {
        -1
    } else if text[from] == ':' {
        from
    } else {
        first_colon(text, from + 1)
    }
}

/// Whether the node at the top of `tree` meets `query`: a key, a `:` and a
/// value. What holds no `:` is met by nothing.
pub open spec fn meets_query(tree: Tree, query: Seq<char>) -> bool {
    let cut = first_colon(query, 0);
    cut >= 0 && meets(tree, query.subrange(0, cut), query.subrange(cut + 1, query.len() as int))
}

/// The place of the first of `queries`, from number `from` on, that the
/// node at the top of `tree` meets.
pub open spec fn first_met(tree: Tree, queries: Seq<&str>, from: int) -> Option<int>
    decreases queries.len() - from,
{
    if from < 0 || from >= queries.len() {
        None
    } else if meets_query(tree, queries[from]@) {
        Some(from)
    } else {
        first_met(tree, queries, from + 1)
    }
}

/// The nodes of `tree` with their paths, where `path` is the path of the
/// node at the top: each directory before what it holds, and what it holds
/// in order.
pub open spec fn listing(tree: Tree, path: Seq<char>) -> Seq<(Seq<char>, Tree)>
    decreases tree,
{
    match tree {
        Tree::File { .. } => seq![(path, tree)],
        Tree::Dir { children, .. } => seq![(path, tree)] + listing_below(children, path),
    }
}

/// The nodes of the trees `children` with their paths, where `path` is the
/// path of the directory that holds them.
pub open spec fn listing_below(children: Seq<Tree>, path: Seq<char>) -> Seq<(Seq<char>, Tree)>
    decreases children,
{
    if children.len() == 0 {
        Seq::empty()
    } else {
        listing_below(children.drop_last(), path) + listing(
            children.last(),
            path + seq!['/'] + children.last().name(),
        )
    }
}

/// What a search tells of the nodes `entries`: for each node that meets one
/// of `queries`, the first query that it meets, its path and its name.
pub open spec fn matches_of(entries: Seq<(Seq<char>, Tree)>, queries: Seq<&str>) -> Seq<
    (Seq<char>, Seq<char>, Seq<char>),
>
    decreases entries.len(),
{
    if entries.len() == 0 {
        Seq::empty()
    } else {
        let earlier = matches_of(entries.drop_last(), queries);
        let (path, tree) = entries.last();
        match first_met(tree, queries, 0) {
            Some(j) => earlier.push((queries[j]@, path, tree.name())),
            None => earlier,
        }
    }
}

/// Whether `f` has been called for the node `entry` with its path, so that
/// what `f` promises of a call holds of that call.
pub open spec fn visited<F: Fn(&str, &Node)>(f: F, entry: (Seq<char>, Tree)) -> bool {
    exists|path: &str, node: &Node|
        path@ == entry.0 && node@ == entry.1 && #[trigger] call_ensures(f, (path, node), ())
}

/// Nodes with their paths, as mathematics.
pub open spec fn entries_of(list: Seq<(String, &Node)>) -> Seq<(Seq<char>, Tree)> {
    Seq::new(list.len(), |i: int| (list[i].0@, list[i].1@))
}

/// What a search has found, as mathematics.
pub open spec fn results_of(list: Seq<MatchResult>) -> Seq<(Seq<char>, Seq<char>, Seq<char>)> {
    Seq::new(list.len(), |i: int| (list[i].query@, list[i].path@, list[i].name@))
}

/// The place of the first `:` of `text`.
pub fn colon_of(text: &str) -> (cut: Option<usize>)
    ensures
        match cut {
            Some(at) => at == first_colon(text@, 0) && at < text@.len(),
            None => first_colon(text@, 0) == -1,
        },
{
    let total = text.unicode_len();
    let mut k: usize = 0;
    for c in it: text.chars()
        invariant
            it.seq() == text@,
            total == text@.len(),
            k == it.index(),
            k <= total,
            first_colon(text@, 0) == first_colon(text@, k as int),
    {
        if c == ':' {
            return Some(k);
        }
        k = k + 1;
    }
    None
}

/// Whether `needle` stands somewhere in `hay`.
pub fn text_contains(hay: &str, needle: &str) -> (found: bool)
    ensures
        found == contains_text(hay@, needle@),
{
    match find_from(hay.as_bytes(), needle.as_bytes(), 0) {
        Some(at) => {
            assert(occurs_at(
                vstd::utf8::encode_utf8(hay@),
                vstd::utf8::encode_utf8(needle@),
                at as int,
            ));
            true
        },
        None => {
            assert forall|at: int|
                !occurs_at(
                    vstd::utf8::encode_utf8(hay@),
                    vstd::utf8::encode_utf8(needle@),
                    at,
                ) by {
                if 0 <= at {
                    assert(!occurs_at(hay.spec_bytes(), needle.spec_bytes(), at));
                }
            }
            false
        },
    }
}

/// The path of the child of the name `name` in the directory of the path
/// `path`.
pub fn child_path(path: &str, name: &str) -> (joined: String)
    ensures
        joined@ == path@ + seq!['/'] + name@,
{
    proof {
        reveal_strlit("/");
    }
    let joined = String::from_str(path).concat("/").concat(name);
    assert("/"@ =~= seq!['/']);
    joined
}

impl Filesystem {
    /// Makes a file system that holds nothing but its root directory, whose
    /// name is empty.
    pub fn new() -> (made: Self)
        ensures
            made@ is Dir,
            made@.name() == Seq::<char>::empty(),
            made@.children() == Seq::<Tree>::empty(),
    {
        proof {
            lemma_trees_follow();
        }
        let made = Filesystem {
            root: Node::Dir(
                Dir { name: String::new(), modified: SystemTime::now(), children: Vec::new() },
            ),
        };
        assert(made@.children() =~= Seq::<Tree>::empty());
        made
    }

    /// Makes an empty directory of the name `name` in the directory that
    /// `path` leads to, as its last child, and lends it out.
    pub fn mkdir(&mut self, path: &str, name: &str) -> (made: Result<&mut Dir, FSError>)
        ensures
            made is Ok <==> entry_refusal(old(self)@, parts(path@), name@) is None,
            made matches Err(error) ==> entry_refusal(old(self)@, parts(path@), name@) == Some(
                error,
            ) && final(self)@ == old(self)@,
            made matches Ok(dir) ==> dir@.name() == name@,
            made matches Ok(dir) ==> dir@.children() == Seq::<Tree>::empty(),
            made matches Ok(dir) ==> final(self)@ == replace_at(
                old(self)@,
                parts(path@),
                resolve(old(self)@, parts(path@))->Ok_0.with_children(
                    resolve(old(self)@, parts(path@))->Ok_0.children().push(final(dir)@),
                ),
            ),
    {
        let names = split_path(path);
        proof {
            lemma_trees_follow();
            assert(texts(names@, 0) =~= parts(path@));
            lemma_replace_same(self@, parts(path@));
            assert forall|trees: Seq<Tree>, first: Tree, second: Tree| #[trigger]
                trees.push(first).update(trees.len() as int, second) == trees.push(second) by {
                assert(trees.push(first).update(trees.len() as int, second) =~= trees.push(
                    second,
                ));
            }
        }
        match node_mut(&mut self.root, &names, 0) {
            Err(error) => Err(error),
            Ok(parent_node) => match parent_node {
                Node::Dir(parent_dir) => {
                    if child_index(parent_dir, name).is_some() {
                        return Err(FSError::Duplicate);
                    }
                    let new_dir = Dir {
                        name: String::from_str(name),
                        modified: SystemTime::now(),
                        children: Vec::new(),
                    };
                    match add_child(parent_dir, Node::Dir(new_dir)) {
                        Node::Dir(dir) => Ok(dir),
                        Node::File(_) => Err(FSError::GenericError),
                    }
                },
                Node::File(_) => Err(FSError::NotADir),
            },
        }
    }

    /// Makes an empty file of the name `name` in the directory that `path`
    /// leads to, as its last child, and lends it out.
    pub fn create_file(&mut self, path: &str, name: &str) -> (made: Result<&mut File, FSError>)
        ensures
            made is Ok <==> entry_refusal(old(self)@, parts(path@), name@) is None,
            made matches Err(error) ==> entry_refusal(old(self)@, parts(path@), name@) == Some(
                error,
            ) && final(self)@ == old(self)@,
            made matches Ok(file) ==> file@.name() == name@ && file@ is File,
            made matches Ok(file) ==> file.content@ == Seq::<u8>::empty(),
            made matches Ok(file) ==> final(self)@ == replace_at(
                old(self)@,
                parts(path@),
                resolve(old(self)@, parts(path@))->Ok_0.with_children(
                    resolve(old(self)@, parts(path@))->Ok_0.children().push(final(file)@),
                ),
            ),
    {
        let names = split_path(path);
        proof {
            lemma_trees_follow();
            assert(texts(names@, 0) =~= parts(path@));
            lemma_replace_same(self@, parts(path@));
            assert forall|trees: Seq<Tree>, first: Tree, second: Tree| #[trigger]
                trees.push(first).update(trees.len() as int, second) == trees.push(second) by {
                assert(trees.push(first).update(trees.len() as int, second) =~= trees.push(
                    second,
                ));
            }
        }
        match node_mut(&mut self.root, &names, 0) {
            Err(error) => Err(error),
            Ok(parent_node) => match parent_node {
                Node::Dir(parent_dir) => {
                    if child_index(parent_dir, name).is_some() {
                        return Err(FSError::Duplicate);
                    }
                    let new_file = File {
                        name: String::from_str(name),
                        modified: SystemTime::now(),
                        content: Vec::new(),
                    };
                    match add_child(parent_dir, Node::File(new_file)) {
                        Node::File(file) => Ok(file),
                        Node::Dir(_) => Err(FSError::GenericError),
                    }
                },
                Node::File(_) => Err(FSError::NotADir),
            },
        }
    }

    /// Sets the time of last change of the node that `path` leads to to the
    /// time that the system clock gives.
    pub fn touch(&mut self, path: &str) -> (done: Result<(), FSError>)
        ensures
            match done {
                Ok(()) => resolve(old(self)@, parts(path@)) is Ok && exists|stamp: SystemTime|
                    final(self)@ == replace_at(
                        old(self)@,
                        parts(path@),
                        resolve(old(self)@, parts(path@))->Ok_0.with_stamp(stamp),
                    ),
                Err(error) => resolve(old(self)@, parts(path@)) == Err::<Tree, FSError>(error)
                    && final(self)@ == old(self)@,
            },
    {
        let names = split_path(path);
        proof {
            lemma_trees_follow();
            assert(texts(names@, 0) =~= parts(path@));
        }
        let stamp = SystemTime::now();
        match node_mut(&mut self.root, &names, 0) {
            Err(error) => Err(error),
            Ok(node) => {
                match node {
                    Node::Dir(dir) => {
                        dir.modified = stamp;
                    },
                    Node::File(file) => {
                        file.modified = stamp;
                    },
                }
                assert(self@ == replace_at(
                    old(self)@,
                    parts(path@),
                    resolve(old(self)@, parts(path@))->Ok_0.with_stamp(stamp),
                ));
                Ok(())
            },
        }
    }

    /// Removes the node that `path` leads to from the directory that holds
    /// it, and hands it out. The node's name is what stands behind the last
    /// `/` of `path`; a directory that holds something is not removed.
    pub fn delete(&mut self, path: &str) -> (removed: Result<Node, FSError>)
        ensures
            match removed {
                Ok(node) => {
                    &&& removal(old(self)@, path@) matches Ok((parent, i))
                    &&& resolve(old(self)@, parent) matches Ok(holder)
                    &&& 0 <= i < holder.children().len()
                    &&& node@ == holder.children()[i]
                    &&& final(self)@ == replace_at(
                        old(self)@,
                        parent,
                        holder.with_children(holder.children().remove(i)),
                    )
                },
                Err(error) => removal(old(self)@, path@) == Err::<(Seq<Seq<char>>, int), FSError>(
                    error,
                ) && final(self)@ == old(self)@,
            },
    {
        let total = path.unicode_len();
        let mut cut: Option<usize> = None;
        let mut k: usize = 0;
        for c in it: path.chars()
            invariant
                it.seq() == path@,
                total == path@.len(),
                k == it.index(),
                k <= total,
                match cut {
                    Some(at) => at == last_slash(path@, k as int) && at < k,
                    None => last_slash(path@, k as int) == -1,
                },
        {
            if c == '/' {
                cut = Some(k);
            }
            k = k + 1;
        }
        match cut {
            None => Err(FSError::NotFound),
            Some(cut) => {
                let parent_path = path.substring_char(0, cut);
                let node_name = path.substring_char(cut + 1, total);
                let names = split_path(parent_path);
                proof {
                    lemma_trees_follow();
                    assert(texts(names@, 0) =~= parts(parent_path@));
                    lemma_replace_same(self@, parts(parent_path@));
                }
                match node_mut(&mut self.root, &names, 0) {
                    Err(error) => Err(error),
                    Ok(parent_node) => match parent_node {
                        Node::Dir(parent_dir) => {
                            proof {
                                lemma_dir_view(*parent_dir);
                            }
                            match child_index(parent_dir, node_name) {
                                None => Err(FSError::NotFound),
                                Some(index) => {
                                    let blocked = match &parent_dir.children[index] {
                                        Node::Dir(dir) => {
                                            proof {
                                                lemma_dir_view(*dir);
                                            }
                                            dir.children.len() > 0
                                        },
                                        Node::File(_) => false,
                                    };
                                    if blocked {
                                        return Err(FSError::DirNotEmpty);
                                    }
                                    let ghost before = *parent_dir;
                                    let node = parent_dir.children.remove(index);
                                    proof {
                                        lemma_dir_view(*parent_dir);
                                        lemma_dir_view(before);
                                        assert(parent_dir.children@ == before.children@.remove(
                                            index as int,
                                        ));
                                        assert(parent_dir@.children() == trees_of(
                                            parent_dir.children@,
                                        ));
                                        assert(before@.children() == trees_of(before.children@));
                                        assert(parent_dir@ == before@.with_children(
                                            before@.children().remove(index as int),
                                        ));
                                    }
                                    Ok(node)
                                },
                            }
                        },
                        Node::File(_) => Err(FSError::NotADir),
                    },
                }
            },
        }
    }

    /// The node that `path` leads to.
    pub fn get(&self, path: &str) -> (found: Result<&Node, FSError>)
        ensures
            match found {
                Ok(node) => resolve(self@, parts(path@)) == Ok::<Tree, FSError>(node@),
                Err(error) => resolve(self@, parts(path@)) == Err::<Tree, FSError>(error),
            },
    {
        let names = split_path(path);
        proof {
            assert(texts(names@, 0) =~= parts(path@));
        }
        node_ref(&self.root, &names)
    }

    /// The node that `path` leads to, to be changed in place.
    pub fn get_mut(&mut self, path: &str) -> (found: Result<&mut Node, FSError>)
        ensures
            match found {
                Ok(node) => resolve(old(self)@, parts(path@)) == Ok::<Tree, FSError>(node@)
                    && final(self)@ == replace_at(old(self)@, parts(path@), final(node)@),
                Err(error) => resolve(old(self)@, parts(path@)) == Err::<Tree, FSError>(error)
                    && final(self)@ == old(self)@,
            },
    {
        let names = split_path(path);
        proof {
            assert(texts(names@, 0) =~= parts(path@));
        }
        node_mut(&mut self.root, &names, 0)
    }

    /// The nodes that meet one of the queries `qs`, in the order in which a
    /// walk through the tree finds them, each with the first query that it
    /// meets, its path and its name.
    pub fn find(&self, qs: &[&str]) -> (results: Vec<MatchResult>)
        ensures
            results_of(results@) == matches_of(listing(self@, Seq::<char>::empty()), qs@),
    {
        let mut entries: Vec<(String, &Node)> = Vec::new();
        proof {
            reveal_strlit("");
            assert(""@ =~= Seq::<char>::empty());
        }
        self.walk_node("", &self.root, &mut entries);
        assert(entries_of(entries@) =~= listing(self@, Seq::<char>::empty()));
        let mut results: Vec<MatchResult> = Vec::new();
        let mut i: usize = 0;
        while i < entries.len()
            invariant
                i <= entries@.len(),
                results_of(results@) == matches_of(entries_of(entries@).subrange(0, i as int), qs@),
            decreases entries@.len() - i,
        {
            let node: &Node = entries[i].1;
            let ghost earlier = results_of(results@);
            let ghost tree = node@;
            assert(entries_of(entries@).subrange(0, i + 1).drop_last() =~= entries_of(
                entries@,
            ).subrange(0, i as int));
            assert(entries_of(entries@).subrange(0, i + 1).last() == (entries@[i as int].0@, tree));
            let mut j: usize = 0;
            let mut met: Option<usize> = None;
            while j < qs.len() && met.is_none()
                invariant
                    j <= qs@.len(),
                    tree == node@,
                    match met {
                        Some(at) => first_met(tree, qs@, 0) == Some(at as int) && at < qs@.len(),
                        None => first_met(tree, qs@, 0) == first_met(tree, qs@, j as int),
                    },
                decreases qs@.len() - j + (if met is None { 1int } else { 0int }),
            {
                let q = qs[j];
                let hit = match colon_of(q) {
                    Some(cut) => {
                        let total = q.unicode_len();
                        self.matches_query(
                            node,
                            q.substring_char(0, cut),
                            q.substring_char(cut + 1, total),
                        )
                    },
                    None => false,
                };
                if hit {
                    met = Some(j);
                } else {
                    j = j + 1;
                }
            }
            match met {
                Some(at) => {
                    let name = match node {
                        Node::Dir(d) => d.name.clone(),
                        Node::File(f) => f.name.clone(),
                    };
                    results.push(
                        MatchResult {
                            query: String::from_str(qs[at]),
                            path: entries[i].0.clone(),
                            name,
                        },
                    );
                    assert(results_of(results@) =~= earlier.push(
                        (qs@[at as int]@, entries@[i as int].0@, tree.name()),
                    ));
                },
                None => {
                    assert(results_of(results@) =~= earlier);
                },
            }
            i = i + 1;
        }
        assert(entries_of(entries@).subrange(0, i as int) =~= entries_of(entries@));
        results
    }

    /// Whether `node` meets the constraint `key:value`.
    pub fn matches_query(&self, node: &Node, key: &str, value: &str) -> (met: bool)
        ensures
            met == meets(node@, key@, value@),
    {
        let name = match node {
            Node::Dir(d) => d.name.as_str(),
            Node::File(f) => f.name.as_str(),
        };
        let is_dir = match node {
            Node::Dir(_) => true,
            Node::File(_) => false,
        };
        if same_text(key, "type") {
            proof {
                lemma_keys_differ();
            }
            (same_text(value, "dir") && is_dir) || (same_text(value, "file") && !is_dir)
        } else if same_text(key, "name") {
            proof {
                lemma_keys_differ();
            }
            same_text(name, value)
        } else if same_text(key, "partname") {
            proof {
                lemma_keys_differ();
            }
            text_contains(name, value)
        } else {
            false
        }
    }

    /// Calls `f` for each node of the tree with its path: for each
    /// directory before what it holds, and for what it holds in order. What
    /// `f` promises of a call then holds of the call for each node.
    pub fn walk<F>(&self, f: F) where F: Fn(&str, &Node)
        requires
            forall|path: &str, node: &Node| call_requires(f, (path, node)),
        ensures
            forall|i: int|
                0 <= i < listing(self@, Seq::<char>::empty()).len() ==> #[trigger] visited(
                    f,
                    listing(self@, Seq::<char>::empty())[i],
                ),
    {
        let mut entries: Vec<(String, &Node)> = Vec::new();
        proof {
            reveal_strlit("");
            assert(""@ =~= Seq::<char>::empty());
        }
        self.walk_node("", &self.root, &mut entries);
        assert(entries_of(entries@) =~= listing(self@, Seq::<char>::empty()));
        let mut i: usize = 0;
        while i < entries.len()
            invariant
                i <= entries@.len(),
                forall|path: &str, node: &Node| call_requires(f, (path, node)),
                forall|k: int| 0 <= k < i ==> #[trigger] visited(f, entries_of(entries@)[k]),
            decreases entries@.len() - i,
        {
            let path = entries[i].0.as_str();
            let node = entries[i].1;
            f(path, node);
            assert(visited(f, entries_of(entries@)[i as int])) by {
                assert(path@ == entries_of(entries@)[i as int].0);
                assert(node@ == entries_of(entries@)[i as int].1);
                assert(call_ensures(f, (path, node), ()));
            }
            i = i + 1;
        }
    }

    /// Appends to `out` the nodes of the tree below `node` with their paths,
    /// where `path` is the path of `node`: each directory before what it
    /// holds, and what it holds in order.
    pub fn walk_node<'a>(&self, path: &str, node: &'a Node, out: &mut Vec<(String, &'a Node)>)
        ensures
            entries_of(final(out)@) == entries_of(old(out)@) + listing(node@, path@),
        decreases node,
    {
        out.push((String::from_str(path), node));
        assert(entries_of(out@) =~= entries_of(old(out)@) + seq![(path@, node@)]);
        match node {
            Node::Dir(dir) => {
                proof {
                    lemma_dir_view(*dir);
                }
                let ghost kids = dir@.children();
                let mut i: usize = 0;
                while i < dir.children.len()
                    invariant
                        i <= dir.children@.len(),
                        node == Node::Dir(*dir),
                        kids == dir@.children(),
                        kids.len() == dir.children@.len(),
                        forall|k: int|
                            0 <= k < kids.len() ==> kids[k] == (#[trigger] dir.children@[k])@,
                        entries_of(out@) == entries_of(old(out)@) + seq![(path@, node@)]
                            + listing_below(kids.subrange(0, i as int), path@),
                    decreases dir.children@.len() - i,
                {
                    let child = &dir.children[i];
                    let child_name = match child {
                        Node::Dir(d) => d.name.as_str(),
                        Node::File(f) => f.name.as_str(),
                    };
                    let joined = child_path(path, child_name);
                    let ghost before = out@;
                    self.walk_node(joined.as_str(), child, out);
                    proof {
                        assert(kids.subrange(0, i + 1).drop_last() =~= kids.subrange(0, i as int));
                        assert(kids.subrange(0, i + 1).last() == child@);
                        assert(entries_of(out@) =~= entries_of(old(out)@) + seq![(path@, node@)]
                            + listing_below(kids.subrange(0, i + 1), path@));
                    }
                    i = i + 1;
                }
                assert(kids.subrange(0, i as int) =~= kids);
                assert(entries_of(out@) =~= entries_of(old(out)@) + listing(node@, path@));
            },
            Node::File(_) => {},
        }
    }
}

/// The keys of the constraints are different texts.
pub proof fn lemma_keys_differ()
    ensures
        "type"@ != "name"@,
        "type"@ != "partname"@,
        "name"@ != "partname"@,
{
    reveal_strlit("type");
    reveal_strlit("name");
    reveal_strlit("partname");
    assert("type"@[0] == 't');
    assert("name"@[0] == 'n');
    assert("partname"@[0] == 'p');
}

} // verus!
