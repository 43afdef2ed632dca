//! The mathematical model of the configuration tree: an ordered, keyed
//! tree of texts, and what each operation on it means.

use crate::text::debug_text;
use vstd::prelude::*;

verus! {

/// A node: its key and its children, in insertion order.
#[verifier::ext_equal]
pub ghost struct Tree {
    pub key: Seq<char>,
    pub children: Seq<Tree>,
}

/// A path: the keys to follow from a node, nearest first.
pub type Path = Seq<Seq<char>>;

/// The node keyed `key` that has no children.
pub open spec fn leaf(key: Seq<char>) -> Tree {
    Tree { key, children: Seq::empty() }
}

/// The index of the first of `children` keyed `key`, or their number if
/// none is.
pub open spec fn position(children: Seq<Tree>, key: Seq<char>) -> int
    decreases children.len(),
{
    if children.len() == 0 {
        0
    } else if children[0].key == key {
        0
    } else {
        1 + position(children.drop_first(), key)
    }
}

/// The white space in front of a line at depth `depth`: four spaces for
/// each level.
pub open spec fn indentation(depth: nat) -> Seq<char>
    decreases depth,
{
    if depth == 0 {
        Seq::empty()
    } else {
        indentation((depth - 1) as nat) + "    "@
    }
}

/// One line of a dump: indentation, the key as shown, a line feed.
pub open spec fn line_text(depth: nat, shown: Seq<char>) -> Seq<char> {
    indentation(depth) + shown + seq!['\n']
}

impl Tree {
    /// The dump of this tree, its root at depth `depth`: one line for the
    /// node, then the dumps of its children, one level deeper, in order.
    pub open spec fn render(self, depth: nat) -> Seq<char>
        decreases self, self.children.len() + 1,
    {
        line_text(depth, debug_text(self.key)) + self.render_children(0, depth + 1)
    }

    /// The dumps of the children from index `from` on, each at `depth`.
    pub open spec fn render_children(self, from: nat, depth: nat) -> Seq<char>
        decreases self, self.children.len() - from,
    {
        if from >= self.children.len() {
            Seq::empty()
        } else {
            self.children[from as int].render(depth) + self.render_children(from + 1, depth)
        }
    }

    /// Whether some direct child is keyed `key`.
    pub open spec fn has_key(self, key: Seq<char>) -> bool {
        position(self.children, key) < self.children.len()
    }

    /// The first direct child keyed `key`.
    pub open spec fn child(self, key: Seq<char>) -> Tree
        recommends
            self.has_key(key),
    {
        self.children[position(self.children, key)]
    }

    /// This node with its first child keyed `key` replaced by `node`.
    pub open spec fn replace_child(self, key: Seq<char>, node: Tree) -> Tree
        recommends
            self.has_key(key),
    {
        Tree { key: self.key, children: self.children.update(position(self.children, key), node) }
    }

    /// Whether `path` can be followed from this node: it is empty, or its
    /// head is a direct child from which its tail can be followed.
    pub open spec fn has_path(self, path: Path) -> bool
        decreases path.len(),
    {
        path.len() == 0 || (self.has_key(path[0]) && self.child(path[0]).has_path(
            path.drop_first(),
        ))
    }

    /// The node that `path` leads to.
    pub open spec fn node_at(self, path: Path) -> Tree
        recommends
            self.has_path(path),
        decreases path.len(),
    {
        if path.len() == 0 {
            self
        } else {
            self.child(path[0]).node_at(path.drop_first())
        }
    }

    /// This tree with the node that `path` leads to replaced by `node`.
    pub open spec fn replace_at(self, path: Path, node: Tree) -> Tree
        recommends
            self.has_path(path),
        decreases path.len(),
    {
        if path.len() == 0 {
            node
        } else {
            self.replace_child(path[0], self.child(path[0]).replace_at(path.drop_first(), node))
        }
    }

    /// This node with one more child, placed last.
    pub open spec fn with_child(self, child: Tree) -> Tree {
        Tree { key: self.key, children: self.children.push(child) }
    }

    /// This tree made to hold `path`: for each key in turn, the walk goes
    /// down into the first child so keyed, or into a new leaf appended
    /// for it where there is none.
    pub open spec fn ensure_path(self, path: Path) -> Tree
        decreases path.len(),
    {
        if path.len() == 0 {
            self
        } else {
            let grown = if self.has_key(path[0]) {
                self
            } else {
                self.with_child(leaf(path[0]))
            };
            let i = position(self.children, path[0]);
            Tree {
                key: self.key,
                children: grown.children.update(
                    i,
                    grown.children[i].ensure_path(path.drop_first()),
                ),
            }
        }
    }

    /// Whether some direct child equals `other`, key and descendants.
    pub open spec fn has_child(self, other: Tree) -> bool {
        exists|i: int| 0 <= i < self.children.len() && self.children[i] == other
    }

    /// This node after `other` is merged in. A node that already holds a
    /// copy of `other` gains it once more; otherwise the first child keyed
    /// as `other` has its children replaced by those of `other`.
    pub open spec fn merge(self, other: Tree) -> Tree
        recommends
            self.has_key(other.key),
    {
        if self.has_child(other) {
            self.with_child(other)
        } else {
            self.replace_child(other.key, other)
        }
    }

    /// The keys of the direct children, in order.
    pub open spec fn keys(self) -> Seq<Seq<char>> {
        self.children.map_values(|c: Tree| c.key)
    }

    /// The key of the only child, where there is exactly one.
    pub open spec fn value(self) -> Option<Seq<char>> {
        if self.children.len() == 1 {
            Some(self.children[0].key)
        } else {
            None
        }
    }

    /// Whether this tree holds all of `base` where `base` holds it: the
    /// same key, every child of `base` at the same place, and each of
    /// them extended in the same sense.
    pub open spec fn extends(self, base: Tree) -> bool
        decreases base,
    {
        &&& self.key == base.key
        &&& base.children.len() <= self.children.len()
        &&& forall|i: int|
            0 <= i < base.children.len() ==> (#[trigger] self.children[i]).extends(
                base.children[i],
            )
    }
}

/// What [`position`] finds: the first child with the key, and no other.
pub proof fn lemma_position(children: Seq<Tree>, key: Seq<char>)
    ensures
        0 <= position(children, key) <= children.len(),
        position(children, key) < children.len() ==> children[position(children, key)].key == key,
        forall|j: int| 0 <= j < position(children, key) ==> children[j].key != key,
    decreases children.len(),
{
    if children.len() > 0 && children[0].key != key {
        let rest = children.drop_first();
        lemma_position(rest, key);
        assert forall|j: int| 0 <= j < position(children, key) implies children[j].key != key by {
            if j > 0 {
                assert(rest[j - 1] == children[j]);
            }
        }
    }
}

/// A child with the key that has no child with the key before it is the
/// one that [`position`] finds.
pub proof fn lemma_position_is(children: Seq<Tree>, key: Seq<char>, i: int)
    requires
        0 <= i <= children.len(),
        i < children.len() ==> children[i].key == key,
        forall|j: int| 0 <= j < i ==> children[j].key != key,
    ensures
        position(children, key) == i,
{
    lemma_position(children, key);
    let p = position(children, key);
    if p < i {
        assert(children[p].key != key);
    }
}

/// A node has a key exactly if one of its children carries it.
pub proof fn lemma_has_key(t: Tree, key: Seq<char>)
    ensures
        t.has_key(key) <==> exists|i: int| 0 <= i < t.children.len() && t.children[i].key == key,
{
    lemma_position(t.children, key);
    if t.has_key(key) {
        assert(t.children[position(t.children, key)].key == key);
    }
}

/// Replacing the node at a path by itself changes nothing.
pub proof fn lemma_replace_at_same(t: Tree, path: Path)
    requires
        t.has_path(path),
    ensures
        t.replace_at(path, t.node_at(path)) == t,
    decreases path.len(),
{
    if path.len() > 0 {
        lemma_position(t.children, path[0]);
        lemma_replace_at_same(t.child(path[0]), path.drop_first());
        assert(t.replace_at(path, t.node_at(path)).children =~= t.children);
    }
}

/// Making a tree hold a path leaves its key alone.
pub proof fn lemma_ensure_path_key(t: Tree, path: Path)
    ensures
        t.ensure_path(path).key == t.key,
{
}

/// A tree made to hold a path holds it.
pub proof fn lemma_ensure_path_has_path(t: Tree, path: Path)
    ensures
        t.ensure_path(path).has_path(path),
    decreases path.len(),
{
    if path.len() > 0 {
        let grown = if t.has_key(path[0]) {
            t
        } else {
            t.with_child(leaf(path[0]))
        };
        let i = position(t.children, path[0]);
        let after = t.ensure_path(path);
        lemma_position(t.children, path[0]);
        lemma_ensure_path_has_path(grown.children[i], path.drop_first());
        lemma_position_is(after.children, path[0], i);
    }
}

/// Making a tree hold the same path twice changes nothing the second time.
pub proof fn lemma_ensure_path_idempotent(t: Tree, path: Path)
    ensures
        t.ensure_path(path).ensure_path(path) == t.ensure_path(path),
    decreases path.len(),
{
    if path.len() > 0 {
        let grown = if t.has_key(path[0]) {
            t
        } else {
            t.with_child(leaf(path[0]))
        };
        let i = position(t.children, path[0]);
        let once = t.ensure_path(path);
        lemma_position(t.children, path[0]);
        lemma_ensure_path_key(grown.children[i], path.drop_first());
        lemma_position_is(once.children, path[0], i);
        lemma_ensure_path_idempotent(grown.children[i], path.drop_first());
        assert(once.ensure_path(path).children =~= once.children);
    }
}

/// Where a path can be followed, each of its beginnings can be.
pub proof fn lemma_has_path_prefix(t: Tree, path: Path, shorter: Path)
    requires
        t.has_path(path),
        shorter.is_prefix_of(path),
    ensures
        t.has_path(shorter),
    decreases path.len(),
{
    if shorter.len() > 0 {
        assert(shorter[0] == path[0]);
        assert(shorter.drop_first().is_prefix_of(path.drop_first())) by {
            assert forall|i: int| 0 <= i < shorter.drop_first().len() implies shorter.drop_first()[i]
                == path.drop_first()[i] by {
                assert(shorter[i + 1] == path[i + 1]);
            }
        }
        lemma_has_path_prefix(t.child(path[0]), path.drop_first(), shorter.drop_first());
    }
}

/// A tree made to hold a path holds that path, its beginnings and what
/// it held before, and nothing else.
pub proof fn lemma_ensure_path_adds_only_the_path(t: Tree, added: Path, path: Path)
    ensures
        t.ensure_path(added).has_path(path) <==> t.has_path(path) || path.is_prefix_of(added),
    decreases added.len(),
{
    let after = t.ensure_path(added);
    lemma_ensure_path_extends(t, added);
    lemma_ensure_path_has_path(t, added);
    if t.has_path(path) {
        lemma_extends_has_path(after, t, path);
    }
    if path.is_prefix_of(added) {
        lemma_has_path_prefix(after, added, path);
    }
    if after.has_path(path) && added.len() > 0 && path.len() > 0 {
        let grown = if t.has_key(added[0]) {
            t
        } else {
            t.with_child(leaf(added[0]))
        };
        let i = position(t.children, added[0]);
        let key = path[0];
        lemma_position(t.children, added[0]);
        lemma_position(t.children, key);
        lemma_position(after.children, key);
        lemma_ensure_path_key(grown.children[i], added.drop_first());
        if key == added[0] {
            lemma_position_is(after.children, key, i);
            lemma_ensure_path_adds_only_the_path(
                grown.children[i],
                added.drop_first(),
                path.drop_first(),
            );
            if path.drop_first().is_prefix_of(added.drop_first()) {
                assert(path.is_prefix_of(added)) by {
                    assert forall|j: int| 0 <= j < path.len() implies path[j] == added[j] by {
                        if j > 0 {
                            assert(path.drop_first()[j - 1] == added.drop_first()[j - 1]);
                        }
                    }
                }
            } else if !t.has_key(added[0]) {
                assert(path.drop_first().len() == 0);
                assert(path.is_prefix_of(added));
            }
        } else {
            let j = position(after.children, key);
            assert(j != i);
            assert(j < t.children.len());
            assert(after.children[j] == t.children[j]);
            assert forall|m: int| 0 <= m < j implies t.children[m].key != key by {
                assert(after.children[m].key == t.children[m].key);
            }
            lemma_position_is(t.children, key, j);
        }
    }
}

/// Every tree extends itself.
pub proof fn lemma_extends_reflexive(t: Tree)
    ensures
        t.extends(t),
    decreases t,
{
    assert forall|i: int| 0 <= i < t.children.len() implies (#[trigger] t.children[i]).extends(
        t.children[i],
    ) by {
        lemma_extends_reflexive(t.children[i]);
    }
}

/// An extension of an extension is an extension.
pub proof fn lemma_extends_transitive(a: Tree, b: Tree, c: Tree)
    requires
        a.extends(b),
        b.extends(c),
    ensures
        a.extends(c),
    decreases c,
{
    assert forall|i: int| 0 <= i < c.children.len() implies (#[trigger] a.children[i]).extends(
        c.children[i],
    ) by {
        assert(b.children[i].extends(c.children[i]));
        lemma_extends_transitive(a.children[i], b.children[i], c.children[i]);
    }
}

/// A tree made to hold a path extends the tree it was.
pub proof fn lemma_ensure_path_extends(t: Tree, path: Path)
    ensures
        t.ensure_path(path).extends(t),
    decreases path.len(),
{
    lemma_extends_reflexive(t);
    if path.len() > 0 {
        let grown = if t.has_key(path[0]) {
            t
        } else {
            t.with_child(leaf(path[0]))
        };
        let i = position(t.children, path[0]);
        let after = t.ensure_path(path);
        lemma_position(t.children, path[0]);
        lemma_ensure_path_extends(grown.children[i], path.drop_first());
        assert forall|j: int| 0 <= j < t.children.len() implies (
        #[trigger] after.children[j]).extends(t.children[j]) by {
            lemma_extends_reflexive(t.children[j]);
        }
    }
}

/// What a tree holds, each of its extensions holds at the same place:
/// the keys found are found at the same index.
pub proof fn lemma_extends_position(t: Tree, base: Tree, key: Seq<char>)
    requires
        t.extends(base),
        base.has_key(key),
    ensures
        position(t.children, key) == position(base.children, key),
{
    lemma_position(base.children, key);
    let i = position(base.children, key);
    assert forall|j: int| 0 <= j <= i implies (#[trigger] t.children[j]).key
        == base.children[j].key by {
        assert(t.children[j].extends(base.children[j]));
    }
    lemma_position_is(t.children, key, i);
}

/// Every path of a tree is a path of each of its extensions.
pub proof fn lemma_extends_has_path(t: Tree, base: Tree, path: Path)
    requires
        t.extends(base),
        base.has_path(path),
    ensures
        t.has_path(path),
    decreases path.len(),
{
    if path.len() > 0 {
        lemma_position(base.children, path[0]);
        lemma_extends_position(t, base, path[0]);
        let i = position(base.children, path[0]);
        assert(t.children[i].extends(base.children[i]));
        lemma_extends_has_path(t.children[i], base.children[i], path.drop_first());
    }
}

} // verus!
