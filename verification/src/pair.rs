//! The configuration tree: a key and an ordered list of children, each
//! again such a tree. A node without children is a value; what a node with
//! several children means is for the reader of the configuration to say.

use crate::error::{ErrorKind, ErrorView, NcclError};
use crate::text::{debug_quoted, parse_text, same_text};
use crate::tree::{
    indentation, leaf, lemma_ensure_path_has_path, lemma_has_key, lemma_position,
    lemma_position_is, lemma_replace_at_same, position, Path, Tree,
};
use std::ops::Index;
use std::str::FromStr;
use vstd::prelude::*;
use vstd::string::StringExecFns;

verus! {

/// A node of the configuration tree. It owns its children; their order is
/// the order in which they were added.
#[derive(Debug)]
pub struct Pair {
    pub key: String,
    pub value: Vec<Pair>,
}

/// The trees that a list of nodes stands for, in order.
pub open spec fn forest(nodes: Seq<Pair>) -> Seq<Tree>
    decreases nodes,
{
    Seq::new(
        nodes.len(),
        |i: int|
            if 0 <= i < nodes.len() {
                nodes[i].model()
            } else {
                arbitrary()
            },
    )
}

impl View for Pair {
    type V = Tree;

    open spec fn view(&self) -> Tree {
        self.model()
    }
}

/// The texts of a path given as strings.
pub open spec fn path_view(path: Seq<String>) -> Path {
    path.map_values(|s: String| s@)
}

/// The texts of a path given as string slices.
pub open spec fn slice_path_view(path: Seq<&str>) -> Path {
    path.map_values(|s: &str| s@)
}

/// The error for a key that is looked up in `t` and not there.
pub open spec fn missing_key(t: Tree, key: Seq<char>) -> ErrorView {
    ErrorView {
        kind: ErrorKind::KeyNotFound,
        message: if t.children.len() == 0 {
            "Pair does not have key: "@ + key
        } else {
            "Could not find key: "@ + key
        },
        line: 0,
    }
}

/// Replacing one node of a list replaces its tree in the forest.
pub proof fn lemma_forest_update(nodes: Seq<Pair>, i: int, node: Pair)
    requires
        0 <= i < nodes.len(),
    ensures
        forest(nodes.update(i, node)) == forest(nodes).update(i, node@),
{
    assert(forest(nodes.update(i, node)) =~= forest(nodes).update(i, node@));
}

/// Appending a node to a list appends its tree to the forest.
pub proof fn lemma_forest_push(nodes: Seq<Pair>, node: Pair)
    ensures
        forest(nodes.push(node)) == forest(nodes).push(node@),
{
    assert(forest(nodes.push(node)) =~= forest(nodes).push(node@));
}

impl Pair {
    /// The tree this node stands for.
    pub open spec fn model(self) -> Tree
        decreases self,
    {
        Tree { key: self.key@, children: forest(self.value@) }
    }

    /// A leaf keyed `key`.
    pub fn new(key: &str) -> (node: Pair)
        ensures
            node@ == leaf(key@),
            node.value.len() == 0,
    {
        let node = Pair { key: key.to_owned(), value: Vec::new() };
        assert(node@.children =~= Seq::empty());
        node
    }

    /// A leaf that stands for the value `value`.
    pub fn new_from(value: &str) -> (node: Pair)
        ensures
            node@ == leaf(value@),
            node.value.len() == 0,
    {
        Pair::new(value)
    }

    /// Appends a new leaf keyed `value`, whether or not the node already
    /// has a child with that key.
    pub fn add(&mut self, value: &str)
        ensures
            final(self)@ == old(self)@.with_child(leaf(value@)),
    {
        self.push(Pair::new(value));
    }

    /// Appends `p` as the last child.
    pub fn push(&mut self, p: Pair)
        ensures
            final(self)@ == old(self)@.with_child(p@),
            final(self).key == old(self).key,
            final(self).value@ == old(self).value@.push(p),
    {
        proof {
            lemma_forest_push(self.value@, p);
        }
        self.value.push(p);
    }

    /// The index of the first child keyed `key`, or the number of
    /// children if there is none.
    fn find(&self, key: &str) -> (i: usize)
        ensures
            i == position(self@.children, key@),
            i <= self.value.len(),
            i < self.value.len() ==> self.value[i as int].key@ == key@,
    {
        let mut i: usize = 0;
        assert(self@.children.skip(0) =~= self@.children);
        while i < self.value.len()
            invariant
                i <= self.value.len(),
                position(self@.children, key@) == i + position(
                    self@.children.skip(i as int),
                    key@,
                ),
            decreases self.value.len() - i,
        {
            assert(self@.children.skip(i as int)[0] == self.value[i as int]@);
            if same_text(self.value[i].key.as_str(), key) {
                return i;
            }
            assert(self@.children.skip(i as int).drop_first() =~= self@.children.skip(i + 1));
            i += 1;
        }
        i
    }

    /// Whether some direct child is keyed `key`.
    pub fn has_key(&self, key: &str) -> (found: bool)
        ensures
            found == self@.has_key(key@),
            found <==> exists|i: int|
                0 <= i < self@.children.len() && self@.children[i].key == key@,
    {
        proof {
            lemma_has_key(self@, key@);
        }
        self.find(key) < self.value.len()
    }

    /// Whether `path` can be followed from this node, key by key.
    pub fn has_path(&self, path: &[&str]) -> (found: bool)
        ensures
            found == self@.has_path(slice_path_view(path@)),
    {
        let ghost keys = slice_path_view(path@);
        let mut node: &Pair = self;
        let mut k: usize = 0;
        assert(keys.skip(0) =~= keys);
        while k < path.len()
            invariant
                k <= path.len(),
                keys == slice_path_view(path@),
                self@.has_path(keys) == node@.has_path(keys.skip(k as int)),
            decreases path.len() - k,
        {
            assert(keys.skip(k as int)[0] == path[k as int]@);
            assert(keys.skip(k as int).drop_first() =~= keys.skip(k + 1));
            let i = node.find(path[k]);
            if i == node.value.len() {
                return false;
            }
            node = &node.value[i];
            k += 1;
        }
        true
    }

    /// The child at index `i`, for changing it in place.
    fn child_mut(&mut self, i: usize) -> (node: &mut Pair)
        requires
            i < old(self).value.len(),
        ensures
            *node == old(self).value[i as int],
            node@ == old(self)@.children[i as int],
            final(self).key == old(self).key,
            final(self).value@ == old(self).value@.update(i as int, *final(node)),
            forest(final(self).value@) == old(self)@.children.update(i as int, final(node)@),
            final(self)@ == (Tree {
                key: old(self)@.key,
                children: old(self)@.children.update(i as int, final(node)@),
            }),
    {
        proof {
            let nodes = self.value@;
            assert forall|p: Pair| #[trigger]
                forest(nodes.update(i as int, p)) == forest(nodes).update(i as int, p@) by {
                lemma_forest_update(nodes, i as int, p);
            }
        }
        &mut self.value[i]
    }

    /// The child keyed `key`, for changing it in place. Call only where
    /// the key is known to be there: see [`Pair::has_key`].
    pub fn index_mut(&mut self, key: &str) -> (node: &mut Pair)
        requires
            old(self)@.has_key(key@),
        ensures
            node@ == old(self)@.child(key@),
            final(self)@ == old(self)@.replace_child(key@, final(node)@),
    {
        let i = self.find(key);
        self.child_mut(i)
    }

    /// The child keyed `key`, for changing it in place, or a `KeyNotFound`
    /// error if there is none.
    pub fn get(&mut self, key: &str) -> (result: Result<&mut Pair, NcclError>)
        ensures
            match result {
                Ok(node) => {
                    &&& old(self)@.has_key(key@)
                    &&& node@ == old(self)@.child(key@)
                    &&& final(self)@ == old(self)@.replace_child(key@, final(node)@)
                },
                Err(e) => {
                    &&& !old(self)@.has_key(key@)
                    &&& final(self)@ == old(self)@
                    &&& e@ == missing_key(old(self)@, key@)
                },
            },
    {
        if self.has_key(key) {
            Ok(self.index_mut(key))
        } else {
            Err(self.missing(key))
        }
    }

    /// The child keyed `key`, or a `KeyNotFound` error if there is none.
    pub fn get_ref(&self, key: &str) -> (result: Result<&Pair, NcclError>)
        ensures
            match result {
                Ok(node) => self@.has_key(key@) && node@ == self@.child(key@),
                Err(e) => !self@.has_key(key@) && e@ == missing_key(self@, key@),
            },
    {
        let i = self.find(key);
        if i < self.value.len() {
            Ok(&self.value[i])
        } else {
            Err(self.missing(key))
        }
    }

    /// The error for looking up `key` where no child carries it.
    fn missing(&self, key: &str) -> (e: NcclError)
        ensures
            e@ == missing_key(self@, key@),
    {
        let prefix = if self.value.len() == 0 {
            "Pair does not have key: "
        } else {
            "Could not find key: "
        };
        let message = prefix.to_owned().concat(key);
        NcclError { kind: ErrorKind::KeyNotFound, message, line: 0 }
    }

    /// Walks down `path` from this node, going into the first child with
    /// each key and appending a leaf for a key that is not there, and
    /// returns the node reached, for changing it in place.
    pub fn traverse_path(&mut self, path: &[String]) -> (node: &mut Pair)
        ensures
            node@ == old(self)@.ensure_path(path_view(path@)).node_at(path_view(path@)),
            final(self)@ == old(self)@.ensure_path(path_view(path@)).replace_at(
                path_view(path@),
                final(node)@,
            ),
    {
        assert(path_view(path@).skip(0) =~= path_view(path@));
        self.traverse_from(path, 0)
    }

    /// [`Pair::traverse_path`] for what is left of `path` from `from` on.
    fn traverse_from(&mut self, path: &[String], from: usize) -> (node: &mut Pair)
        requires
            from <= path.len(),
        ensures
            node@ == old(self)@.ensure_path(path_view(path@).skip(from as int)).node_at(
                path_view(path@).skip(from as int),
            ),
            final(self)@ == old(self)@.ensure_path(path_view(path@).skip(from as int)).replace_at(
                path_view(path@).skip(from as int),
                final(node)@,
            ),
        decreases path.len() - from,
    {
        if from == path.len() {
            self
        } else {
            let ghost keys = path_view(path@).skip(from as int);
            let ghost rest = path_view(path@).skip(from + 1);
            let ghost before = self@;
            let i = self.find(path[from].as_str());
            if i == self.value.len() {
                self.push(Pair::new(path[from].as_str()));
            }
            proof {
                assert(keys[0] == path[from as int]@);
                assert(keys.drop_first() =~= rest);
                lemma_position(before.children, keys[0]);
                let grown = self@;
                let nodes = self.value@;
                assert(grown.children[i as int] == nodes[i as int]@);
                let deeper = grown.children[i as int].ensure_path(rest);
                let ensured = before.ensure_path(keys);
                assert(ensured.children == grown.children.update(i as int, deeper));
                lemma_position_is(ensured.children, keys[0], i as int);
                assert forall|t: Tree| #[trigger]
                    ensured.replace_child(keys[0], t).children == grown.children.update(
                        i as int,
                        t,
                    ) by {
                    assert(ensured.children.update(i as int, t) =~= grown.children.update(
                        i as int,
                        t,
                    ));
                }
            }
            let child = self.child_mut(i);
            child.traverse_from(path, from + 1)
        }
    }

    /// Makes the tree hold `path`: the walk of [`Pair::traverse_path`],
    /// for its effect alone. A path that is already there adds nothing.
    pub fn add_slice(&mut self, path: &[String])
        ensures
            final(self)@ == old(self)@.ensure_path(path_view(path@)),
    {
        proof {
            lemma_ensure_path_has_path(self@, path_view(path@));
            lemma_replace_at_same(self@.ensure_path(path_view(path@)), path_view(path@));
        }
        let _ = self.traverse_path(path);
    }

    /// Whether some direct child equals `other`, key and descendants.
    fn holds(&self, other: &Pair) -> (found: bool)
        ensures
            found == self@.has_child(other@),
    {
        let mut i: usize = 0;
        while i < self.value.len()
            invariant
                i <= self.value.len(),
                forall|j: int| 0 <= j < i ==> self@.children[j] != other@,
            decreases self.value.len() - i,
        {
            assert(self@.children[i as int] == self.value[i as int]@);
            if self.value[i].same_as(other) {
                return true;
            }
            i += 1;
        }
        false
    }

    /// Merges `other` into this node. Where a child equal to `other`, key
    /// and descendants, is already there, `other` is appended beside it.
    /// Otherwise the first child keyed as `other` takes over the children
    /// of `other` in place of its own. Call only where a child with the
    /// key of `other` is known to be there: see [`Pair::has_key`].
    pub fn merge(&mut self, other: Pair)
        requires
            old(self)@.has_key(other@.key),
        ensures
            final(self)@ == old(self)@.merge(other@),
    {
        if self.holds(&other) {
            self.push(other);
        } else {
            let i = self.find(other.key.as_str());
            let child = self.child_mut(i);
            child.value = other.value;
        }
    }

    /// Whether the two nodes stand for the same tree.
    pub fn same_as(&self, other: &Pair) -> (same: bool)
        ensures
            same == (self@ == other@),
        decreases self,
    {
        if !same_text(self.key.as_str(), other.key.as_str()) {
            return false;
        }
        if self.value.len() != other.value.len() {
            assert(self@.children.len() != other@.children.len());
            return false;
        }
        let mut i: usize = 0;
        while i < self.value.len()
            invariant
                i <= self.value.len(),
                self.value.len() == other.value.len(),
                forall|j: int| 0 <= j < i ==> self.value[j]@ == other.value[j]@,
            decreases self.value.len() - i,
        {
            if !self.value[i].same_as(&other.value[i]) {
                assert(self@.children[i as int] == self.value[i as int]@);
                assert(other@.children[i as int] == other.value[i as int]@);
                return false;
            }
            i += 1;
        }
        assert(self@.children =~= other@.children);
        true
    }

    /// The key of the only child, or `None` where the node has no child
    /// or more than one.
    pub fn value(&self) -> (only: Option<String>)
        ensures
            match only {
                Some(text) => self@.value() == Some(text@),
                None => self@.value().is_none(),
            },
    {
        if self.value.len() == 1 {
            assert(self@.children[0] == self.value[0]@);
            Some(self.value[0].key.clone())
        } else {
            None
        }
    }

    /// The key of the only child, or `or` where there is not exactly one.
    pub fn value_or(&self, or: String) -> (text: String)
        ensures
            text@ == match self@.value() {
                Some(only) => only,
                None => or@,
            },
    {
        match self.value() {
            Some(text) => text,
            None => or,
        }
    }

    /// The keys of the direct children, in order.
    pub fn keys(&self) -> (keys: Vec<String>)
        ensures
            path_view(keys@) == self@.keys(),
    {
        let mut keys: Vec<String> = Vec::new();
        let mut i: usize = 0;
        while i < self.value.len()
            invariant
                i <= self.value.len(),
                keys.len() == i,
                forall|j: int| 0 <= j < i ==> keys[j]@ == self.value[j].key@,
            decreases self.value.len() - i,
        {
            keys.push(self.value[i].key.clone());
            i += 1;
        }
        assert forall|j: int| 0 <= j < self.value.len() implies path_view(keys@)[j]
            == self@.keys()[j] by {
            assert(self@.children[j] == self.value[j]@);
        }
        assert(path_view(keys@) =~= self@.keys());
        keys
    }
}

/// The error of a conversion that failed.
pub open spec fn conversion_failure(message: &str) -> ErrorView {
    ErrorView { kind: ErrorKind::ConversionError, message: message@, line: 0 }
}

/// What [`Pair::parse`] returns for a node with one value, given that
/// value as the requested type read it: the value, or an error if it was
/// refused.
pub fn converted<T>(parsed: Option<T>) -> (result: Result<T, NcclError>)
    ensures
        match result {
            Ok(v) => parsed == Some(v),
            Err(e) => parsed.is_none() && e@ == conversion_failure("could not parse value"),
        },
{
    match parsed {
        Some(v) => Ok(v),
        None => Err(NcclError::new(ErrorKind::ConversionError, "could not parse value", 0)),
    }
}

/// What [`Pair::keys_as`] returns, given each key as the requested type
/// read it: all the values in order, or an error if one was refused.
pub fn all_converted<T>(parsed: Vec<Option<T>>) -> (result: Result<Vec<T>, NcclError>)
    ensures
        result.is_err() <==> exists|i: int| 0 <= i < parsed.len() && parsed[i].is_none(),
        match result {
            Ok(values) => parsed@ == values@.map_values(|v: T| Some(v)),
            Err(e) => e@ == conversion_failure("Could not convert to T"),
        },
{
    let mut values: Vec<T> = Vec::new();
    for item in it: parsed
        invariant
            it.seq() == parsed@,
            values.len() == it.index(),
            forall|j: int| 0 <= j < it.index() ==> parsed[j] == Some(values[j]),
    {
        match item {
            Some(v) => {
                values.push(v);
            },
            None => {
                assert(parsed[it.index() as int].is_none());
                return Err(
                    NcclError::new(ErrorKind::ConversionError, "Could not convert to T", 0),
                );
            },
        }
    }
    assert(parsed@ =~= values@.map_values(|v: T| Some(v)));
    Ok(values)
}

/// One line of a dump: the indentation, then the key as it is to be
/// shown, then a line feed.
pub fn render_line(indent: &str, shown: &str) -> (line: String)
    ensures
        line@ == indent@ + shown@ + seq!['\n'],
{
    let mut line = indent.to_owned();
    line.append(shown);
    line.append("\n");
    proof {
        reveal_strlit("\n");
        assert("\n"@ =~= seq!['\n']);
    }
    line
}

impl Pair {
    /// The only value of the node read as a `T`. A node with no child or
    /// with several, and a value that `T` refuses, give a conversion error.
    pub fn parse<T: FromStr>(&self) -> (result: Result<T, NcclError>)
        ensures
            self@.value().is_none() ==> result.is_err(),
            result matches Err(e) ==> e@ == conversion_failure("could not parse value"),
    {
        match self.value() {
            Some(text) => converted(parse_text::<T>(text.as_str())),
            None => converted(None),
        }
    }

    /// Every key read as a `T`, in order. One key that `T` refuses gives a
    /// conversion error, and none of the values.
    pub fn keys_as<T: FromStr>(&self) -> (result: Result<Vec<T>, NcclError>)
        ensures
            self@.children.len() == 0 ==> result.is_ok(),
            result matches Ok(values) ==> values.len() == self@.children.len(),
            result matches Err(e) ==> e@ == conversion_failure("Could not convert to T"),
    {
        let mut parsed: Vec<Option<T>> = Vec::new();
        let mut i: usize = 0;
        while i < self.value.len()
            invariant
                i <= self.value.len(),
                parsed.len() == i,
                forall|j: int| 0 <= j < i ==> parsed[j].is_some(),
            decreases self.value.len() - i,
        {
            let read = parse_text::<T>(self.value[i].key.as_str());
            let refused = read.is_none();
            parsed.push(read);
            if refused {
                assert(parsed[i as int].is_none());
                return all_converted(parsed);
            }
            i += 1;
        }
        all_converted(parsed)
    }

    /// The dump of the tree: one line for each node, depth first, each
    /// child four spaces deeper than its parent, each key in its `Debug`
    /// form.
    pub fn pretty_print(&self) -> (dump: String)
        ensures
            dump@ == self@.render(0),
    {
        let mut dump = String::new();
        proof {
            reveal_strlit("");
            assert(""@ =~= indentation(0));
        }
        self.render_into("", Ghost(0), &mut dump);
        dump
    }

    /// Appends the dump of this tree, its root at depth `depth`, to `out`.
    fn render_into(&self, prefix: &str, Ghost(depth): Ghost<nat>, out: &mut String)
        requires
            prefix@ == indentation(depth),
        ensures
            final(out)@ == old(out)@ + self@.render(depth),
        decreases self,
    {
        let shown = debug_quoted(self.key.as_str());
        out.append(render_line(prefix, shown.as_str()).as_str());
        let deeper = prefix.to_owned().concat("    ");
        let ghost start = out@;
        let mut i: usize = 0;
        while i < self.value.len()
            invariant
                i <= self.value.len(),
                deeper@ == indentation(depth + 1),
                out@ + self@.render_children(i as nat, depth + 1) == start + self@.render_children(
                    0,
                    depth + 1,
                ),
            decreases self.value.len() - i,
        {
            let ghost before = out@;
            assert(self@.children[i as int] == self.value[i as int]@);
            self.value[i].render_into(deeper.as_str(), Ghost(depth + 1), out);
            assert(out@ + self@.render_children((i + 1) as nat, depth + 1) =~= before
                + self@.render_children(i as nat, depth + 1));
            i += 1;
        }
        assert(out@ + Seq::<char>::empty() =~= out@);
        assert(old(out)@ + self@.render(depth) =~= start + self@.render_children(0, depth + 1));
    }
}

impl Clone for Pair {
    /// A copy of the whole tree.
    fn clone(&self) -> (copy: Pair)
        ensures
            copy@ == self@,
        decreases self,
    {
        let mut value: Vec<Pair> = Vec::new();
        let mut i: usize = 0;
        while i < self.value.len()
            invariant
                i <= self.value.len(),
                value.len() == i,
                forall|j: int| 0 <= j < i ==> value[j]@ == self.value[j]@,
            decreases self.value.len() - i,
        {
            let child = self.value[i].clone();
            value.push(child);
            i += 1;
        }
        let copy = Pair { key: self.key.clone(), value };
        assert(copy@.children =~= self@.children);
        copy
    }
}

impl PartialEq for Pair {
    /// Two nodes are equal where they stand for the same tree.
    fn eq(&self, other: &Pair) -> (same: bool) {
        self.same_as(other)
    }
}

impl vstd::std_specs::cmp::PartialEqSpecImpl for Pair {
    open spec fn obeys_eq_spec() -> bool {
        true
    }

    open spec fn eq_spec(&self, other: &Pair) -> bool {
        self@ == other@
    }
}

impl<'a> Index<&'a str> for Pair {
    type Output = Pair;

    /// The child keyed `key`. Indexing by a key that is not there is a
    /// fault of the caller: see [`Pair::has_key`].
    fn index(&self, key: &'a str) -> (node: &Pair)
        ensures
            node@ == self@.child(key@),
    {
        let i = self.find(key);
        &self.value[i]
    }
}

impl<'a> vstd::std_specs::core::IndexSpecImpl<&'a str> for Pair {
    open spec fn index_req(&self, key: &&'a str) -> bool {
        self@.has_key(key@)
    }
}

impl<'a> Index<&'a String> for Pair {
    type Output = Pair;

    /// The child keyed `key`, for a key that is held as a `String`, such
    /// as those that [`Pair::keys`] hands out.
    fn index(&self, key: &'a String) -> (node: &Pair)
        ensures
            node@ == self@.child(key@),
    {
        let i = self.find(key.as_str());
        &self.value[i]
    }
}

impl<'a> vstd::std_specs::core::IndexSpecImpl<&'a String> for Pair {
    open spec fn index_req(&self, key: &&'a String) -> bool {
        self@.has_key(key@)
    }
}

} // verus!
