//! A prefix tree (trie) over characters.
//!
//! The trie stores a finite set of non-empty words. Each node carries the
//! character it represents, an end-of-word flag, and its children; a sentinel
//! root (never a terminal) anchors the tree. Deletion prunes branches that no
//! longer lead to any stored word, so no node other than the root is ever both
//! unmarked and childless. The abstract view of a trie is the set of words it
//! holds, as a `Set<Seq<char>>`.

use vstd::prelude::*;

pub mod laws;

verus! {

/// One node of the trie: the character labelling the edge from its parent,
/// a flag marking the end of a stored word, and the child nodes, at most one
/// per character.
#[derive(Debug)]
pub struct TNode {
    pub value: char,
    pub is_end: bool,
    pub children: Vec<TNode>,
}

impl TNode {
    /// No two children of this node carry the same character.
    pub open spec fn distinct_children(self) -> bool {
        forall|i: int, j: int|
            0 <= i < j < self.children.len()
                ==> self.children[i].value != self.children[j].value
    }

    /// A node is empty when it neither ends a word nor has children.
    /// Empty nodes are pruned: they never persist in a well-formed tree.
    pub open spec fn is_empty_spec(self) -> bool {
        !self.is_end && self.children.len() == 0
    }

    /// Well-formedness of the subtree rooted here: children carry distinct
    /// characters, and every child is itself well-formed and non-empty.
    /// (The node itself may be empty: whether that is allowed is its
    /// parent's concern, and the root is allowed to be empty.)
    pub open spec fn wf(self) -> bool
        decreases self,
    {
        &&& self.distinct_children()
        &&& forall|i: int|
            #![trigger self.children[i]]
            0 <= i < self.children.len()
                ==> self.children[i].wf() && !self.children[i].is_empty_spec()
    }

    /// Does this node have a child labelled `c`?
    pub open spec fn has_child_spec(self, c: char) -> bool {
        exists|i: int| 0 <= i < self.children.len() && self.children[i].value == c
    }

    /// The child labelled `c` (unique when the children are distinct).
    pub open spec fn child_spec(self, c: char) -> TNode
        recommends
            self.has_child_spec(c),
    {
        self.children[choose|i: int|
            0 <= i < self.children.len() && self.children[i].value == c]
    }

    /// Does the subtree rooted at this node store the word `w`?
    /// Walking the path spelled by `w` must reach a node marked as an end.
    pub open spec fn contains_spec(self, w: Seq<char>) -> bool
        decreases w.len(),
    {
        if w.len() == 0 {
            self.is_end
        } else if self.has_child_spec(w[0]) {
            self.child_spec(w[0]).contains_spec(w.skip(1))
        } else {
            false
        }
    }

    /// Make a fresh node with no children.
    pub fn new(value: char, is_end: bool) -> (n: Self)
        ensures
            n.value == value,
            n.is_end == is_end,
            n.children@ == Seq::<TNode>::empty(),
            n.wf(),
    {
        Self { value, is_end, children: Vec::new() }
    }

    /// The index of the child labelled `c`, if there is one.
    fn find_child(&self, c: char) -> (r: Option<usize>)
        ensures
            match r {
                Some(j) => j < self.children.len() && self.children[j as int].value == c,
                None => !self.has_child_spec(c),
            },
    {
        let n = self.children.len();
        for j in 0..n
            invariant
                n == self.children.len(),
                forall|k: int| 0 <= k < j ==> self.children[k].value != c,
        {
            if self.children[j].value == c {
                return Some(j);
            }
        }
        None
    }

    /// Borrow the child labelled `key` mutably, if there is one.  The rest
    /// of the node is untouched: whatever the caller makes of the child,
    /// the node ends up with its old children, that one replaced.
    pub fn get_mut(&mut self, key: &char) -> (r: Option<&mut TNode>)
        ensures
            match r {
                Some(child) => {
                    &&& old(self).has_child_spec(*key)
                    &&& final(self).value == old(self).value
                    &&& final(self).is_end == old(self).is_end
                    &&& (exists|j: int|
                        0 <= j < old(self).children.len() && old(self).children[j].value == *key
                            && old(self).children[j] == *child && final(self).children@ == old(
                            self,
                        ).children@.update(j, *final(child)))
                },
                None => {
                    &&& !old(self).has_child_spec(*key)
                    &&& *final(self) == *old(self)
                },
            },
    {
        match self.find_child(*key) {
            Some(j) => Some(&mut self.children[j]),
            None => None,
        }
    }

    /// Does this node have a child labelled `ch`?
    pub fn has(&self, ch: &char) -> (r: bool)
        ensures
            r == self.has_child_spec(*ch),
    {
        self.find_child(*ch).is_some()
    }

    /// Is this node empty (no end mark, no children)?
    pub fn is_empty(&self) -> (r: bool)
        ensures
            r == self.is_empty_spec(),
    {
        !self.is_end && self.children.len() == 0
    }
}

impl TNode {
    /// With distinct child labels, the child found at an index is the child
    /// `child_spec` selects for that index's label.
    pub(crate) proof fn lemma_child_at(self, i: int)
        requires
            self.distinct_children(),
            0 <= i < self.children.len(),
        ensures
            self.has_child_spec(self.children[i].value),
            self.child_spec(self.children[i].value) == self.children[i],
    {
        let c = self.children[i].value;
        assert(self.has_child_spec(c));
        let k = choose|k: int| 0 <= k < self.children.len() && self.children[k].value == c;
        if k < i {
            assert(self.children[k].value != self.children[i].value);
        } else if i < k {
            assert(self.children[i].value != self.children[k].value);
        }
    }
}

/// A node that neither ends a word nor has children stores nothing.
proof fn lemma_childless_has_no_words(n: TNode)
    requires
        !n.is_end,
        n.children.len() == 0,
    ensures
        forall|v: Seq<char>| !n.contains_spec(v),
{
    assert forall|v: Seq<char>| !n.contains_spec(v) by {
        if v.len() > 0 {
            assert(!n.has_child_spec(v[0]));
        }
    }
}

/// A non-empty word equals its head prepended to its tail.
proof fn lemma_cons_skip(v: Seq<char>)
    requires
        v.len() > 0,
    ensures
        v == seq![v[0]] + v.skip(1),
{
    assert(v =~= seq![v[0]] + v.skip(1));
}

/// Replacing the child at index `j` by a node with the same label turns the
/// words below `pre` into the words below `post`, up to the replaced subtree:
/// `post` stores exactly the words `pre` stored, except that along the label
/// of that child, the stored tails are those of the new subtree.
proof fn lemma_replace_child(pre: TNode, post: TNode, newc: TNode, j: int)
    requires
        pre.distinct_children(),
        0 <= j < pre.children.len(),
        newc.value == pre.children[j].value,
        post.value == pre.value,
        post.is_end == pre.is_end,
        post.children@ == pre.children@.update(j, newc),
    ensures
        post.distinct_children(),
        post.has_child_spec(newc.value),
        post.child_spec(newc.value) == newc,
        forall|c: char| post.has_child_spec(c) == pre.has_child_spec(c),
        forall|c: char|
            c != newc.value && pre.has_child_spec(c)
                ==> post.child_spec(c) == pre.child_spec(c),
        forall|v: Seq<char>|
            v.len() == 0 || v[0] != newc.value
                ==> post.contains_spec(v) == pre.contains_spec(v),
        forall|v: Seq<char>|
            v.len() > 0 && v[0] == newc.value
                ==> post.contains_spec(v) == newc.contains_spec(v.skip(1)),
{
    let c0 = newc.value;
    assert(forall|k: int|
        0 <= k < post.children.len() ==> post.children[k].value == pre.children[k].value);
    assert(post.distinct_children());
    assert forall|c: char| post.has_child_spec(c) == pre.has_child_spec(c) by {
        if pre.has_child_spec(c) {
            let k = choose|k: int|
                0 <= k < pre.children.len() && pre.children[k].value == c;
            assert(post.children[k].value == c);
        }
        if post.has_child_spec(c) {
            let k = choose|k: int|
                0 <= k < post.children.len() && post.children[k].value == c;
            assert(pre.children[k].value == c);
        }
    }
    post.lemma_child_at(j);
    assert forall|c: char|
        c != c0 && pre.has_child_spec(c) implies post.child_spec(c) == pre.child_spec(c) by {
        let k = choose|k: int|
            0 <= k < pre.children.len() && pre.children[k].value == c;
        pre.lemma_child_at(k);
        assert(k != j);
        assert(post.children[k] == pre.children[k]);
        post.lemma_child_at(k);
    }
    pre.lemma_child_at(j);
    assert forall|v: Seq<char>|
        v.len() == 0 || v[0] != c0 implies post.contains_spec(v) == pre.contains_spec(v) by {
        if v.len() > 0 && pre.has_child_spec(v[0]) {
            assert(post.child_spec(v[0]) == pre.child_spec(v[0]));
        }
    }
    assert forall|v: Seq<char>|
        v.len() > 0 && v[0] == c0 implies post.contains_spec(v) == newc.contains_spec(
        v.skip(1),
    ) by {
        assert(post.child_spec(c0) == newc);
    }
}

/// Appending a child with a label no other child carries keeps the words
/// along the other labels, and along the new label stores exactly the tails
/// stored by the new subtree.
proof fn lemma_append_child(pre: TNode, post: TNode, newc: TNode)
    requires
        pre.distinct_children(),
        !pre.has_child_spec(newc.value),
        post.value == pre.value,
        post.is_end == pre.is_end,
        post.children@ == pre.children@.push(newc),
    ensures
        post.distinct_children(),
        post.has_child_spec(newc.value),
        post.child_spec(newc.value) == newc,
        forall|c: char|
            c != newc.value ==> post.has_child_spec(c) == pre.has_child_spec(c),
        forall|c: char|
            c != newc.value && pre.has_child_spec(c)
                ==> post.child_spec(c) == pre.child_spec(c),
        forall|v: Seq<char>|
            v.len() == 0 || v[0] != newc.value
                ==> post.contains_spec(v) == pre.contains_spec(v),
        forall|v: Seq<char>|
            v.len() > 0 && v[0] == newc.value
                ==> post.contains_spec(v) == newc.contains_spec(v.skip(1)),
{
    let c0 = newc.value;
    let n = pre.children.len() as int;
    assert(forall|k: int| 0 <= k < n ==> post.children[k] == pre.children[k]);
    assert(post.children[n] == newc);
    assert forall|i: int, j: int|
        0 <= i < j < post.children.len() implies post.children[i].value
        != post.children[j].value by {
        if j == n {
            assert(pre.children[i].value != c0);
        }
    }
    post.lemma_child_at(n);
    assert forall|c: char|
        c != c0 implies post.has_child_spec(c) == pre.has_child_spec(c) by {
        if pre.has_child_spec(c) {
            let k = choose|k: int| 0 <= k < n && pre.children[k].value == c;
            assert(post.children[k].value == c);
        }
        if post.has_child_spec(c) {
            let k = choose|k: int|
                0 <= k < post.children.len() && post.children[k].value == c;
            assert(k != n);
            assert(pre.children[k].value == c);
        }
    }
    assert forall|c: char|
        c != c0 && pre.has_child_spec(c) implies post.child_spec(c) == pre.child_spec(c) by {
        let k = choose|k: int| 0 <= k < n && pre.children[k].value == c;
        pre.lemma_child_at(k);
        post.lemma_child_at(k);
    }
    assert forall|v: Seq<char>|
        v.len() == 0 || v[0] != c0 implies post.contains_spec(v) == pre.contains_spec(v) by {
        if v.len() > 0 {
            if pre.has_child_spec(v[0]) {
                assert(post.child_spec(v[0]) == pre.child_spec(v[0]));
            } else {
                assert(!post.has_child_spec(v[0]));
            }
        }
    }
    assert forall|v: Seq<char>|
        v.len() > 0 && v[0] == c0 implies post.contains_spec(v) == newc.contains_spec(
        v.skip(1),
    ) by {
        assert(post.child_spec(c0) == newc);
    }
}

/// Replacing the child at `j` by a well-formed subtree with the same label
/// that stores the old subtree's words plus the tail `tail` yields a
/// well-formed node storing the old words plus the label followed by `tail`.
proof fn lemma_insert_step(pre: TNode, post: TNode, newc: TNode, j: int, tail: Seq<char>)
    requires
        pre.wf(),
        0 <= j < pre.children.len(),
        newc.value == pre.children[j].value,
        post.value == pre.value,
        post.is_end == pre.is_end,
        post.children@ == pre.children@.update(j, newc),
        newc.wf(),
        !newc.is_empty_spec(),
        forall|u: Seq<char>|
            newc.contains_spec(u) == (pre.children[j].contains_spec(u) || u == tail),
    ensures
        post.wf(),
        !post.is_empty_spec(),
        forall|v: Seq<char>|
            post.contains_spec(v) == (pre.contains_spec(v) || v == seq![newc.value] + tail),
{
    let c0 = newc.value;
    let ws = seq![c0] + tail;
    lemma_replace_child(pre, post, newc, j);
    pre.lemma_child_at(j);
    assert(post.wf()) by {
        assert forall|k: int|
            0 <= k < post.children.len() implies post.children[k].wf()
            && !post.children[k].is_empty_spec() by {
            if k != j {
                assert(post.children[k] == pre.children[k]);
            }
        }
    }
    assert forall|v: Seq<char>|
        post.contains_spec(v) == (pre.contains_spec(v) || v == ws) by {
        if v.len() > 0 && v[0] == c0 {
            assert(post.contains_spec(v) == newc.contains_spec(v.skip(1)));
            assert(pre.contains_spec(v) == pre.children[j].contains_spec(v.skip(1)));
            assert(v == ws <==> v.skip(1) == tail) by {
                if v.skip(1) == tail {
                    lemma_cons_skip(v);
                }
                if v == ws {
                    assert(v.skip(1) =~= tail);
                }
            }
        } else {
            assert(v != ws) by {
                assert(ws.len() > 0 && ws[0] == c0);
            }
        }
    }
}

/// Adding a fresh child whose label no other child carries, well-formed and
/// storing exactly the tail `tail`, yields a well-formed node storing the
/// old words plus the label followed by `tail`.
proof fn lemma_insert_step_fresh(pre: TNode, post: TNode, newc: TNode, tail: Seq<char>)
    requires
        pre.wf(),
        !pre.has_child_spec(newc.value),
        post.value == pre.value,
        post.is_end == pre.is_end,
        post.children@ == pre.children@.push(newc),
        newc.wf(),
        !newc.is_empty_spec(),
        forall|u: Seq<char>| newc.contains_spec(u) == (u == tail),
    ensures
        post.wf(),
        !post.is_empty_spec(),
        forall|v: Seq<char>|
            post.contains_spec(v) == (pre.contains_spec(v) || v == seq![newc.value] + tail),
{
    let c0 = newc.value;
    let ws = seq![c0] + tail;
    lemma_append_child(pre, post, newc);
    assert(post.wf()) by {
        assert forall|k: int|
            0 <= k < post.children.len() implies post.children[k].wf()
            && !post.children[k].is_empty_spec() by {
            if k < post.children.len() - 1 {
                assert(post.children[k] == pre.children[k]);
            } else {
                assert(post.children[k] == newc);
            }
        }
    }
    assert forall|v: Seq<char>|
        post.contains_spec(v) == (pre.contains_spec(v) || v == ws) by {
        if v.len() > 0 && v[0] == c0 {
            assert(post.contains_spec(v) == newc.contains_spec(v.skip(1)));
            assert(!pre.contains_spec(v));
            assert(v == ws <==> v.skip(1) == tail) by {
                if v.skip(1) == tail {
                    lemma_cons_skip(v);
                }
                if v == ws {
                    assert(v.skip(1) =~= tail);
                }
            }
        } else {
            assert(v != ws) by {
                assert(ws.len() > 0 && ws[0] == c0);
            }
        }
    }
}

/// Removing the child at `j` removes its label entirely (no other child
/// carries it) and keeps the words along every other label.
proof fn lemma_remove_child(pre: TNode, post: TNode, j: int)
    requires
        pre.distinct_children(),
        0 <= j < pre.children.len(),
        post.value == pre.value,
        post.is_end == pre.is_end,
        post.children@ == pre.children@.remove(j),
    ensures
        post.distinct_children(),
        !post.has_child_spec(pre.children[j].value),
        forall|c: char|
            c != pre.children[j].value ==> post.has_child_spec(c) == pre.has_child_spec(c),
        forall|c: char|
            c != pre.children[j].value && pre.has_child_spec(c)
                ==> post.child_spec(c) == pre.child_spec(c),
        forall|v: Seq<char>|
            v.len() == 0 || v[0] != pre.children[j].value
                ==> post.contains_spec(v) == pre.contains_spec(v),
        forall|v: Seq<char>|
            v.len() > 0 && v[0] == pre.children[j].value ==> !post.contains_spec(v),
{
    let c0 = pre.children[j].value;
    pre.children@.remove_ensures(j);
    assert(forall|k: int| 0 <= k < j ==> post.children[k] == pre.children[k]);
    assert(forall|k: int|
        j <= k < post.children.len() ==> post.children[k] == pre.children[k + 1]);
    assert forall|i: int, k: int|
        0 <= i < k < post.children.len() implies post.children[i].value
        != post.children[k].value by {
        let i2: int = if i < j { i } else { i + 1 };
        let k2: int = if k < j { k } else { k + 1 };
        assert(pre.children[i2].value != pre.children[k2].value);
    }
    assert forall|k: int|
        0 <= k < post.children.len() implies post.children[k].value != c0 by {
        let k2: int = if k < j { k } else { k + 1 };
        if k2 < j {
            assert(pre.children[k2].value != pre.children[j].value);
        } else {
            assert(pre.children[j].value != pre.children[k2].value);
        }
    }
    assert forall|c: char|
        c != c0 implies post.has_child_spec(c) == pre.has_child_spec(c) by {
        if pre.has_child_spec(c) {
            let k = choose|k: int|
                0 <= k < pre.children.len() && pre.children[k].value == c;
            if k < j {
                assert(post.children[k].value == c);
            } else {
                assert(k != j);
                assert(post.children[k - 1].value == c);
            }
        }
        if post.has_child_spec(c) {
            let k = choose|k: int|
                0 <= k < post.children.len() && post.children[k].value == c;
            let k2: int = if k < j { k } else { k + 1 };
            assert(pre.children[k2].value == c);
        }
    }
    assert forall|c: char|
        c != c0 && pre.has_child_spec(c) implies post.child_spec(c) == pre.child_spec(c) by {
        let k = choose|k: int|
            0 <= k < pre.children.len() && pre.children[k].value == c;
        pre.lemma_child_at(k);
        if k < j {
            post.lemma_child_at(k);
        } else {
            post.lemma_child_at(k - 1);
        }
    }
    assert forall|v: Seq<char>|
        v.len() == 0 || v[0] != c0 implies post.contains_spec(v) == pre.contains_spec(v) by {
        if v.len() > 0 {
            if pre.has_child_spec(v[0]) {
                assert(post.child_spec(v[0]) == pre.child_spec(v[0]));
            } else {
                assert(!post.has_child_spec(v[0]));
            }
        }
    }
    assert forall|v: Seq<char>|
        v.len() > 0 && v[0] == c0 implies !post.contains_spec(v) by {
        assert(!post.has_child_spec(v[0]));
    }
}

/// Replacing the child at `j` by a well-formed subtree with the same label
/// that stores the old subtree's words except the tail `tail` yields a
/// well-formed node storing the old words except the label followed by `tail`.
proof fn lemma_delete_step(pre: TNode, post: TNode, newc: TNode, j: int, tail: Seq<char>)
    requires
        pre.wf(),
        0 <= j < pre.children.len(),
        newc.value == pre.children[j].value,
        post.value == pre.value,
        post.is_end == pre.is_end,
        post.children@ == pre.children@.update(j, newc),
        newc.wf(),
        !newc.is_empty_spec(),
        forall|u: Seq<char>|
            newc.contains_spec(u) == (pre.children[j].contains_spec(u) && u != tail),
    ensures
        post.wf(),
        forall|v: Seq<char>|
            post.contains_spec(v) == (pre.contains_spec(v) && v != seq![newc.value] + tail),
{
    let c0 = newc.value;
    let ws = seq![c0] + tail;
    lemma_replace_child(pre, post, newc, j);
    pre.lemma_child_at(j);
    assert(post.wf()) by {
        assert forall|k: int|
            0 <= k < post.children.len() implies post.children[k].wf()
            && !post.children[k].is_empty_spec() by {
            if k != j {
                assert(post.children[k] == pre.children[k]);
            }
        }
    }
    assert forall|v: Seq<char>|
        post.contains_spec(v) == (pre.contains_spec(v) && v != ws) by {
        if v.len() > 0 && v[0] == c0 {
            assert(post.contains_spec(v) == newc.contains_spec(v.skip(1)));
            assert(pre.contains_spec(v) == pre.children[j].contains_spec(v.skip(1)));
            assert(v == ws <==> v.skip(1) == tail) by {
                if v.skip(1) == tail {
                    lemma_cons_skip(v);
                }
                if v == ws {
                    assert(v.skip(1) =~= tail);
                }
            }
        } else {
            assert(v != ws) by {
                assert(ws.len() > 0 && ws[0] == c0);
            }
        }
    }
}

/// Pruning the child at `j` after its subtree has been emptied down to at
/// most the tail `tail` yields a well-formed node storing the old words
/// except the label followed by `tail`.
proof fn lemma_delete_step_prune(pre: TNode, post: TNode, j: int, tail: Seq<char>)
    requires
        pre.wf(),
        0 <= j < pre.children.len(),
        post.value == pre.value,
        post.is_end == pre.is_end,
        post.children@ == pre.children@.remove(j),
        forall|u: Seq<char>| pre.children[j].contains_spec(u) ==> u == tail,
    ensures
        post.wf(),
        forall|v: Seq<char>|
            post.contains_spec(v) == (pre.contains_spec(v) && v != seq![pre.children[j].value]
                + tail),
{
    let c0 = pre.children[j].value;
    let ws = seq![c0] + tail;
    lemma_remove_child(pre, post, j);
    pre.lemma_child_at(j);
    pre.children@.remove_ensures(j);
    assert(post.wf()) by {
        assert forall|k: int|
            0 <= k < post.children.len() implies post.children[k].wf()
            && !post.children[k].is_empty_spec() by {
            let k2: int = if k < j { k } else { k + 1 };
            assert(post.children[k] == pre.children[k2]);
        }
    }
    assert forall|v: Seq<char>|
        post.contains_spec(v) == (pre.contains_spec(v) && v != ws) by {
        if v.len() > 0 && v[0] == c0 {
            assert(!post.contains_spec(v));
            assert(pre.contains_spec(v) == pre.children[j].contains_spec(v.skip(1)));
            if pre.children[j].contains_spec(v.skip(1)) {
                assert(v.skip(1) == tail);
                lemma_cons_skip(v);
                assert(v == ws);
            }
        } else {
            assert(v != ws) by {
                assert(ws.len() > 0 && ws[0] == c0);
            }
        }
    }
}

/// Two nodes with the same children store the same words along every
/// non-empty path, whatever their end flags.
proof fn lemma_same_children(pre: TNode, post: TNode)
    requires
        pre.distinct_children(),
        post.children == pre.children,
    ensures
        forall|c: char| post.has_child_spec(c) == pre.has_child_spec(c),
        forall|c: char| pre.has_child_spec(c) ==> post.child_spec(c) == pre.child_spec(c),
        forall|v: Seq<char>| v.len() > 0 ==> post.contains_spec(v) == pre.contains_spec(v),
{
    assert(post.distinct_children());
    assert forall|c: char| post.has_child_spec(c) == pre.has_child_spec(c) by {
        if pre.has_child_spec(c) {
            let k = choose|k: int|
                0 <= k < pre.children.len() && pre.children[k].value == c;
            assert(post.children[k].value == c);
        }
        if post.has_child_spec(c) {
            let k = choose|k: int|
                0 <= k < post.children.len() && post.children[k].value == c;
            assert(pre.children[k].value == c);
        }
    }
    assert forall|c: char|
        pre.has_child_spec(c) implies post.child_spec(c) == pre.child_spec(c) by {
        let k = choose|k: int|
            0 <= k < pre.children.len() && pre.children[k].value == c;
        pre.lemma_child_at(k);
        post.lemma_child_at(k);
    }
    assert forall|v: Seq<char>|
        v.len() > 0 implies post.contains_spec(v) == pre.contains_spec(v) by {
        if pre.has_child_spec(v[0]) {
            assert(post.child_spec(v[0]) == pre.child_spec(v[0]));
        }
    }
}

/// Membership in a tree taken apart along a path.  `spine[k]` is the node
/// at depth `k` with its `labels[k]`-child peeled off (no other child of it
/// carries that label), and `cur` is the subtree the peeling reached.  The
/// predicate says whether the tree obtained by hanging `cur` and the peeled
/// nodes back together stores `v`: a walk that leaves the path looks into
/// the peeled node's remaining children, a walk that ends on the path reads
/// the peeled node's end flag, and a walk that follows the whole path goes
/// on inside `cur`.
spec fn spine_contains(spine: Seq<TNode>, labels: Seq<char>, cur: TNode, v: Seq<char>) -> bool
    recommends
        spine.len() == labels.len(),
    decreases spine.len(),
{
    if spine.len() == 0 {
        cur.contains_spec(v)
    } else if v.len() == 0 {
        spine[0].is_end
    } else if v[0] == labels[0] {
        spine_contains(spine.skip(1), labels.skip(1), cur, v.skip(1))
    } else {
        spine[0].contains_spec(v)
    }
}

/// Peeling one more node off preserves the meaning of the spine: splitting
/// `whole` into the child at index `j` and the rest leaves the assembled
/// tree's membership unchanged.
proof fn lemma_spine_split(
    spine: Seq<TNode>,
    labels: Seq<char>,
    whole: TNode,
    parent: TNode,
    child: TNode,
    j: int,
    v: Seq<char>,
)
    requires
        spine.len() == labels.len(),
        whole.distinct_children(),
        0 <= j < whole.children.len(),
        child == whole.children[j],
        parent.value == whole.value,
        parent.is_end == whole.is_end,
        parent.children@ == whole.children@.remove(j),
    ensures
        spine_contains(spine.push(parent), labels.push(child.value), child, v) == spine_contains(
            spine,
            labels,
            whole,
            v,
        ),
    decreases spine.len(),
{
    let c = child.value;
    let sp = spine.push(parent);
    let lb = labels.push(c);
    if spine.len() == 0 {
        assert(sp[0] == parent);
        assert(lb[0] == c);
        assert(sp.skip(1) =~= Seq::<TNode>::empty());
        assert(lb.skip(1) =~= Seq::<char>::empty());
        lemma_remove_child(whole, parent, j);
        whole.lemma_child_at(j);
        if v.len() > 0 && v[0] == c {
            assert(spine_contains(sp.skip(1), lb.skip(1), child, v.skip(1))
                == child.contains_spec(v.skip(1)));
            assert(whole.contains_spec(v) == child.contains_spec(v.skip(1)));
        }
    } else {
        assert(sp[0] == spine[0]);
        assert(lb[0] == labels[0]);
        assert(sp.skip(1) =~= spine.skip(1).push(parent));
        assert(lb.skip(1) =~= labels.skip(1).push(c));
        if v.len() > 0 && v[0] == labels[0] {
            lemma_spine_split(spine.skip(1), labels.skip(1), whole, parent, child, j, v.skip(1));
        }
    }
}

/// Peeling a freshly made, empty child off a node that lacks its label
/// preserves the meaning of the spine: neither side stores a word along
/// the fresh label.
proof fn lemma_spine_split_fresh(
    spine: Seq<TNode>,
    labels: Seq<char>,
    whole: TNode,
    child: TNode,
    v: Seq<char>,
)
    requires
        spine.len() == labels.len(),
        !whole.has_child_spec(child.value),
        !child.is_end,
        child.children.len() == 0,
    ensures
        spine_contains(spine.push(whole), labels.push(child.value), child, v) == spine_contains(
            spine,
            labels,
            whole,
            v,
        ),
    decreases spine.len(),
{
    let c = child.value;
    let sp = spine.push(whole);
    let lb = labels.push(c);
    if spine.len() == 0 {
        assert(sp[0] == whole);
        assert(lb[0] == c);
        assert(sp.skip(1) =~= Seq::<TNode>::empty());
        assert(lb.skip(1) =~= Seq::<char>::empty());
        if v.len() > 0 && v[0] == c {
            lemma_childless_has_no_words(child);
            assert(spine_contains(sp.skip(1), lb.skip(1), child, v.skip(1))
                == child.contains_spec(v.skip(1)));
        }
    } else {
        assert(sp[0] == spine[0]);
        assert(lb[0] == labels[0]);
        assert(sp.skip(1) =~= spine.skip(1).push(whole));
        assert(lb.skip(1) =~= labels.skip(1).push(c));
        if v.len() > 0 && v[0] == labels[0] {
            lemma_spine_split_fresh(spine.skip(1), labels.skip(1), whole, child, v.skip(1));
        }
    }
}

/// Marking the reached subtree's root as an end adds exactly the word
/// spelled by the spine's labels to the assembled tree.
proof fn lemma_spine_mark(
    spine: Seq<TNode>,
    labels: Seq<char>,
    cur0: TNode,
    cur1: TNode,
    v: Seq<char>,
)
    requires
        spine.len() == labels.len(),
        forall|u: Seq<char>|
            cur1.contains_spec(u) == (cur0.contains_spec(u) || u == Seq::<char>::empty()),
    ensures
        spine_contains(spine, labels, cur1, v) == (spine_contains(spine, labels, cur0, v) || v
            == labels),
    decreases spine.len(),
{
    if spine.len() == 0 {
        assert(labels =~= Seq::<char>::empty());
    } else {
        if v.len() == 0 {
            assert(v != labels);
        } else if v[0] == labels[0] {
            lemma_spine_mark(spine.skip(1), labels.skip(1), cur0, cur1, v.skip(1));
            assert(v == labels <==> v.skip(1) == labels.skip(1)) by {
                if v.skip(1) == labels.skip(1) {
                    lemma_cons_skip(v);
                    lemma_cons_skip(labels);
                }
                if v == labels {
                    assert(v.skip(1) =~= labels.skip(1));
                }
            }
        } else {
            assert(v != labels);
        }
    }
}

/// Collect the characters of a string into a vector.
fn chars_of(word: &str) -> (w: Vec<char>)
    ensures
        w@ == word@,
{
    let n = word.unicode_len();
    let mut w: Vec<char> = Vec::new();
    for i in 0..n
        invariant
            n == word@.len(),
            w@ == word@.take(i as int),
    {
        w.push(word.get_char(i));
        proof {
            assert(w@ =~= word@.take(i + 1));
        }
    }
    proof {
        assert(word@.take(n as int) =~= word@);
    }
    w
}

/// A trie: a rooted tree of `TNode`s storing a set of non-empty words.
/// The root is a sentinel whose character is unused and whose end flag
/// always stays false: the empty word is never storable.
pub struct Trie {
    pub root: TNode,
}

impl Trie {
    /// The structural invariant: the tree under the root is well-formed
    /// and the root never marks the end of a word.
    pub open spec fn wf(self) -> bool {
        self.root.wf() && !self.root.is_end
    }

    /// Membership of a word: only non-empty words whose path through the
    /// tree ends at a marked node are stored.
    pub open spec fn contains_word(self, w: Seq<char>) -> bool {
        w.len() > 0 && self.root.contains_spec(w)
    }

    /// Make an empty trie.
    pub fn new() -> (t: Self)
        ensures
            t.wf(),
            t@ == Set::<Seq<char>>::empty(),
            !t.root.is_end,
            t.root.children@.len() == 0,
    {
        let t = Self { root: TNode::new('\0', false) };
        proof {
            assert forall|w: Seq<char>| !t.contains_word(w) by {
                assert(!t.root.has_child_spec(w[0]));
            }
            assert(t@ =~= Set::<Seq<char>>::empty());
        }
        t
    }

    /// Store the word spelled by `w[i..]` below `node`: walk down the tree
    /// creating missing nodes, then mark the last one as an end.  Exactly
    /// that one word is added to the subtree; everything else is kept.
    fn insert_rec(node: &mut TNode, w: &Vec<char>, i: usize)
        requires
            old(node).wf(),
            i <= w@.len(),
        ensures
            final(node).wf(),
            final(node).value == old(node).value,
            !final(node).is_empty_spec(),
            i < w@.len() ==> final(node).is_end == old(node).is_end,
            forall|v: Seq<char>|
                final(node).contains_spec(v)
                    == (old(node).contains_spec(v) || v == w@.skip(i as int)),
        decreases w@.len() - i,
    {
        if i == w.len() {
            node.is_end = true;
            proof {
                lemma_same_children(*old(node), *node);
                assert(w@.skip(i as int) =~= Seq::<char>::empty());
                assert forall|v: Seq<char>|
                    node.contains_spec(v)
                        == (old(node).contains_spec(v) || v == w@.skip(i as int)) by {
                    if v.len() == 0 {
                        assert(v =~= Seq::<char>::empty());
                    }
                }
            }
        } else {
            let c = w[i];
            let ghost pre = *old(node);
            let ghost ws = w@.skip(i as int);
            let ghost tail = w@.skip(i as int + 1);
            proof {
                lemma_cons_skip(ws);
                assert(ws.skip(1) =~= tail);
                assert(ws == seq![c] + tail);
            }
            match node.find_child(c) {
                Some(j) => {
                    proof {
                        pre.lemma_child_at(j as int);
                    }
                    Self::insert_rec(&mut node.children[j], w, i + 1);
                    proof {
                        lemma_insert_step(pre, *node, node.children[j as int], j as int, tail);
                    }
                }
                None => {
                    let mut child = TNode::new(c, false);
                    proof {
                        lemma_childless_has_no_words(child);
                    }
                    Self::insert_rec(&mut child, w, i + 1);
                    node.children.push(child);
                    proof {
                        lemma_insert_step_fresh(
                            pre,
                            *node,
                            node.children[node.children.len() - 1],
                            tail,
                        );
                    }
                }
            }
        }
    }

    /// Store `word` in the trie; the empty word is not storable, so an
    /// empty input changes nothing.  Storing a word that is already present
    /// leaves the set of stored words as it was.
    pub fn insert(&mut self, word: &str)
        requires
            old(self).wf(),
        ensures
            final(self).wf(),
            final(self)@ == if word@.len() == 0 {
                old(self)@
            } else {
                old(self)@.insert(word@)
            },
            word@.len() == 0 ==> *final(self) == *old(self),
            final(self).root.value == old(self).root.value,
            final(self).root.is_end == old(self).root.is_end,
    {
        if word.unicode_len() == 0 {
            return;
        }
        let w = chars_of(word);
        Self::insert_rec(&mut self.root, &w, 0);
        proof {
            assert(w@.skip(0) =~= word@);
            assert forall|v: Seq<char>| #[trigger]
                self@.contains(v) == old(self)@.insert(word@).contains(v) by {
                assert(self@.contains(v) == self.contains_word(v));
                assert(old(self)@.contains(v) == old(self).contains_word(v));
            }
            assert(self@ =~= old(self)@.insert(word@));
        }
    }

    /// Store `word` by walking down iteratively instead of recursing: the
    /// nodes along the path are peeled onto an explicit stack on the way
    /// down and hung back together on the way up.  The observable effect
    /// is exactly that of `insert`.
    pub fn insert_iter(&mut self, word: &str)
        requires
            old(self).wf(),
        ensures
            final(self).wf(),
            final(self)@ == if word@.len() == 0 {
                old(self)@
            } else {
                old(self)@.insert(word@)
            },
            word@.len() == 0 ==> *final(self) == *old(self),
            final(self).root.value == old(self).root.value,
            final(self).root.is_end == old(self).root.is_end,
    {
        if word.unicode_len() == 0 {
            return;
        }
        let w = chars_of(word);
        let n = w.len();
        let ghost r0 = old(self).root;
        let mut cur = TNode::new('\0', false);
        core::mem::swap(&mut cur, &mut self.root);
        let mut spine: Vec<TNode> = Vec::new();
        let mut idxs: Vec<usize> = Vec::new();
        proof {
            assert(w@.take(0) =~= Seq::<char>::empty());
        }
        for i in 0..n
            invariant
                n == w@.len(),
                0 < n,
                w@ == word@,
                spine@.len() == i,
                idxs@.len() == i,
                forall|k: int|
                    0 <= k < i ==> #[trigger] idxs@[k] <= spine@[k].children@.len(),
                cur.wf(),
                cur.value == if i == 0 {
                    r0.value
                } else {
                    w@[i - 1]
                },
                i == 0 ==> cur == r0,
                i > 0 ==> spine@[0].value == r0.value && spine@[0].is_end == r0.is_end,
                forall|k: int|
                    #![trigger spine@[k]]
                    0 <= k < i ==> {
                        &&& spine@[k].distinct_children()
                        &&& !spine@[k].has_child_spec(w@[k])
                        &&& spine@[k].value == if k == 0 {
                            r0.value
                        } else {
                            w@[k - 1]
                        }
                        &&& (forall|m: int|
                            0 <= m < spine@[k].children.len() ==> spine@[k].children[m].wf()
                                && !spine@[k].children[m].is_empty_spec())
                    },
                forall|v: Seq<char>|
                    spine_contains(spine@, w@.take(i as int), cur, v) == r0.contains_spec(v),
        {
            let c = w[i];
            let ghost pre = cur;
            let ghost sp0 = spine@;
            match cur.find_child(c) {
                Some(j) => {
                    proof {
                        pre.lemma_child_at(j as int);
                    }
                    let child = cur.children.remove(j);
                    proof {
                        lemma_remove_child(pre, cur, j as int);
                        assert forall|v: Seq<char>|
                            spine_contains(
                                sp0.push(cur),
                                w@.take(i as int).push(c),
                                child,
                                v,
                            ) == spine_contains(sp0, w@.take(i as int), pre, v) by {
                            lemma_spine_split(sp0, w@.take(i as int), pre, cur, child, j as int, v);
                        }
                        assert(w@.take(i as int).push(c) =~= w@.take(i + 1));
                        pre.children@.remove_ensures(j as int);
                    }
                    spine.push(cur);
                    idxs.push(j);
                    cur = child;
                }
                None => {
                    let child = TNode::new(c, false);
                    proof {
                        assert forall|v: Seq<char>|
                            spine_contains(
                                sp0.push(pre),
                                w@.take(i as int).push(c),
                                child,
                                v,
                            ) == spine_contains(sp0, w@.take(i as int), pre, v) by {
                            lemma_spine_split_fresh(sp0, w@.take(i as int), pre, child, v);
                        }
                        assert(w@.take(i as int).push(c) =~= w@.take(i + 1));
                    }
                    let end = cur.children.len();
                    spine.push(cur);
                    idxs.push(end);
                    cur = child;
                }
            }
        }
        let ghost cur0 = cur;
        cur.is_end = true;
        proof {
            lemma_same_children(cur0, cur);
            assert(cur.wf()) by {
                assert forall|k: int|
                    0 <= k < cur.children.len() implies cur.children[k].wf()
                    && !cur.children[k].is_empty_spec() by {
                    assert(cur.children[k] == cur0.children[k]);
                }
            }
            assert forall|u: Seq<char>|
                cur.contains_spec(u) == (cur0.contains_spec(u) || u == Seq::<char>::empty()) by {
                if u.len() == 0 {
                    assert(u =~= Seq::<char>::empty());
                }
            }
            assert(w@.take(n as int) =~= w@);
            assert forall|v: Seq<char>|
                spine_contains(spine@, w@, cur, v) == (r0.contains_spec(v) || v == w@) by {
                lemma_spine_mark(spine@, w@, cur0, cur, v);
            }
        }
        while spine.len() > 0
            invariant
                n == w@.len(),
                0 < n,
                w@ == word@,
                spine@.len() <= n,
                idxs@.len() == spine@.len(),
                forall|k: int|
                    0 <= k < spine@.len() ==> #[trigger] idxs@[k] <= spine@[k].children@.len(),
                cur.wf(),
                !cur.is_empty_spec(),
                cur.value == if spine@.len() == 0 {
                    r0.value
                } else {
                    w@[spine@.len() - 1]
                },
                spine@.len() == 0 ==> cur.is_end == r0.is_end,
                spine@.len() > 0 ==> spine@[0].value == r0.value && spine@[0].is_end
                    == r0.is_end,
                forall|k: int|
                    #![trigger spine@[k]]
                    0 <= k < spine@.len() ==> {
                        &&& spine@[k].distinct_children()
                        &&& !spine@[k].has_child_spec(w@[k])
                        &&& spine@[k].value == if k == 0 {
                            r0.value
                        } else {
                            w@[k - 1]
                        }
                        &&& (forall|m: int|
                            0 <= m < spine@[k].children.len() ==> spine@[k].children[m].wf()
                                && !spine@[k].children[m].is_empty_spec())
                    },
                forall|v: Seq<char>|
                    spine_contains(spine@, w@.take(spine@.len() as int), cur, v) == (
                    r0.contains_spec(v) || v == w@),
            decreases spine@.len(),
        {
            let ghost m = spine@.len() as int;
            let ghost sp0 = spine@;
            let ghost c0 = cur;
            let mut parent = spine.pop().unwrap();
            let j = idxs.pop().unwrap();
            let ghost p0 = parent;
            proof {
                assert(spine@ =~= sp0.drop_last());
                assert(p0 == sp0[m - 1]);
                assert(j <= p0.children@.len());
            }
            parent.children.insert(j, cur);
            cur = parent;
            proof {
                let jn = j as int;
                assert(cur.children@ == p0.children@.insert(jn, c0));
                p0.children@.insert_ensures(jn, c0);
                assert(cur.children[jn] == c0);
                assert(forall|idx: int| 0 <= idx < jn ==> cur.children[idx] == p0.children[idx]);
                assert forall|idx: int|
                    jn < idx < cur.children@.len() implies cur.children[idx] == p0.children[idx
                    - 1] by {
                    assert(p0.children@.insert(jn, c0)[(idx - 1) + 1] == p0.children@[idx - 1]);
                }
                assert(cur.distinct_children()) by {
                    assert forall|a: int, b: int|
                        0 <= a < b < cur.children.len() implies cur.children[a].value
                        != cur.children[b].value by {
                        if a == jn {
                            assert(cur.children[b] == p0.children[b - 1]);
                            assert(p0.children[b - 1].value != c0.value) by {
                                if p0.children[b - 1].value == w@[m - 1] {
                                    assert(p0.has_child_spec(w@[m - 1]));
                                }
                            }
                        } else if b == jn {
                            assert(cur.children[a] == p0.children[a]);
                            assert(p0.children[a].value != c0.value) by {
                                if p0.children[a].value == w@[m - 1] {
                                    assert(p0.has_child_spec(w@[m - 1]));
                                }
                            }
                        } else {
                            let a2: int = if a < jn {
                                a
                            } else {
                                a - 1
                            };
                            let b2: int = if b < jn {
                                b
                            } else {
                                b - 1
                            };
                            assert(cur.children[a] == p0.children[a2]);
                            assert(cur.children[b] == p0.children[b2]);
                            assert(p0.children[a2].value != p0.children[b2].value);
                        }
                    }
                }
                assert(cur.children@.remove(jn) =~= p0.children@) by {
                    cur.children@.remove_ensures(jn);
                }
                assert forall|v: Seq<char>|
                    #![trigger spine_contains(spine@, w@.take(m - 1), cur, v)]
                    spine_contains(sp0, w@.take(m - 1).push(c0.value), c0, v) == spine_contains(
                        spine@,
                        w@.take(m - 1),
                        cur,
                        v,
                    ) by {
                    lemma_spine_split(spine@, w@.take(m - 1), cur, p0, c0, jn, v);
                    assert(spine@.push(p0) =~= sp0);
                }
                assert(w@.take(m - 1).push(c0.value) =~= w@.take(m));
                assert(cur.wf()) by {
                    assert forall|k: int|
                        0 <= k < cur.children.len() implies cur.children[k].wf()
                        && !cur.children[k].is_empty_spec() by {
                        if k < jn {
                            assert(cur.children[k] == p0.children[k]);
                        }
                    }
                }
            }
        }
        proof {
            assert(w@.take(0) =~= Seq::<char>::empty());
        }
        self.root = cur;
        proof {
            assert forall|v: Seq<char>| #[trigger]
                self@.contains(v) == old(self)@.insert(word@).contains(v) by {
                assert(self@.contains(v) == self.contains_word(v));
                assert(old(self)@.contains(v) == old(self).contains_word(v));
            }
            assert(self@ =~= old(self)@.insert(word@));
        }
    }

    /// Walk the path spelled by `w` from `root`; report whether it ends at
    /// a node marked as the end of a word.
    fn lookup(root: &TNode, w: &Vec<char>) -> (r: bool)
        requires
            root.wf(),
        ensures
            r == root.contains_spec(w@),
    {
        let mut node: &TNode = root;
        let n = w.len();
        proof {
            assert(w@.skip(0) =~= w@);
        }
        for i in 0..n
            invariant
                n == w@.len(),
                node.wf(),
                root.contains_spec(w@) == node.contains_spec(w@.skip(i as int)),
        {
            let ghost rest = w@.skip(i as int);
            match node.find_child(w[i]) {
                Some(j) => {
                    proof {
                        node.lemma_child_at(j as int);
                        assert(rest.len() > 0 && rest[0] == w@[i as int]);
                        assert(rest.skip(1) =~= w@.skip(i as int + 1));
                        assert(node.contains_spec(rest) == node.children[j as int].contains_spec(
                            w@.skip(i as int + 1),
                        ));
                    }
                    node = &node.children[j];
                }
                None => {
                    proof {
                        assert(rest.len() > 0 && rest[0] == w@[i as int]);
                        assert(!node.contains_spec(rest));
                    }
                    return false;
                }
            }
        }
        proof {
            assert(w@.skip(n as int) =~= Seq::<char>::empty());
        }
        node.is_end
    }

    /// Is `word` stored in the trie?  True exactly for the words inserted
    /// and not deleted or cleared since; never true for the empty word, and
    /// never true for a mere prefix of a stored word.
    pub fn contains(&mut self, word: &str) -> (r: bool)
        requires
            old(self).wf(),
        ensures
            *final(self) == *old(self),
            r == old(self)@.contains(word@),
    {
        let w = chars_of(word);
        let r = Self::lookup(&self.root, &w);
        proof {
            if word@.len() == 0 {
                assert(!self.root.contains_spec(word@));
            }
            assert(self@.contains(word@) == self.contains_word(word@));
        }
        r
    }

    /// Unmark the node at depth `w.len()` below `node` (the word is known
    /// to be stored), then prune the traversed branch bottom-up: every node
    /// left with no end mark and no children is removed from its parent.
    /// Reports whether `node` itself ended up empty.
    fn delete_rec(node: &mut TNode, w: &Vec<char>, depth: usize) -> (r: bool)
        requires
            old(node).wf(),
            depth <= w@.len(),
            old(node).contains_spec(w@.skip(depth as int)),
        ensures
            final(node).wf(),
            final(node).value == old(node).value,
            depth < w@.len() ==> final(node).is_end == old(node).is_end,
            r == final(node).is_empty_spec(),
            forall|v: Seq<char>|
                final(node).contains_spec(v)
                    == (old(node).contains_spec(v) && v != w@.skip(depth as int)),
        decreases w@.len() - depth,
    {
        if depth == w.len() {
            node.is_end = false;
            proof {
                lemma_same_children(*old(node), *node);
                assert(w@.skip(depth as int) =~= Seq::<char>::empty());
                assert forall|v: Seq<char>|
                    node.contains_spec(v)
                        == (old(node).contains_spec(v) && v != w@.skip(depth as int)) by {
                    if v.len() == 0 {
                        assert(v =~= Seq::<char>::empty());
                    }
                }
            }
            return node.is_empty();
        }
        let c = w[depth];
        let ghost pre = *old(node);
        let ghost ws = w@.skip(depth as int);
        let ghost tail = w@.skip(depth as int + 1);
        proof {
            lemma_cons_skip(ws);
            assert(ws.skip(1) =~= tail);
            assert(ws == seq![c] + tail);
        }
        match node.find_child(c) {
            Some(j) => {
                proof {
                    pre.lemma_child_at(j as int);
                    assert(pre.children[j as int].contains_spec(tail));
                }
                let prune = Self::delete_rec(&mut node.children[j], w, depth + 1);
                if prune {
                    proof {
                        let nc = node.children[j as int];
                        lemma_childless_has_no_words(nc);
                        assert forall|u: Seq<char>|
                            pre.children[j as int].contains_spec(u) implies u == tail by {
                            assert(!nc.contains_spec(u));
                        }
                    }
                    let ghost shrunk = node.children@;
                    node.children.remove(j);
                    proof {
                        assert(node.children@ == shrunk.remove(j as int));
                        shrunk.remove_ensures(j as int);
                        pre.children@.remove_ensures(j as int);
                        assert(node.children@ =~= pre.children@.remove(j as int));
                        lemma_delete_step_prune(pre, *node, j as int, tail);
                    }
                } else {
                    proof {
                        lemma_delete_step(pre, *node, node.children[j as int], j as int, tail);
                    }
                }
                node.is_empty()
            }
            None => {
                proof {
                    assert(!pre.contains_spec(ws));
                    assert(false);
                }
                false
            }
        }
    }

    /// Remove `word` from the trie, if it is stored; otherwise change
    /// nothing.  The branch that spelled the word is pruned: no node is
    /// left both unmarked and childless.
    pub fn delete(&mut self, word: &str)
        requires
            old(self).wf(),
        ensures
            final(self).wf(),
            final(self)@ == old(self)@.remove(word@),
            !old(self)@.contains(word@) ==> *final(self) == *old(self),
            final(self).root.value == old(self).root.value,
            final(self).root.is_end == old(self).root.is_end,
    {
        let w = chars_of(word);
        if !Self::lookup(&self.root, &w) {
            proof {
                assert(!old(self)@.contains(word@));
                assert(old(self)@.remove(word@) =~= old(self)@);
            }
            return;
        }
        proof {
            assert(w@.skip(0) =~= word@);
        }
        let _ = Self::delete_rec(&mut self.root, &w, 0);
        proof {
            assert(word@.len() > 0) by {
                assert(old(self).root.contains_spec(word@));
            }
            assert forall|v: Seq<char>| #[trigger]
                self@.contains(v) == old(self)@.remove(word@).contains(v) by {
                assert(self@.contains(v) == self.contains_word(v));
                assert(old(self)@.contains(v) == old(self).contains_word(v));
            }
            assert(self@ =~= old(self)@.remove(word@));
        }
    }

    /// The successive-character variant of the pruning deletion: consume
    /// one character per recursive call instead of tracking a depth, and
    /// test emptiness after the traversal returns.  Produces the same tree
    /// as `delete_rec` on the same word.
    fn deleto_rec(node: &mut TNode, w: &[char]) -> (r: bool)
        requires
            old(node).wf(),
            old(node).contains_spec(w@),
        ensures
            final(node).wf(),
            final(node).value == old(node).value,
            w@.len() > 0 ==> final(node).is_end == old(node).is_end,
            r == final(node).is_empty_spec(),
            forall|v: Seq<char>|
                final(node).contains_spec(v) == (old(node).contains_spec(v) && v != w@),
        decreases w@.len(),
    {
        if w.len() == 0 {
            node.is_end = false;
            proof {
                lemma_same_children(*old(node), *node);
                assert forall|v: Seq<char>|
                    node.contains_spec(v) == (old(node).contains_spec(v) && v != w@) by {
                    if v.len() == 0 {
                        assert(v =~= w@);
                    }
                }
            }
            return node.is_empty();
        }
        let c = w[0];
        let ghost pre = *old(node);
        let ghost tail = w@.skip(1);
        proof {
            lemma_cons_skip(w@);
            assert(w@ == seq![c] + tail);
        }
        match node.find_child(c) {
            Some(j) => {
                let rest = vstd::slice::slice_subrange(w, 1, w.len());
                proof {
                    pre.lemma_child_at(j as int);
                    assert(rest@ == tail);
                    assert(pre.children[j as int].contains_spec(rest@));
                }
                let prune = Self::deleto_rec(&mut node.children[j], rest);
                if prune {
                    proof {
                        let nc = node.children[j as int];
                        lemma_childless_has_no_words(nc);
                        assert forall|u: Seq<char>|
                            pre.children[j as int].contains_spec(u) implies u == tail by {
                            assert(!nc.contains_spec(u));
                        }
                    }
                    let ghost shrunk = node.children@;
                    node.children.remove(j);
                    proof {
                        assert(node.children@ == shrunk.remove(j as int));
                        shrunk.remove_ensures(j as int);
                        pre.children@.remove_ensures(j as int);
                        assert(node.children@ =~= pre.children@.remove(j as int));
                        lemma_delete_step_prune(pre, *node, j as int, tail);
                    }
                } else {
                    proof {
                        lemma_delete_step(pre, *node, node.children[j as int], j as int, tail);
                    }
                }
                node.is_empty()
            }
            None => {
                proof {
                    assert(!pre.contains_spec(w@));
                    assert(false);
                }
                false
            }
        }
    }

    /// Remove `word` from the trie by the successive-character strategy.
    /// The observable effect is exactly that of `delete`: the word is
    /// dropped if stored, nothing changes otherwise, and dead branches are
    /// pruned.
    pub fn delete_2(&mut self, word: &str)
        requires
            old(self).wf(),
        ensures
            final(self).wf(),
            final(self)@ == old(self)@.remove(word@),
            !old(self)@.contains(word@) ==> *final(self) == *old(self),
            final(self).root.value == old(self).root.value,
            final(self).root.is_end == old(self).root.is_end,
    {
        if word.unicode_len() == 0 {
            proof {
                assert(!old(self)@.contains(word@));
                assert(old(self)@.remove(word@) =~= old(self)@);
            }
            return;
        }
        let w = chars_of(word);
        if !Self::lookup(&self.root, &w) {
            proof {
                assert(!old(self)@.contains(word@));
                assert(old(self)@.remove(word@) =~= old(self)@);
            }
            return;
        }
        let _ = Self::deleto_rec(&mut self.root, w.as_slice());
        proof {
            assert forall|v: Seq<char>| #[trigger]
                self@.contains(v) == old(self)@.remove(word@).contains(v) by {
                assert(self@.contains(v) == self.contains_word(v));
                assert(old(self)@.contains(v) == old(self).contains_word(v));
            }
            assert(self@ =~= old(self)@.remove(word@));
        }
    }

    /// Drop every word at once: remove all children of the root.  The root
    /// itself persists, as in a freshly made trie.
    pub fn clear(&mut self)
        requires
            old(self).wf(),
        ensures
            final(self).wf(),
            final(self)@ == Set::<Seq<char>>::empty(),
            final(self).root.value == old(self).root.value,
            final(self).root.is_end == old(self).root.is_end,
            final(self).root.children@ == Seq::<TNode>::empty(),
    {
        self.root.children.clear();
        proof {
            assert forall|v: Seq<char>| !self.contains_word(v) by {
                if v.len() > 0 {
                    assert(!self.root.has_child_spec(v[0]));
                }
            }
            assert(self@ =~= Set::<Seq<char>>::empty());
        }
    }
}

impl View for Trie {
    type V = Set<Seq<char>>;

    /// The set of words the trie stores.
    open spec fn view(&self) -> Set<Seq<char>> {
        Set::new(|w: Seq<char>| self.contains_word(w))
    }
}

} // verus!
