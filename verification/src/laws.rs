//! Laws of the trie, stated over its abstract view.
//!
//! Each operation's contract pins the stored set exactly (`insert` of the
//! word's sequence, `remove` of it, or the empty set); the proofs here spell
//! out the consequences a user relies on: what a single operation does to
//! each membership, and what the structural invariant forces of the tree.

use vstd::prelude::*;

use crate::TNode;
use crate::Trie;

verus! {

/// A word just stored is contained: inserting `w` into a trie yields a trie
/// that contains `w`.
pub proof fn lemma_insert_makes_contained(t0: Trie, t1: Trie, w: Seq<char>)
    requires
        t1@ == t0@.insert(w),
    ensures
        t1@.contains(w),
{
}

/// A stored word stays stored: a trie that contains `w` still contains it
/// after any insertion, and after any deletion of a word other than `w`.
/// Only deleting `w` itself, or clearing, removes it.
pub proof fn lemma_contained_until_deleted(t1: Trie, t2: Trie, w: Seq<char>, u: Seq<char>)
    requires
        t1@.contains(w),
        t2@ == t1@.insert(u) || (t2@ == t1@.remove(u) && u != w),
    ensures
        t2@.contains(w),
{
}

/// Inserting a word changes no other membership: a word `v` other than the
/// inserted `w` is contained afterwards exactly when it was before.  In
/// particular a word never inserted is never contained.
pub proof fn lemma_insert_adds_only_word(t0: Trie, t1: Trie, w: Seq<char>, v: Seq<char>)
    requires
        t1@ == t0@.insert(w),
        v != w,
    ensures
        t1@.contains(v) == t0@.contains(v),
{
}

/// A strict prefix of an inserted word is not contained on that account:
/// if the prefix was not stored before the insertion, it is not stored
/// after it either.
pub proof fn lemma_strict_prefix_not_contained(t0: Trie, t1: Trie, w: Seq<char>, p: Seq<char>)
    requires
        t1@ == t0@.insert(w),
        !t0@.contains(p),
        p.len() < w.len(),
        p == w.take(p.len() as int),
    ensures
        !t1@.contains(p),
{
    assert(p.len() != w.len());
}

/// Deleting a word changes no other membership: a word `v` other than the
/// deleted `w` is contained afterwards exactly when it was before.  In
/// particular a stored word that the deleted word is a strict prefix of
/// stays stored.
pub proof fn lemma_delete_removes_only_word(t0: Trie, t1: Trie, w: Seq<char>, v: Seq<char>)
    requires
        t1@ == t0@.remove(w),
        v != w,
    ensures
        t1@.contains(v) == t0@.contains(v),
{
}

/// Deleting the same word twice has the effect of deleting it once: after
/// the first deletion the word is no longer stored, so removing it again
/// leaves the stored set as it is.  (And `delete` on a trie that does not
/// store the word promises the tree value itself unchanged.)
pub proof fn lemma_delete_idempotent(t0: Trie, t1: Trie, w: Seq<char>)
    requires
        t1@ == t0@.remove(w),
    ensures
        t1@.remove(w) == t1@,
{
    assert(t1@.remove(w) =~= t1@);
}

/// Insertion is idempotent: storing a word a second time leaves the stored
/// set as it was after the first time.
pub proof fn lemma_insert_idempotent(t0: Trie, w: Seq<char>)
    ensures
        t0@.insert(w).insert(w) == t0@.insert(w),
{
    assert(t0@.insert(w).insert(w) =~= t0@.insert(w));
}

/// The order of insertions does not matter: inserting `a` then `b` yields
/// the same stored set as inserting `b` then `a`.  With every insertion
/// adding exactly its own word, any permutation of a set of insertions
/// yields the same stored set.
pub proof fn lemma_insert_order_irrelevant(t0: Trie, a: Seq<char>, b: Seq<char>)
    ensures
        t0@.insert(a).insert(b) == t0@.insert(b).insert(a),
{
    assert(t0@.insert(a).insert(b) =~= t0@.insert(b).insert(a));
}

/// A well-formed non-empty subtree stores at least one word.
proof fn lemma_nonempty_has_word(n: TNode)
    requires
        n.wf(),
        !n.is_empty_spec(),
    ensures
        exists|v: Seq<char>| n.contains_spec(v),
    decreases n,
{
    if n.is_end {
        assert(n.contains_spec(Seq::<char>::empty()));
    } else {
        let c0 = n.children[0];
        n.lemma_child_at(0);
        lemma_nonempty_has_word(c0);
        let v0 = choose|v: Seq<char>| c0.contains_spec(v);
        let w = seq![c0.value] + v0;
        assert(w.skip(1) =~= v0);
        assert(n.contains_spec(w));
    }
}

/// Deletion leaves no dead branch behind: a well-formed trie that stores
/// no word at all has no children under its root.  So after the last word
/// along a branch is deleted, the branch is gone.
pub proof fn lemma_no_words_no_children(t: Trie)
    requires
        t.wf(),
        t@ == Set::<Seq<char>>::empty(),
    ensures
        t.root.children@.len() == 0,
{
    if t.root.children.len() > 0 {
        let c0 = t.root.children[0];
        t.root.lemma_child_at(0);
        lemma_nonempty_has_word(c0);
        let v0 = choose|v: Seq<char>| c0.contains_spec(v);
        let w = seq![c0.value] + v0;
        assert(w.skip(1) =~= v0);
        assert(t.root.contains_spec(w));
        assert(t.contains_word(w));
        assert(t@.contains(w));
    }
}

} // verus!
