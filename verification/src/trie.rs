//! The prefix tree and its operations.

use crate::node::lemma_at_root;
use crate::node::lemma_bare;
use crate::node::lemma_close;
use crate::node::lemma_descend;
use crate::node::lemma_paths_closed;
use crate::node::TrieNode;
use std::collections::hash_map::Entry;
use vstd::prelude::*;

verus! {

/// A set of words, held as a prefix tree.
///
/// Its view is the set of stored words. A tree made by [`Trie::new`] and
/// grown by [`Trie::insert`] is well-formed, see [`Trie::wf`].
#[derive(Debug)]
pub struct Trie {
    /// The node of the empty string.
    pub root: TrieNode,
}

impl View for Trie {
    type V = Set<Seq<char>>;

    /// The set of stored words.
    open spec fn view(&self) -> Set<Seq<char>> {
        Set::new(|w: Seq<char>| self.root.accepts(w))
    }
}

/// The strings that are empty or a leading part of a word of `words`.
pub open spec fn prefix_closure(words: Set<Seq<char>>) -> Set<Seq<char>> {
    Set::new(
        |p: Seq<char>| p.len() == 0 || exists|w: Seq<char>| words.contains(w) && p.is_prefix_of(w),
    )
}

/// The leading parts of `word`, from the empty string to `word` itself.
pub open spec fn prefixes_of(word: Seq<char>) -> Set<Seq<char>> {
    Set::new(|p: Seq<char>| p.is_prefix_of(word))
}

impl Trie {
    /// The strings that spell a path from the root.
    pub open spec fn prefixes(&self) -> Set<Seq<char>> {
        Set::new(|p: Seq<char>| self.root.has_path(p))
    }

    /// Whether the tree holds nothing but what its words need: every path
    /// from the root, the empty one aside, spells a leading part of a stored
    /// word, and every edge is labelled by a character.
    pub open spec fn wf(&self) -> bool {
        &&& self.prefixes() == prefix_closure(self@)
        &&& self.root.edges_are_chars()
    }

    /// Whether `self` is `before` with `word` added to it.
    pub open spec fn is_insert_of(&self, before: Trie, word: Seq<char>) -> bool {
        &&& self@ == before@.insert(word)
        &&& self.prefixes() == before.prefixes().union(prefixes_of(word))
        &&& before.wf() ==> self.wf()
    }

    /// An empty tree: a bare root. It stores no word, and its only prefix is
    /// the empty string.
    pub fn new() -> (trie: Trie)
        ensures
            trie.root.is_bare(),
            trie@ == Set::<Seq<char>>::empty(),
            trie.prefixes() == set![Seq::<char>::empty()],
            trie.wf(),
    {
        let trie = Trie { root: TrieNode::default() };
        proof {
            lemma_bare(trie.root);
            assert(trie@ =~= Set::<Seq<char>>::empty());
            assert forall|p: Seq<char>| p.len() == 0 implies p == Seq::<char>::empty() by {
                assert(p =~= Seq::<char>::empty());
            }
            assert(trie.prefixes() =~= set![Seq::<char>::empty()]);
            assert(trie.prefixes() =~= prefix_closure(trie@));
        }
        trie
    }

    /// Adds `word` to the stored words.
    ///
    /// The words afterwards are those before and `word`; the prefixes are
    /// those before and the leading parts of `word`. Any string is accepted,
    /// the empty one too, and a word that is already stored changes nothing.
    ///
    /// The walk goes down from the root one character at a time and makes a
    /// node wherever the next one is missing; the node it ends at is marked
    /// as the end of a word.
    pub fn insert(&mut self, word: &str)
        ensures
            final(self).is_insert_of(*old(self), word@),
    {
        let ghost grown = *final(self);
        let mut current = &mut self.root;
        proof {
            lemma_at_root(old(self).root, *final(current));
        }
        for ch in it: word.chars()
            invariant
                it.seq() == word@,
                old(self).root.holds_at(word@.take(it.index() as int), *current),
                grown.root.is_graft(
                    old(self).root,
                    word@.take(it.index() as int),
                    *final(current),
                ),
        {
            let ghost path = word@.take(it.index() as int);
            let ghost cur = *current;
            let ghost cur_grown = *final(current);
            let next = match current.children.entry(ch as u32) {
                Entry::Occupied(present) => present.into_mut(),
                Entry::Vacant(absent) => absent.insert(TrieNode::default()),
            };
            let ghost nxt = *next;
            current = next;
            proof {
                assert(path.push(ch) =~= word@.take(it.index() + 1));
                lemma_descend(
                    old(self).root,
                    grown.root,
                    path,
                    ch,
                    cur,
                    cur_grown,
                    nxt,
                    *final(current),
                );
            }
        }
        let ghost cur = *current;
        let ghost cur_grown = *final(current);
        current.is_end_of_word = true;
        proof {
            assert(word@.take(word@.len() as int) =~= word@);
            lemma_close(old(self).root, grown.root, word@, cur, cur_grown);
            lemma_extension(*old(self), grown, word@);
        }
    }

    /// Whether `word` is one of the stored words.
    ///
    /// A string that is only a leading part of a stored word is not found.
    pub fn search(&self, word: &str) -> (found: bool)
        ensures
            found == self@.contains(word@),
    {
        let mut current = &self.root;
        assert(word@.skip(0) =~= word@);
        for ch in it: word.chars()
            invariant
                it.seq() == word@,
                self.root.accepts(word@) == current.accepts(word@.skip(it.index() as int)),
        {
            assert(word@.skip(it.index() as int).drop_first() =~= word@.skip(it.index() + 1));
            match current.children.get(&(ch as u32)) {
                Some(node) => {
                    current = node;
                },
                None => {
                    return false;
                },
            }
        }
        current.is_end_of_word
    }

    /// Whether `prefix` spells a path from the root. In a well-formed tree
    /// that is to say: whether `prefix` is empty or a leading part of a
    /// stored word, the word itself included.
    pub fn starts_with(&self, prefix: &str) -> (found: bool)
        ensures
            found == self.prefixes().contains(prefix@),
            self.wf() ==> found == prefix_closure(self@).contains(prefix@),
            prefix@.len() == 0 ==> found,
    {
        let mut current = &self.root;
        assert(prefix@.skip(0) =~= prefix@);
        for ch in it: prefix.chars()
            invariant
                it.seq() == prefix@,
                self.root.has_path(prefix@) == current.has_path(prefix@.skip(it.index() as int)),
        {
            assert(prefix@.skip(it.index() as int).drop_first() =~= prefix@.skip(it.index() + 1));
            match current.children.get(&(ch as u32)) {
                Some(node) => {
                    current = node;
                },
                None => {
                    return false;
                },
            }
        }
        true
    }
}

impl Default for Trie {
    /// An empty tree.
    fn default() -> (trie: Trie)
        ensures
            trie.root.is_bare(),
            trie@ == Set::<Seq<char>>::empty(),
            trie.prefixes() == set![Seq::<char>::empty()],
            trie.wf(),
    {
        Trie::new()
    }
}

/// A tree whose root extends another's by `word` is that tree with `word`
/// added to it.
pub proof fn lemma_extension(before: Trie, after: Trie, word: Seq<char>)
    requires
        after.root.is_extension(before.root, word),
    ensures
        after.is_insert_of(before, word),
{
    assert(after@ =~= before@.insert(word));
    assert(after.prefixes() =~= before.prefixes().union(prefixes_of(word)));
    if before.wf() {
        assert forall|p: Seq<char>| after.prefixes().contains(p) implies prefix_closure(
            after@,
        ).contains(p) by {
            if p.len() > 0 && before.prefixes().contains(p) {
                let w = choose|w: Seq<char>| before@.contains(w) && p.is_prefix_of(w);
                assert(after@.contains(w) && p.is_prefix_of(w));
            } else if p.len() > 0 {
                assert(after@.contains(word) && p.is_prefix_of(word));
            }
        }
        assert forall|p: Seq<char>| prefix_closure(after@).contains(p) implies after.prefixes(
        ).contains(p) by {
            if p.len() > 0 {
                let w = choose|w: Seq<char>| after@.contains(w) && p.is_prefix_of(w);
                lemma_paths_closed(after.root, p, w);
            }
        }
        assert(after.prefixes() =~= prefix_closure(after@));
    }
}

} // verus!
