//! The nodes of a prefix tree, and what a node accepts.

use std::collections::HashMap;
use vstd::prelude::*;

verus! {

/// One position in a prefix tree.
///
/// A node stands for the string spelled by the edges that lead to it. An edge
/// is labelled by the scalar value of the character it consumes.
#[derive(Debug)]
pub struct TrieNode {
    /// Whether a stored word ends exactly at this node.
    pub is_end_of_word: bool,
    /// The nodes one character further on, keyed by that character's scalar value.
    pub children: HashMap<u32, TrieNode>,
}

/// The label of the edge that consumes `c`.
pub open spec fn edge(c: char) -> u32 {
    c as u32
}

/// Whether `k` is the scalar value of a character.
pub open spec fn is_char_code(k: u32) -> bool {
    k <= 0xD7FF || 0xE000 <= k <= 0x10FFFF
}

/// Two characters with the same edge label are the same character.
pub proof fn lemma_edge_injective(a: char, b: char)
    ensures
        edge(a) == edge(b) <==> a == b,
{
}

impl TrieNode {
    /// The node reached from this one by consuming `c`, if there is one.
    pub open spec fn child(&self, c: char) -> Option<TrieNode> {
        if self.children@.contains_key(edge(c)) {
            Some(self.children@[edge(c)])
        } else {
            None
        }
    }

    /// Whether consuming `path` from this node never leaves the tree.
    pub open spec fn has_path(&self, path: Seq<char>) -> bool
        decreases path.len(),
    {
        if path.len() == 0 {
            true
        } else {
            match self.child(path[0]) {
                Some(next) => next.has_path(path.drop_first()),
                None => false,
            }
        }
    }

    /// Whether consuming `word` from this node ends at a node that closes a word.
    pub open spec fn accepts(&self, word: Seq<char>) -> bool
        decreases word.len(),
    {
        if word.len() == 0 {
            self.is_end_of_word
        } else {
            match self.child(word[0]) {
                Some(next) => next.accepts(word.drop_first()),
                None => false,
            }
        }
    }

    /// Whether every edge label at this node and below it is the scalar
    /// value of a character.
    pub open spec fn edges_are_chars(&self) -> bool
        decreases self,
    {
        forall|k: u32| #[trigger]
            self.children@.contains_key(k) ==> is_char_code(k)
                && self.children@[k].edges_are_chars()
    }

    /// Whether this node has no children and closes no word.
    pub open spec fn is_bare(&self) -> bool {
        !self.is_end_of_word && self.children@ == Map::<u32, TrieNode>::empty()
    }

    /// Whether `node` is what `self` holds below `path`: the node at the end
    /// of `path` where that path exists, and a bare node where it does not.
    /// It is stated of what the two accept, of their paths and of their edge
    /// labels.
    pub open spec fn holds_at(&self, path: Seq<char>, node: TrieNode) -> bool {
        &&& forall|w: Seq<char>| #[trigger] node.accepts(w) == self.accepts(path + w)
        &&& forall|p: Seq<char>| #[trigger]
            node.has_path(p) == (p.len() == 0 || self.has_path(path + p))
        &&& self.edges_are_chars() ==> node.edges_are_chars()
    }

    /// Whether `self` is `before` with `sub` put in place of what `before`
    /// holds below `path`, the nodes along `path` made where they were absent:
    /// stated of what the two accept, of their paths and of their edge labels.
    pub open spec fn is_graft(&self, before: TrieNode, path: Seq<char>, sub: TrieNode) -> bool {
        &&& forall|w: Seq<char>| #[trigger]
            self.accepts(w) == if path.is_prefix_of(w) {
                sub.accepts(w.skip(path.len() as int))
            } else {
                before.accepts(w)
            }
        &&& forall|p: Seq<char>| #[trigger]
            self.has_path(p) == if path.is_prefix_of(p) {
                sub.has_path(p.skip(path.len() as int))
            } else {
                before.has_path(p) || p.is_prefix_of(path)
            }
        &&& before.edges_are_chars() && sub.edges_are_chars() ==> self.edges_are_chars()
    }

    /// Whether `self` accepts `word` and what `before` accepts, has the paths
    /// of `before` and those that spell a leading part of `word`, and keeps
    /// its edge labels characters where those of `before` are.
    pub open spec fn is_extension(&self, before: TrieNode, word: Seq<char>) -> bool {
        &&& forall|w: Seq<char>| #[trigger] self.accepts(w) == (before.accepts(w) || w == word)
        &&& forall|p: Seq<char>| #[trigger]
            self.has_path(p) == (before.has_path(p) || p.is_prefix_of(word))
        &&& before.edges_are_chars() ==> self.edges_are_chars()
    }
}

impl Default for TrieNode {
    /// A node with no children at which no word ends.
    fn default() -> (node: TrieNode)
        ensures
            node.is_bare(),
    {
        TrieNode { is_end_of_word: false, children: HashMap::new() }
    }
}

/// A bare node accepts nothing and has no path but the empty one.
pub proof fn lemma_bare(node: TrieNode)
    requires
        node.is_bare(),
    ensures
        forall|w: Seq<char>| !#[trigger] node.accepts(w),
        forall|p: Seq<char>| #[trigger] node.has_path(p) == (p.len() == 0),
{
}

/// Whatever a node accepts is one of its paths, and so is every leading part
/// of one of its paths.
pub proof fn lemma_paths_closed(node: TrieNode, p: Seq<char>, w: Seq<char>)
    requires
        p.is_prefix_of(w),
        node.accepts(w) || node.has_path(w),
    ensures
        node.has_path(p),
    decreases p.len(),
{
    if p.len() > 0 {
        let next = node.child(w[0]).unwrap();
        lemma_paths_closed(next, p.drop_first(), w.drop_first());
    }
}

/// Every node holds itself below the empty path, and is itself with itself
/// grafted there.
pub proof fn lemma_at_root(node: TrieNode, after: TrieNode)
    ensures
        node.holds_at(Seq::empty(), node),
        after.is_graft(node, Seq::empty(), after),
{
    let e = Seq::<char>::empty();
    assert forall|w: Seq<char>| e + w == w && w.skip(0) == w && e.is_prefix_of(w) by {}
}

/// What changes in a node when the child under `c` is replaced by `sub`.
pub proof fn lemma_replace_child(before: TrieNode, after: TrieNode, c: char, sub: TrieNode)
    requires
        after.is_end_of_word == before.is_end_of_word,
        after.children@ == before.children@.insert(edge(c), sub),
    ensures
        forall|w: Seq<char>| #[trigger]
            after.accepts(w) == if w.len() > 0 && w[0] == c {
                sub.accepts(w.drop_first())
            } else {
                before.accepts(w)
            },
        forall|p: Seq<char>| #[trigger]
            after.has_path(p) == if p.len() > 0 && p[0] == c {
                sub.has_path(p.drop_first())
            } else {
                before.has_path(p)
            },
{
    assert forall|w: Seq<char>| #[trigger]
        after.accepts(w) == if w.len() > 0 && w[0] == c {
            sub.accepts(w.drop_first())
        } else {
            before.accepts(w)
        } by {
        if w.len() > 0 {
            lemma_edge_injective(w[0], c);
        }
    }
    assert forall|p: Seq<char>| #[trigger]
        after.has_path(p) == if p.len() > 0 && p[0] == c {
            sub.has_path(p.drop_first())
        } else {
            before.has_path(p)
        } by {
        if p.len() > 0 {
            lemma_edge_injective(p[0], c);
        }
    }
}

/// One step down: from what a tree holds below `path`, and the graft there,
/// to what it holds below `path` followed by `c`, and the graft there.
pub proof fn lemma_descend(
    root: TrieNode,
    grown: TrieNode,
    path: Seq<char>,
    c: char,
    cur: TrieNode,
    cur_grown: TrieNode,
    next: TrieNode,
    next_grown: TrieNode,
)
    requires
        root.holds_at(path, cur),
        grown.is_graft(root, path, cur_grown),
        cur_grown.is_end_of_word == cur.is_end_of_word,
        cur_grown.children@ == cur.children@.insert(edge(c), next_grown),
        match cur.child(c) {
            Some(n) => next == n,
            None => next.is_bare(),
        },
    ensures
        root.holds_at(path.push(c), next),
        grown.is_graft(root, path.push(c), next_grown),
{
    let longer = path.push(c);
    let n = path.len() as int;
    lemma_replace_child(cur, cur_grown, c, next_grown);
    if next.is_bare() {
        lemma_bare(next);
    }
    assert forall|w: Seq<char>| #[trigger] next.accepts(w) == root.accepts(longer + w) by {
        let v = seq![c] + w;
        assert(v.drop_first() =~= w);
        assert(path + v =~= longer + w);
        assert(cur.accepts(v) == root.accepts(path + v));
    }
    assert forall|p: Seq<char>| #[trigger]
        next.has_path(p) == (p.len() == 0 || root.has_path(longer + p)) by {
        let v = seq![c] + p;
        assert(v.drop_first() =~= p);
        assert(path + v =~= longer + p);
        assert(cur.has_path(v) == (v.len() == 0 || root.has_path(path + v)));
    }
    assert forall|w: Seq<char>| #[trigger]
        grown.accepts(w) == if longer.is_prefix_of(w) {
            next_grown.accepts(w.skip(n + 1))
        } else {
            root.accepts(w)
        } by {
        if path.is_prefix_of(w) {
            let v = w.skip(n);
            assert(path + v =~= w);
            if v.len() > 0 && v[0] == c {
                assert(v.drop_first() =~= w.skip(n + 1));
            } else if longer.is_prefix_of(w) {
                assert(w.subrange(0, n + 1)[n] == c);
            }
        }
    }
    assert forall|p: Seq<char>| #[trigger]
        grown.has_path(p) == if longer.is_prefix_of(p) {
            next_grown.has_path(p.skip(n + 1))
        } else {
            root.has_path(p) || p.is_prefix_of(longer)
        } by {
        if path.is_prefix_of(p) {
            let v = p.skip(n);
            assert(path + v =~= p);
            if v.len() > 0 && v[0] == c {
                assert(v.drop_first() =~= p.skip(n + 1));
            } else if longer.is_prefix_of(p) {
                assert(p.subrange(0, n + 1)[n] == c);
            }
        }
    }
}

/// The last step: closing a word at the node that a tree holds below `word`
/// extends the tree by `word`.
pub proof fn lemma_close(
    root: TrieNode,
    grown: TrieNode,
    word: Seq<char>,
    cur: TrieNode,
    cur_grown: TrieNode,
)
    requires
        root.holds_at(word, cur),
        grown.is_graft(root, word, cur_grown),
        cur_grown.is_end_of_word,
        cur_grown.children@ == cur.children@,
    ensures
        grown.is_extension(root, word),
{
    let n = word.len() as int;
    assert(word.is_prefix_of(word));
    assert forall|w: Seq<char>| #[trigger] grown.accepts(w) == (root.accepts(w) || w == word) by {
        if word.is_prefix_of(w) {
            let v = w.skip(n);
            assert(word + v =~= w);
            assert(cur.accepts(v) == root.accepts(word + v));
        }
    }
    assert forall|p: Seq<char>| #[trigger]
        grown.has_path(p) == (root.has_path(p) || p.is_prefix_of(word)) by {
        if word.is_prefix_of(p) {
            let v = p.skip(n);
            assert(word + v =~= p);
            assert(cur.has_path(v) == (v.len() == 0 || root.has_path(word + v)));
        }
    }
}

} // verus!
