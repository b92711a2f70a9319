//! What holds of every tree, whatever it stored before.
//!
//! Each statement is over the words and prefixes of a tree, the terms in
//! which the operations of [`Trie`] state their results: `search` answers
//! whether a string is among the words, `starts_with` whether it is among
//! the prefixes.

use crate::node::lemma_paths_closed;
use crate::trie::prefix_closure;
use crate::trie::Trie;
use vstd::prelude::*;

verus! {

/// A word is stored once it has been added: a search for it succeeds.
pub proof fn law_added_word_is_stored(before: Trie, after: Trie, word: Seq<char>)
    requires
        after.is_insert_of(before, word),
    ensures
        after@.contains(word),
{
}

/// Once a word has been added, each of its leading parts is a prefix of the
/// tree: the empty string, the word itself and all between. The tree starts
/// with each of them.
pub proof fn law_added_word_gives_prefixes(
    before: Trie,
    after: Trie,
    word: Seq<char>,
    prefix: Seq<char>,
)
    requires
        after.is_insert_of(before, word),
        prefix.is_prefix_of(word),
    ensures
        after.prefixes().contains(prefix),
        prefix_closure(after@).contains(prefix),
{
}

/// Adding a word leaves every other word as it was: stored if it was stored
/// before, and not stored if it was not.
pub proof fn law_other_words_unchanged(
    before: Trie,
    after: Trie,
    word: Seq<char>,
    other: Seq<char>,
)
    requires
        after.is_insert_of(before, word),
        other != word,
    ensures
        after@.contains(other) == before@.contains(other),
{
}

/// Adding a word a second time changes neither the words nor the prefixes.
pub proof fn law_adding_twice_is_adding_once(
    before: Trie,
    once: Trie,
    twice: Trie,
    word: Seq<char>,
)
    requires
        once.is_insert_of(before, word),
        twice.is_insert_of(once, word),
    ensures
        twice@ == once@,
        twice.prefixes() == once.prefixes(),
        once.wf() ==> twice.wf(),
{
}

/// A tree without words stores no string, and its only prefix is the empty
/// string.
pub proof fn law_empty_tree(trie: Trie, s: Seq<char>)
    requires
        trie.wf(),
        trie@ == Set::<Seq<char>>::empty(),
    ensures
        !trie@.contains(s),
        trie.prefixes().contains(s) == (s.len() == 0),
{
}

/// A proper leading part of an added word, not stored before, is a prefix of
/// the tree and still not one of its words.
pub proof fn law_proper_prefix_is_no_word(
    before: Trie,
    after: Trie,
    word: Seq<char>,
    prefix: Seq<char>,
)
    requires
        after.is_insert_of(before, word),
        prefix.is_prefix_of(word),
        prefix != word,
        !before@.contains(prefix),
    ensures
        !after@.contains(prefix),
        after.prefixes().contains(prefix),
{
}

/// A string that leaves an added word somewhere, and was no prefix of the
/// tree before, is neither a word nor a prefix of the tree afterwards.
pub proof fn law_divergent_string_is_absent(
    before: Trie,
    after: Trie,
    word: Seq<char>,
    other: Seq<char>,
)
    requires
        after.is_insert_of(before, word),
        !other.is_prefix_of(word),
        !before.prefixes().contains(other),
    ensures
        !after@.contains(other),
        !after.prefixes().contains(other),
{
    if before@.contains(other) {
        assert(other.is_prefix_of(other));
        lemma_paths_closed(before.root, other, other);
    }
}

/// Every stored word is a prefix of the tree, and so is every leading part
/// of a prefix.
pub proof fn law_prefixes_closed(trie: Trie, prefix: Seq<char>, longer: Seq<char>)
    requires
        prefix.is_prefix_of(longer),
        trie@.contains(longer) || trie.prefixes().contains(longer),
    ensures
        trie.prefixes().contains(prefix),
{
    lemma_paths_closed(trie.root, prefix, longer);
}

/// A tree that began without words stores the words that were added to it
/// and no others, and its prefixes are the empty string and the leading
/// parts of those words. `stages` holds the tree before the first addition
/// and after each one, `words` the words in the order in which they came.
pub proof fn law_words_are_those_added(stages: Seq<Trie>, words: Seq<Seq<char>>)
    requires
        stages.len() == words.len() + 1,
        stages[0].wf(),
        stages[0]@ == Set::<Seq<char>>::empty(),
        forall|i: int|
            0 <= i < words.len() ==> stages[i + 1].is_insert_of(stages[i], #[trigger] words[i]),
    ensures
        stages.last().wf(),
        stages.last()@ == words.to_set(),
        stages.last().prefixes() == prefix_closure(words.to_set()),
    decreases words.len(),
{
    if words.len() > 0 {
        let n = words.len() - 1;
        let earlier = words.drop_last();
        let earlier_stages = stages.drop_last();
        assert forall|i: int| 0 <= i < earlier.len() implies earlier_stages[i + 1].is_insert_of(
            earlier_stages[i],
            #[trigger] earlier[i],
        ) by {
            assert(earlier[i] == words[i]);
        }
        law_words_are_those_added(earlier_stages, earlier);
        assert(stages[n + 1].is_insert_of(stages[n], words[n]));
        assert forall|w: Seq<char>| words.contains(w) == (earlier.contains(w) || w == words[n]) by {
            if words.contains(w) {
                let i = choose|i: int| 0 <= i < words.len() && words[i] == w;
                if i < n {
                    assert(earlier[i] == w);
                }
            }
            if earlier.contains(w) {
                let i = choose|i: int| 0 <= i < earlier.len() && earlier[i] == w;
                assert(words[i] == w);
            }
        }
        assert(words.to_set() =~= earlier.to_set().insert(words[n]));
    }
}

} // verus!
