//! The lexicon: a `trie_rs` trie of UTF-8 words, queried for exact words and
//! for viable prefixes.
use crate::grid::Letter;
use trie_rs::Trie;
use vstd::prelude::*;

verus! {

/// `trie_rs::Trie`, held opaque: what it holds is `trie_words`.
#[verifier::external_type_specification]
#[verifier::external_body]
#[verifier::reject_recursive_types(Label)]
pub struct ExTrie<Label>(Trie<Label>);

/// The words that a trie holds, each as the sequence of its labels.
pub uninterp spec fn trie_words(t: Trie<u8>) -> Set<Seq<u8>>;

/// The UTF-8 encoding of one character.
pub open spec fn utf8_char(c: char) -> Seq<u8> {
    let v = c as u32 as int;
    if v < 0x80 {
        seq![v as u8]
    } else if v < 0x800 {
        seq![(0xC0 + v / 64) as u8, (0x80 + v % 64) as u8]
    } else if v < 0x10000 {
        seq![(0xE0 + v / 4096) as u8, (0x80 + (v / 64) % 64) as u8, (0x80 + v % 64) as u8]
    } else {
        seq![
            (0xF0 + v / 262144) as u8,
            (0x80 + (v / 4096) % 64) as u8,
            (0x80 + (v / 64) % 64) as u8,
            (0x80 + v % 64) as u8,
        ]
    }
}

/// The UTF-8 encoding of a sequence of characters.
pub open spec fn utf8_of(s: Seq<char>) -> Seq<u8>
    decreases s.len(),
{
    if s.len() == 0 {
        seq![]
    } else {
        utf8_of(s.drop_last()) + utf8_char(s.last())
    }
}

/// The characters of the cells of a path, in order.
pub open spec fn word_of(p: Seq<Letter>) -> Seq<char> {
    p.map_values(|l: Letter| l.letter)
}

/// `a` is a prefix of `b`.
pub open spec fn is_prefix(a: Seq<u8>, b: Seq<u8>) -> bool {
    a.len() <= b.len() && b.subrange(0, a.len() as int) == a
}

/// `w` is a word of the lexicon `words`.
pub open spec fn is_word(words: Set<Seq<u8>>, w: Seq<char>) -> bool {
    words.contains(utf8_of(w))
}

/// Some word of the lexicon `words` begins with `w` (or is `w`).
pub open spec fn is_viable(words: Set<Seq<u8>>, w: Seq<char>) -> bool {
    exists|x: Seq<u8>| words.contains(x) && is_prefix(utf8_of(w), x)
}

/// Relies on `trie_rs::Trie::exact_match`: true exactly when the UTF-8 bytes
/// of the query are a word of the trie.
#[verifier::external_body]
pub(crate) fn trie_exact_match(t: &Trie<u8>, path: &Vec<Letter>) -> (r: bool)
    requires
        path@.len() > 0,
    ensures
        r == is_word(trie_words(*t), word_of(path@)),
{
    let w: String = path.iter().map(|l| l.letter).collect();
    t.exact_match(w)
}

/// Relies on `trie_rs::Trie::predictive_search`: the words of the trie that
/// begin with the UTF-8 bytes of the query. It panics on an empty query.
#[verifier::external_body]
pub(crate) fn trie_predictive_search(t: &Trie<u8>, path: &Vec<Letter>) -> (r: Vec<Vec<u8>>)
    requires
        path@.len() > 0,
    ensures
        forall|i: int| 0 <= i < r@.len() ==> trie_words(*t).contains(#[trigger] r@[i]@) && is_prefix(
            utf8_of(word_of(path@)),
            r@[i]@,
        ),
        forall|x: Seq<u8>|
            trie_words(*t).contains(x) && is_prefix(utf8_of(word_of(path@)), x) ==> exists|i: int|
                0 <= i < r@.len() && #[trigger] r@[i]@ == x,
{
    let w: String = path.iter().map(|l| l.letter).collect();
    t.predictive_search(w)
}

/// Whether some word of the trie begins with the letters of `path`.
pub(crate) fn has_prefix(t: &Trie<u8>, path: &Vec<Letter>) -> (r: bool)
    requires
        path@.len() > 0,
    ensures
        r == is_viable(trie_words(*t), word_of(path@)),
{
    let found = trie_predictive_search(t, path);
    if found.len() > 0 {
        assert(trie_words(*t).contains(found@[0]@));
        true
    } else {
        false
    }
}

} // verus!
