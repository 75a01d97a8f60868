//! The spell checker: per-word verdicts against an already-built dictionary,
//! either over the trie index or by a direct scan of a word list.  Each
//! check is a pure query; a batch run builds nothing and reuses one index.

use vstd::prelude::*;
use crate::edit_distance::lev;
use crate::edit_distance::best_index;
use crate::edit_distance::scan_best;
use crate::edit_distance::lemma_best_index_minimal;
use crate::text::chars_of;
use crate::trie::DictionaryTrie;

verus! {

/// The per-word outcome of a spell check: the word stands in the dictionary
/// verbatim, or it does not, and the word, the closest dictionary word and
/// its distance are reported.
pub enum Spelling {
    Correct,
    Incorrect(String, String, usize),
}

/// The right verdict for `w` against the dictionary words `ws`: `Correct`
/// exactly when the minimum edit distance is zero, and otherwise
/// `Incorrect` carrying the checked word, the first closest dictionary word
/// in traversal order, and the minimum distance.
pub open spec fn verdict_ok(ws: Seq<Seq<char>>, w: Seq<char>, v: Spelling) -> bool {
    &&& ws.len() > 0
    &&& {
        let k = best_index(ws, w);
        let d = lev(ws[k], w);
        if d == 0 {
            v == Spelling::Correct
        } else {
            v matches Spelling::Incorrect(word, closest, dist) && word@ == w && closest@ == ws[k]
                && dist == d
        }
    }
}

/// Checks one word against the trie index: `Correct` when the word is held
/// verbatim, otherwise the closest held word and its distance; `None`
/// exactly when the dictionary is empty, which has no meaningful verdict.
pub fn check(word: &String, dictionary: &DictionaryTrie) -> (r: Option<Spelling>)
    requires
        dictionary.wf(),
        word@.len() < usize::MAX,
    ensures
        r is Some <==> dictionary.words().len() > 0,
        r matches Some(v) ==> verdict_ok(dictionary.words(), word@, v),
{
    match dictionary.nearest(word.as_str()) {
        None => None,
        Some((closest, d)) => {
            if d == 0 {
                Some(Spelling::Correct)
            } else {
                Some(Spelling::Incorrect(word.clone(), closest, d))
            }
        },
    }
}

/// Checks one word by a direct scan of a dictionary word list, with the
/// same verdict rule as `check`: ties go to the first entry of the list.
pub fn check_word_against_dictionary(word: &String, dictionary: &Vec<String>) -> (r: Option<
    Spelling,
>)
    requires
        word@.len() < usize::MAX,
        forall|k: int| 0 <= k < dictionary@.len() ==> (#[trigger] dictionary@[k])@.len()
            < usize::MAX,
    ensures
        r is Some <==> dictionary@.len() > 0,
        r matches Some(v) ==> verdict_ok(dictionary.deep_view(), word@, v),
{
    if dictionary.len() == 0 {
        return None;
    }
    let ghost dv = dictionary.deep_view();
    let wcs = chars_of(word.as_str());
    let ws = crate::text::chars_of_list(dictionary);
    proof {
        assert forall|k2: int| 0 <= k2 < dv.len() implies (#[trigger] dv[k2]).len()
            < usize::MAX by {
            assert(dv[k2] == dictionary@[k2].deep_view());
            assert(dictionary@[k2]@.len() < usize::MAX);
        }
    }
    let (bi, bd) = scan_best(&ws, &wcs);
    proof {
        lemma_best_index_minimal(dv, word@);
    }
    if bd == 0 {
        Some(Spelling::Correct)
    } else {
        let closest = vstd::std_specs::vec::vec_index(dictionary, bi).clone();
        Some(Spelling::Incorrect(word.clone(), closest, bd))
    }
}

/// Checks a batch of words against one dictionary index, built once by the
/// caller and reused for every query; the verdicts come back in input
/// order.  `None` exactly when the dictionary is empty.
pub fn perform_spellcheck(words: &Vec<String>, dictionary: &DictionaryTrie) -> (r: Option<
    Vec<Spelling>,
>)
    requires
        dictionary.wf(),
        forall|k: int| 0 <= k < words@.len() ==> (#[trigger] words@[k])@.len() < usize::MAX,
    ensures
        r is Some <==> dictionary.words().len() > 0,
        r matches Some(vs) ==> vs@.len() == words@.len() && forall|k: int|
            0 <= k < words@.len() ==> verdict_ok(
                dictionary.words(),
                (#[trigger] words@[k])@,
                vs@[k],
            ),
{
    if dictionary.is_empty() {
        return None;
    }
    let mut vs: Vec<Spelling> = Vec::new();
    let mut k: usize = 0;
    while k < words.len()
        invariant
            k <= words@.len(),
            dictionary.wf(),
            dictionary.words().len() > 0,
            forall|k2: int| 0 <= k2 < words@.len() ==> (#[trigger] words@[k2])@.len() < usize::MAX,
            vs@.len() == k,
            forall|k2: int|
                0 <= k2 < k ==> verdict_ok(dictionary.words(), (#[trigger] words@[k2])@, vs@[k2]),
        decreases words@.len() - k,
    {
        let entry = vstd::std_specs::vec::vec_index(words, k);
        match check(entry, dictionary) {
            Some(v) => {
                vs.push(v);
            },
            None => {
                proof {
                    assert(false);
                }
            },
        }
        k = k + 1;
    }
    Some(vs)
}

} // verus!
