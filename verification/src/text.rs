//! Text handling at the edge of the core: splitting a text into word tokens
//! under Unicode word-boundary rules, and conversions between strings and
//! character vectors.  The splitting itself is done by an outside crate; the
//! conversions are verified loops.

use vstd::prelude::*;
use vstd::string::StrSliceExecFns;

verus! {

/// The words of a text under Unicode word-boundary segmentation, in order.
/// What this sequence holds takes the full boundary rules to write out, but
/// it depends on the characters of the text alone.
pub uninterp spec fn unicode_word_seq(s: Seq<char>) -> Seq<Seq<char>>;

/// Splits a text into its word tokens, in order of appearance.
///
/// Relies on unicode-segmentation's `UnicodeSegmentation::unicode_words`:
/// the substrings between Unicode word boundaries that hold alphanumeric
/// characters, a function of the text alone; an empty text has no words.
#[verifier::external_body]
pub fn tokenize(text: &str) -> (r: Vec<String>)
    ensures
        r.deep_view() == unicode_word_seq(text@),
        text@.len() == 0 ==> r@.len() == 0,
{
    unicode_segmentation::UnicodeSegmentation::unicode_words(text)
        .map(|w| w.to_string())
        .collect()
}

/// The characters of a string slice, as a vector.
pub fn chars_of(s: &str) -> (r: Vec<char>)
    ensures
        r@ == s@,
{
    let n = s.unicode_len();
    let mut r: Vec<char> = Vec::new();
    let mut i: usize = 0;
    while i < n
        invariant
            i <= n,
            n == s@.len(),
            r@ =~= s@.take(i as int),
        decreases n - i,
    {
        r.push(s.get_char(i));
        i = i + 1;
    }
    proof {
        assert(s@.take(n as int) =~= s@);
    }
    r
}

/// The characters of each string in a list, in order.
pub fn chars_of_list(words: &Vec<String>) -> (ws: Vec<Vec<char>>)
    ensures
        ws.deep_view() == words.deep_view(),
        ws@.len() == words@.len(),
{
    let ghost dv = words.deep_view();
    let mut ws: Vec<Vec<char>> = Vec::new();
    let mut k: usize = 0;
    while k < words.len()
        invariant
            k <= words@.len(),
            dv == words.deep_view(),
            dv.len() == words@.len(),
            ws.deep_view() =~= dv.take(k as int),
        decreases words@.len() - k,
    {
        let ghost dvb = ws.deep_view();
        let entry = vstd::std_specs::vec::vec_index(words, k);
        let cs = chars_of(entry.as_str());
        ws.push(cs);
        proof {
            assert(dv[k as int] == words@[k as int].deep_view());
            assert(words@[k as int].deep_view() == words@[k as int]@);
            assert(cs.deep_view() =~= cs@);
            assert(ws.deep_view() =~= dvb.push(dv[k as int]));
            assert(ws.deep_view() =~= dv.take(k as int + 1));
        }
        k = k + 1;
    }
    proof {
        assert(dv.take(dv.len() as int) =~= dv);
        assert(ws.deep_view() =~= dv);
    }
    ws
}

/// Appends one character to a string.
///
/// Relies on std's `String::push`: pushes the given character onto the end
/// of the string.
#[verifier::external_body]
fn push_char(s: &mut String, c: char)
    ensures
        final(s)@ == old(s)@.push(c),
{
    s.push(c);
}

/// A string holding exactly the given characters.
pub fn string_of_chars(cs: &Vec<char>) -> (s: String)
    ensures
        s@ == cs@,
{
    let mut s = String::new();
    let mut i: usize = 0;
    while i < cs.len()
        invariant
            i <= cs@.len(),
            s@ =~= cs@.take(i as int),
        decreases cs@.len() - i,
    {
        push_char(&mut s, cs[i]);
        i = i + 1;
    }
    proof {
        assert(cs@.take(cs@.len() as int) =~= cs@);
    }
    s
}

} // verus!
