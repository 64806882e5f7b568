//! Terms: what is left of a word once it is reduced to its letters.
//!
//! A term is written into statements of the store, both when a document is
//! indexed and when a query looks it up, so it holds nothing but the letters
//! `a` to `z` and `A` to `Z`.

use regex::Regex;
use vstd::prelude::*;

verus! {

/// Whether the character is one of the letters `a` to `z` and `A` to `Z`.
pub open spec fn letter(c: char) -> bool {
    let n = c as u32;
    (0x61 <= n <= 0x7a) || (0x41 <= n <= 0x5a)
}

/// The letters of a text, in their order.
pub open spec fn letters_of(text: Seq<char>) -> Seq<char>
    decreases text.len(),
{
    if text.len() == 0 {
        Seq::empty()
    } else if letter(text.last()) {
        letters_of(text.drop_last()).push(text.last())
    } else {
        letters_of(text.drop_last())
    }
}

/// Whether the text is a term: not empty, and letters only.
pub open spec fn is_term(text: Seq<char>) -> bool {
    text.len() > 0 && forall|i: int| 0 <= i < text.len() ==> letter(#[trigger] text[i])
}

/// What is left holds letters only.
pub proof fn lemma_letters_of(text: Seq<char>)
    ensures
        forall|i: int| 0 <= i < letters_of(text).len() ==> letter(#[trigger] letters_of(text)[i]),
        letters_of(text).len() <= text.len(),
    decreases text.len(),
{
    if text.len() > 0 {
        lemma_letters_of(text.drop_last());
    }
}

/// A text of letters only is left as it is.
pub proof fn lemma_letters_of_letters(text: Seq<char>)
    requires
        forall|i: int| 0 <= i < text.len() ==> letter(#[trigger] text[i]),
    ensures
        letters_of(text) == text,
    decreases text.len(),
{
    if text.len() > 0 {
        lemma_letters_of_letters(text.drop_last());
        assert(text.drop_last().push(text.last()) =~= text);
    }
}

/// `Regex::new` and `Regex::replace_all` of the crate `regex`, on the
/// pattern `[^a-zA-Z]+` and the empty replacement, taken on trust. The
/// pattern matches each longest run of characters other than the letters `a`
/// to `z` and `A` to `Z`, and `replace_all` puts the replacement in the place
/// of every match, so the result holds the letters of the text in their
/// order. `None` where the pattern is not accepted; nothing is claimed of
/// when that is.
#[verifier::external_body]
fn strip_matches(pattern: &str, text: &str, with: &str) -> (r: Option<String>)
    requires
        pattern@ == "[^a-zA-Z]+"@,
        with@.len() == 0,
    ensures
        r matches Some(s) ==> s@ == letters_of(text@),
{
    match Regex::new(pattern) {
        Ok(re) => Some(re.replace_all(text, with).into_owned()),
        Err(_) => None,
    }
}

/// Whether the character is a letter.
pub fn is_letter(c: char) -> (r: bool)
    ensures
        r == letter(c),
{
    let n: u32 = c as u32;
    (0x61 <= n && n <= 0x7a) || (0x41 <= n && n <= 0x5a)
}

/// Copies the letters of a text.
fn keep_letters(text: &str) -> (out: String)
    ensures
        out@ == letters_of(text@),
{
    let mut out = String::new();
    proof {
        assert(text@.take(0) =~= Seq::<char>::empty());
    }
    for c in it: text.chars()
        invariant
            it.seq() == text@,
            out@ == letters_of(text@.take(it.index() as int)),
    {
        proof {
            let i = it.index() as int;
            assert(text@.take(i + 1).drop_last() =~= text@.take(i));
            assert(text@.take(i + 1).last() == c);
        }
        if is_letter(c) {
            out.push(c);
        }
    }
    proof {
        assert(text@.take(text@.len() as int) =~= text@);
    }
    out
}

/// Strips a text of every character that is not a letter. The work is done
/// by a regular expression; should its pattern not be accepted, the letters
/// are copied one by one.
pub fn sanitize(text: &str) -> (out: String)
    ensures
        out@ == letters_of(text@),
{
    proof {
        reveal_strlit("");
    }
    match strip_matches("[^a-zA-Z]+", text, "") {
        Some(stripped) => stripped,
        None => keep_letters(text),
    }
}

/// The word that a stemmer gave for a token; the empty word where it gave
/// none.
pub open spec fn lemma_of<E>(stemmed: Result<String, E>) -> Seq<char> {
    match stemmed {
        Ok(word) => word@,
        Err(_) => Seq::empty(),
    }
}

/// Takes what a stemmer gave for a token. Where the stemmer failed, the
/// token has the empty word, which gives no term.
pub fn lemmatize<E>(stemmed: Result<String, E>) -> (word: String)
    ensures
        word@ == lemma_of(stemmed),
{
    match stemmed {
        Ok(word) => word,
        Err(_) => String::new(),
    }
}

/// The term that a normalized word stands for, if any.
pub open spec fn term_of(word: Seq<char>) -> Option<Seq<char>> {
    if letters_of(word).len() == 0 {
        None
    } else {
        Some(letters_of(word))
    }
}

/// Turns a normalized word into a term: its letters. A word without letters
/// gives no term.
pub fn normalize(word: &str) -> (r: Option<String>)
    ensures
        match r {
            Some(term) => term_of(word@) == Some(term@),
            None => term_of(word@) is None,
        },
        r matches Some(term) ==> is_term(term@),
{
    let term = sanitize(word);
    proof {
        lemma_letters_of(word@);
    }
    if term.as_str().is_empty() {
        None
    } else {
        Some(term)
    }
}

} // verus!
