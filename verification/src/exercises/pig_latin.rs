//! Pig Latin: a word that starts with a vowel gets "hay" at its end; any
//! other word sends its first letter to the end and gets "ay" after it.

use vstd::prelude::*;
use vstd::string::*;

verus! {

/// The vowels that the rule knows: lower case only.
pub open spec fn is_vowel(c: char) -> bool {
    c == 'a' || c == 'i' || c == 'u' || c == 'e' || c == 'o'
}

/// The Pig Latin form of a word; the empty word stays as it is.
pub open spec fn pig_latin(word: Seq<char>) -> Seq<char> {
    if word.len() == 0 {
        word
    } else if is_vowel(word[0]) {
        word + seq!['h', 'a', 'y']
    } else {
        word.subrange(1, word.len() as int) + seq![word[0], 'a', 'y']
    }
}

/// What [`replace_words`] hands back for a pattern that compiles: `text`
/// with every match of `pattern` replaced by the Pig Latin form of that
/// match, and everything between the matches as it was.
pub uninterp spec fn words_replaced(pattern: Seq<char>, text: Seq<char>) -> Seq<char>;

fn vowel(c: char) -> (r: bool)
    ensures
        r == is_vowel(c),
{
    c == 'a' || c == 'i' || c == 'u' || c == 'e' || c == 'o'
}

/// Turns one word into Pig Latin.
pub fn convert_to_pig_latin(word: &str) -> (converted: String)
    ensures
        converted@ == pig_latin(word@),
{
    let len = word.unicode_len();
    if len == 0 {
        return String::from_str(word);
    }
    let first_char = word.get_char(0);
    if vowel(first_char) {
        proof {
            reveal_strlit("hay");
            assert("hay"@ =~= seq!['h', 'a', 'y']);
        }
        let mut converted = String::from_str(word);
        converted.append("hay");
        converted
    } else {
        proof {
            reveal_strlit("ay");
            assert(word@.subrange(0, 1) + "ay"@ =~= seq![word@[0], 'a', 'y']);
        }
        let mut converted = String::from_str(word.substring_char(1, len));
        converted.append(word.substring_char(0, 1));
        converted.append("ay");
        assert(converted@ =~= pig_latin(word@));
        converted
    }
}

/// Compiles `pattern` with `regex::Regex::new` and, where that succeeds,
/// calls `Regex::replace_all` on `text` with a replacer that turns each match
/// into its Pig Latin form. The regex crate documents that all
/// non-overlapping matches are replaced; which parts of a text match a
/// pattern is the crate's own matter, so the result only has a name here.
/// `None` stands for a pattern that the crate refuses.
#[verifier::external_body]
fn replace_words(pattern: &str, text: &str) -> (replaced: Option<String>)
    ensures
        replaced matches Some(s) ==> s@ == words_replaced(pattern@, text@),
{
    match regex::Regex::new(pattern) {
        Ok(re) => Some(
            re.replace_all(text, |caps: &regex::Captures| convert_to_pig_latin(&caps[0])).into_owned(),
        ),
        Err(_) => None,
    }
}

/// Turns every word of a sentence, that is every run of the letters `a` to
/// `z` and `A` to `Z`, into Pig Latin and leaves the rest as it is.
///
/// Nothing comes back where the regex crate refuses the pattern. Whether it
/// does is the crate's to say: it measures a compiled pattern against a limit
/// in bytes, which is a matter of the machine.
pub fn convert_sentence(sentence: &str) -> (converted: Option<String>)
    ensures
        converted matches Some(s) ==> s@ == words_replaced("[a-zA-Z]+"@, sentence@),
{
    replace_words("[a-zA-Z]+", sentence)
}

} // verus!
