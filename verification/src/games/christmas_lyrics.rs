//! The words of "The Twelve Days of Christmas", verse by verse.

use convert_case::{Case, Casing};
use vstd::prelude::*;
use vstd::string::*;

verus! {

/// The number of days, and so of verses and of gifts.
pub const DAYS: usize = 12;

/// How the day with this number is called in its verse; days count from 0.
pub open spec fn ordinal_text(day: int) -> Seq<char> {
    if day == 0 {
        "first"@
    } else if day == 1 {
        "second"@
    } else if day == 2 {
        "third"@
    } else if day == 3 {
        "fourth"@
    } else if day == 4 {
        "fifth"@
    } else if day == 5 {
        "sixth"@
    } else if day == 6 {
        "seventh"@
    } else if day == 7 {
        "eighth"@
    } else if day == 8 {
        "ninth"@
    } else if day == 9 {
        "tenth"@
    } else if day == 10 {
        "eleventh"@
    } else {
        "twelfth"@
    }
}

/// How many there are of the gift with this number; gifts count from 0.
pub open spec fn count_text(gift: int) -> Seq<char> {
    if gift == 0 {
        "a"@
    } else if gift == 1 {
        "two"@
    } else if gift == 2 {
        "three"@
    } else if gift == 3 {
        "four"@
    } else if gift == 4 {
        "five"@
    } else if gift == 5 {
        "six"@
    } else if gift == 6 {
        "seven"@
    } else if gift == 7 {
        "eight"@
    } else if gift == 8 {
        "nine"@
    } else if gift == 9 {
        "ten"@
    } else if gift == 10 {
        "eleven"@
    } else {
        "twelve"@
    }
}

/// What the gift with this number is.
pub open spec fn gift_text(gift: int) -> Seq<char> {
    if gift == 0 {
        "partridge in a pear tree"@
    } else if gift == 1 {
        "turtle doves"@
    } else if gift == 2 {
        "French hens"@
    } else if gift == 3 {
        "calling birds"@
    } else if gift == 4 {
        "golden rings"@
    } else if gift == 5 {
        "geese a-laying"@
    } else if gift == 6 {
        "swans a-swimming"@
    } else if gift == 7 {
        "maids a-milking"@
    } else if gift == 8 {
        "ladies dancing"@
    } else if gift == 9 {
        "lords a-leaping"@
    } else if gift == 10 {
        "pipers piping"@
    } else {
        "drummers drumming"@
    }
}

/// The line of a verse that names one gift, before its letters are put into
/// sentence case. The first gift closes the verse: with a full stop, after
/// an "and" in every verse but the first, and with an exclamation mark in the
/// last verse. Every other gift is followed by a comma.
pub open spec fn raw_gift_line(day: int, gift: int) -> Seq<char> {
    let what = count_text(gift) + " "@ + gift_text(gift);
    if gift != 0 {
        what + ","@
    } else if day == 0 {
        what + "."@
    } else if day == DAYS - 1 {
        "and "@ + what + "!"@
    } else {
        "and "@ + what + "."@
    }
}

/// The two lines that open the verse of a day.
pub open spec fn opening_text(day: int) -> Seq<char> {
    "On the "@ + ordinal_text(day) + " day of Christmas,\nmy true love gave to me"@
}

/// What [`to_sentence_case`] makes of a text.
pub uninterp spec fn sentence_cased(text: Seq<char>) -> Seq<char>;

/// The lines of the verse of a day: its opening, then its gifts from the
/// newest down to the first.
pub open spec fn verse_lines(day: int) -> Seq<Seq<char>> {
    Seq::new(
        (day + 2) as nat,
        |k: int|
            if k == 0 {
                opening_text(day)
            } else {
                sentence_cased(raw_gift_line(day, day + 1 - k))
            },
    )
}

/// The ordinal of a day.
fn ordinal(day: usize) -> (text: &'static str)
    requires
        day < DAYS,
    ensures
        text@ == ordinal_text(day as int),
{
    if day == 0 {
        "first"
    } else if day == 1 {
        "second"
    } else if day == 2 {
        "third"
    } else if day == 3 {
        "fourth"
    } else if day == 4 {
        "fifth"
    } else if day == 5 {
        "sixth"
    } else if day == 6 {
        "seventh"
    } else if day == 7 {
        "eighth"
    } else if day == 8 {
        "ninth"
    } else if day == 9 {
        "tenth"
    } else if day == 10 {
        "eleventh"
    } else {
        "twelfth"
    }
}

/// The number word of a gift.
fn count(gift: usize) -> (text: &'static str)
    requires
        gift < DAYS,
    ensures
        text@ == count_text(gift as int),
{
    if gift == 0 {
        "a"
    } else if gift == 1 {
        "two"
    } else if gift == 2 {
        "three"
    } else if gift == 3 {
        "four"
    } else if gift == 4 {
        "five"
    } else if gift == 5 {
        "six"
    } else if gift == 6 {
        "seven"
    } else if gift == 7 {
        "eight"
    } else if gift == 8 {
        "nine"
    } else if gift == 9 {
        "ten"
    } else if gift == 10 {
        "eleven"
    } else {
        "twelve"
    }
}

/// The name of a gift.
fn present(gift: usize) -> (text: &'static str)
    requires
        gift < DAYS,
    ensures
        text@ == gift_text(gift as int),
{
    if gift == 0 {
        "partridge in a pear tree"
    } else if gift == 1 {
        "turtle doves"
    } else if gift == 2 {
        "French hens"
    } else if gift == 3 {
        "calling birds"
    } else if gift == 4 {
        "golden rings"
    } else if gift == 5 {
        "geese a-laying"
    } else if gift == 6 {
        "swans a-swimming"
    } else if gift == 7 {
        "maids a-milking"
    } else if gift == 8 {
        "ladies dancing"
    } else if gift == 9 {
        "lords a-leaping"
    } else if gift == 10 {
        "pipers piping"
    } else {
        "drummers drumming"
    }
}

/// Puts a text into sentence case with `convert_case::Casing::to_case` and
/// `Case::Sentence`. The crate documents that the text is split into words
/// at its default boundaries, that the first word is capitalised and the
/// others are put into lower case, and that the words are joined by single
/// spaces. Where exactly it splits takes the crate's own tables to say, so
/// the result only has a name here.
#[verifier::external_body]
fn to_sentence_case(text: &str) -> (cased: String)
    ensures
        cased@ == sentence_cased(text@),
{
    text.to_case(Case::Sentence)
}

/// The two lines that open the verse of a day.
pub fn opening(day: usize) -> (text: String)
    requires
        day < DAYS,
    ensures
        text@ == opening_text(day as int),
{
    let mut text = String::from_str("On the ");
    text.append(ordinal(day));
    text.append(" day of Christmas,\nmy true love gave to me");
    text
}

/// The line of the verse of `day` that names `gift`, in sentence case.
pub fn gift_line(day: usize, gift: usize) -> (line: String)
    requires
        day < DAYS,
        gift < DAYS,
    ensures
        line@ == sentence_cased(raw_gift_line(day as int, gift as int)),
{
    let mut raw = if gift == 0 && day != 0 {
        String::from_str("and ")
    } else {
        String::new()
    };
    raw.append(count(gift));
    raw.append(" ");
    raw.append(present(gift));
    raw.append(
        if gift != 0 {
            ","
        } else if day == DAYS - 1 {
            "!"
        } else {
            "."
        },
    );
    assert(raw@ =~= raw_gift_line(day as int, gift as int));
    to_sentence_case(raw.as_str())
}

/// The lines of the verse of a day, in the order in which they are sung.
pub fn verse(day: usize) -> (lines: Vec<String>)
    requires
        day < DAYS,
    ensures
        lines@.len() == day + 2,
        forall|k: int| 0 <= k < lines@.len() ==> (#[trigger] lines@[k])@ == verse_lines(day as int)[k],
{
    let mut lines: Vec<String> = Vec::new();
    lines.push(opening(day));
    let mut gift = day + 1;
    while gift > 0
        invariant
            gift <= day + 1,
            day < DAYS,
            lines@.len() == day + 2 - gift,
            forall|k: int| 0 <= k < lines@.len() ==> (#[trigger] lines@[k])@ == verse_lines(day as int)[k],
        decreases gift,
    {
        gift -= 1;
        lines.push(gift_line(day, gift));
    }
    lines
}

} // verus!
