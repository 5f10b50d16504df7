//! Characters and strings.

use vstd::prelude::*;

verus! {

/// How two values of one kind compare.
#[derive(Debug, Clone, Copy, PartialEq, Eq, Structural)]
pub enum FieldOrder {
    Less,
    Equal,
    Greater,
}

/// The lexicographic order of two texts by the code points of their characters.
pub open spec fn text_order(a: Seq<char>, b: Seq<char>) -> FieldOrder
    decreases a.len(),
{
    if a.len() == 0 {
        if b.len() == 0 {
            FieldOrder::Equal
        } else {
            FieldOrder::Less
        }
    } else if b.len() == 0 {
        FieldOrder::Greater
    } else if a[0] < b[0] {
        FieldOrder::Less
    } else if a[0] > b[0] {
        FieldOrder::Greater
    } else {
        text_order(a.skip(1), b.skip(1))
    }
}

/// Texts compare as equal exactly where they are equal.
pub proof fn text_order_equal(a: Seq<char>, b: Seq<char>)
    ensures
        text_order(a, b) == FieldOrder::Equal <==> a == b,
    decreases a.len(),
{
    if a.len() == 0 || b.len() == 0 {
        if a.len() == b.len() {
            assert(a =~= b);
        }
    } else if a[0] == b[0] {
        text_order_equal(a.skip(1), b.skip(1));
        assert(a =~= seq![a[0]] + a.skip(1));
        assert(b =~= seq![b[0]] + b.skip(1));
        if a == b {
            assert(a.skip(1) == b.skip(1));
        }
    }
}

/// The characters of a text.
pub fn chars_of(text: &str) -> (chars: Vec<char>)
    ensures
        chars@ == text@,
{
    let mut chars: Vec<char> = Vec::new();
    for c in it: text.chars()
        invariant
            it.seq() == text@,
            chars@ == text@.take(it.index() as int),
    {
        chars.push(c);
        assert(chars@ =~= text@.take(it.index() + 1));
    }
    assert(text@.take(text@.len() as int) =~= text@);
    chars
}

/// How two texts compare.
pub fn compare_text(a: &str, b: &str) -> (r: FieldOrder)
    ensures
        r == text_order(a@, b@),
{
    let x = chars_of(a);
    let y = chars_of(b);
    let mut i: usize = 0;
    assert(a@.skip(0) =~= a@);
    assert(b@.skip(0) =~= b@);
    while i < x.len() && i < y.len()
        invariant
            i <= x@.len(),
            i <= y@.len(),
            x@ == a@,
            y@ == b@,
            text_order(a@, b@) == text_order(a@.skip(i as int), b@.skip(i as int)),
        decreases x@.len() - i,
    {
        if x[i] < y[i] {
            return FieldOrder::Less;
        }
        if x[i] > y[i] {
            return FieldOrder::Greater;
        }
        proof {
            assert(a@.skip(i as int).skip(1) =~= a@.skip(i + 1));
            assert(b@.skip(i as int).skip(1) =~= b@.skip(i + 1));
        }
        i += 1;
    }
    if x.len() == y.len() {
        FieldOrder::Equal
    } else if x.len() < y.len() {
        FieldOrder::Less
    } else {
        FieldOrder::Greater
    }
}

/// Whether two texts are equal.
pub fn same_text(a: &str, b: &str) -> (r: bool)
    ensures
        r == (a@ == b@),
{
    proof {
        text_order_equal(a@, b@);
    }
    match compare_text(a, b) {
        FieldOrder::Equal => true,
        _ => false,
    }
}

/// `String::push` appends one character.
pub assume_specification[ std::string::String::push ](s: &mut std::string::String, c: char)
    ensures
        final(s)@ == old(s)@.push(c),
;

/// The text of characters `from` up to `to`.
pub fn text_of(chars: &Vec<char>, from: usize, to: usize) -> (text: String)
    requires
        from <= to <= chars@.len(),
    ensures
        text@ == chars@.subrange(from as int, to as int),
{
    let mut text = String::new();
    let mut i: usize = from;
    while i < to
        invariant
            from <= i <= to <= chars@.len(),
            text@ == chars@.subrange(from as int, i as int),
        decreases to - i,
    {
        text.push(chars[i]);
        i += 1;
        assert(text@ =~= chars@.subrange(from as int, i as int));
    }
    text
}

/// The Unicode property Alphabetic.
pub uninterp spec fn unicode_alphabetic(c: char) -> bool;

/// The Unicode general categories for numbers.
pub uninterp spec fn unicode_numeric(c: char) -> bool;

/// `char::is_whitespace` tells whether a character has the property White_Space.
pub assume_specification[ char::is_whitespace ](c: char) -> (r: bool)
    ensures
        r == is_space(c),
;

/// `char::is_alphabetic` tells whether a character has the property Alphabetic.
pub assume_specification[ char::is_alphabetic ](c: char) -> (r: bool)
    ensures
        r == unicode_alphabetic(c),
;

/// `char::is_numeric` tells whether a character is in one of the categories for numbers.
pub assume_specification[ char::is_numeric ](c: char) -> (r: bool)
    ensures
        r == unicode_numeric(c),
;

/// A character separates tokens: it has the Unicode property White_Space. In ASCII these are the
/// space and the five controls from tab to carriage return.
pub open spec fn is_space(c: char) -> bool {
    ||| '\x09' <= c <= '\x0d'
    ||| c == ' '
    ||| c == '\u{85}'
    ||| c == '\u{A0}'
    ||| c == '\u{1680}'
    ||| '\u{2000}' <= c <= '\u{200A}'
    ||| c == '\u{2028}'
    ||| c == '\u{2029}'
    ||| c == '\u{202F}'
    ||| c == '\u{205F}'
    ||| c == '\u{3000}'
}

/// A decimal digit of ASCII.
pub open spec fn is_digit(c: char) -> bool {
    '0' <= c <= '9'
}

/// A letter: in ASCII A to Z and a to z.
pub open spec fn is_letter(c: char) -> bool {
    if c <= '\x7f' {
        'a' <= c <= 'z' || 'A' <= c <= 'Z'
    } else {
        unicode_alphabetic(c)
    }
}

/// A number sign of any script: in ASCII the digits.
pub open spec fn is_number_char(c: char) -> bool {
    if c <= '\x7f' {
        is_digit(c)
    } else {
        unicode_numeric(c)
    }
}

/// Whether a character separates tokens.
pub fn space(c: char) -> (r: bool)
    ensures
        r == is_space(c),
{
    c.is_whitespace()
}

/// Whether a character is a decimal digit of ASCII.
pub fn digit(c: char) -> (r: bool)
    ensures
        r == is_digit(c),
{
    '0' <= c && c <= '9'
}

/// Whether a character is a letter.
pub fn letter(c: char) -> (r: bool)
    ensures
        r == is_letter(c),
{
    if c <= '\x7f' {
        ('a' <= c && c <= 'z') || ('A' <= c && c <= 'Z')
    } else {
        c.is_alphabetic()
    }
}

/// Whether a character is a number sign.
pub fn number_char(c: char) -> (r: bool)
    ensures
        r == is_number_char(c),
{
    if c <= '\x7f' {
        digit(c)
    } else {
        c.is_numeric()
    }
}

/// An ASCII lower case letter as upper case, any other character as it is.
pub open spec fn ascii_upper(c: char) -> char {
    if 'a' <= c <= 'z' {
        (c as int - 32) as char
    } else {
        c
    }
}

/// Whether `word` reads as `keyword` when its ASCII letters are taken as upper case.
pub open spec fn reads_as(word: Seq<char>, keyword: Seq<char>) -> bool {
    word.len() == keyword.len() && forall|i: int|
        0 <= i < word.len() ==> ascii_upper(#[trigger] word[i]) == keyword[i]
}

/// Whether characters `from` up to `to` read as `keyword` when their ASCII letters are taken as
/// upper case.
pub fn is_keyword(chars: &Vec<char>, from: usize, to: usize, keyword: &str) -> (r: bool)
    requires
        from <= to <= chars@.len(),
    ensures
        r == reads_as(chars@.subrange(from as int, to as int), keyword@),
{
    let key = chars_of(keyword);
    let ghost word = chars@.subrange(from as int, to as int);
    if key.len() != to - from {
        return false;
    }
    let mut i: usize = 0;
    while i < key.len()
        invariant
            i <= key@.len(),
            from <= to <= chars@.len(),
            key@ == keyword@,
            key@.len() == to - from,
            word == chars@.subrange(from as int, to as int),
            forall|j: int| 0 <= j < i ==> ascii_upper(#[trigger] word[j]) == keyword@[j],
        decreases key@.len() - i,
    {
        let c: char = chars[from + i];
        let k: char = key[i];
        let same: bool = if 'a' <= c && c <= 'z' {
            'A' <= k && k <= 'Z' && c as u8 - 32 == k as u8
        } else {
            c == k
        };
        assert(word[i as int] == c);
        if !same {
            assert(ascii_upper(word[i as int]) != keyword@[i as int]);
            return false;
        }
        i += 1;
    }
    true
}

} // verus!
