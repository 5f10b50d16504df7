//! How the text of a filter is cut into tokens.

use crate::sql_lexer::{CharClass, Piece, Tok};
use crate::sql_lexer;
use crate::text;
use vstd::prelude::*;

verus! {

/// A letter from A to Z, capital or small.
pub open spec fn is_plain_letter(c: char) -> bool {
    'a' <= c <= 'z' || 'A' <= c <= 'Z'
}

/// A plain character that a word may hold.
pub open spec fn in_word(c: char) -> bool {
    is_plain_letter(c) || '0' <= c <= '9' || c == '_' || c == '.'
}

/// A character that a number may hold.
pub open spec fn in_number(c: char) -> bool {
    '0' <= c <= '9' || c == '.'
}

proof fn run_is_longest(chars: Seq<char>, i: int, class: CharClass)
    requires
        0 <= i <= chars.len(),
    ensures
        ({
            let end = sql_lexer::run_end(chars, i, class);
            &&& i <= end <= chars.len()
            &&& forall|j: int| i <= j < end ==> class.has(#[trigger] chars[j])
            &&& end < chars.len() ==> !class.has(chars[end])
        }),
    decreases chars.len() - i,
{
    if i < chars.len() && class.has(chars[i]) {
        run_is_longest(chars, i + 1, class);
    }
}

/// A text starts with a quote and goes on to the next quote of the same kind. It is refused where
/// there is none.
pub proof fn texts_end_at_their_quote(chars: Seq<char>, i: int)
    requires
        0 <= i < chars.len(),
        chars[i] == '\'' || chars[i] == '"',
    ensures
        match sql_lexer::piece_at(chars, i) {
            Ok((piece, next)) => {
                &&& i + 2 <= next <= chars.len()
                &&& chars[next - 1] == chars[i]
                &&& forall|j: int| i < j < next - 1 ==> #[trigger] chars[j] != chars[i]
                &&& piece == Piece::Token(Tok::Text(chars.subrange(i + 1, next - 1)))
            },
            Err(_) => forall|j: int| i < j < chars.len() ==> #[trigger] chars[j] != chars[i],
        },
{
    let class = CharClass::Unquoted(chars[i]);
    run_is_longest(chars, i + 1, class);
    let end = sql_lexer::run_end(chars, i + 1, class);
    assert forall|j: int| i < j < end implies #[trigger] chars[j] != chars[i] by {
        assert(class.has(chars[j]));
    }
}

/// A number starts with a digit, or with a minus sign and a digit, and goes on as long as digits and
/// points follow.
pub proof fn numbers_go_on(chars: Seq<char>, i: int)
    requires
        0 <= i < chars.len(),
        '0' <= chars[i] <= '9' || chars[i] == '-' && i + 1 < chars.len() && '0' <= chars[i + 1]
            <= '9',
    ensures
        sql_lexer::piece_at(chars, i) matches Ok((piece, next)) && {
            &&& i < next <= chars.len()
            &&& forall|j: int| i < j < next ==> in_number(#[trigger] chars[j])
            &&& next < chars.len() ==> !in_number(chars[next])
            &&& piece == Piece::Number(chars.subrange(i, next))
        },
{
    let from = if chars[i] == '-' {
        i + 1
    } else {
        i
    };
    let class = CharClass::NumberPart;
    run_is_longest(chars, from, class);
    let end = sql_lexer::run_end(chars, from, class);
    assert(class.has(chars[from]));
    assert(end > from);
    assert forall|j: int| i < j < end implies in_number(#[trigger] chars[j]) by {
        assert(class.has(chars[j]));
    }
}

/// A word starts with a letter or an underscore and goes on as long as letters, digits, underscores
/// and points follow. No other plain character stands in it.
pub proof fn words_go_on(chars: Seq<char>, i: int)
    requires
        0 <= i < chars.len(),
        is_plain_letter(chars[i]) || chars[i] == '_',
    ensures
        sql_lexer::piece_at(chars, i) matches Ok((piece, next)) && {
            &&& i < next <= chars.len()
            &&& forall|j: int| i <= j < next && #[trigger] chars[j] <= '\x7f' ==> in_word(chars[j])
            &&& next < chars.len() ==> !in_word(chars[next])
            &&& piece == Piece::Token(sql_lexer::word_token(chars.subrange(i, next)))
        },
{
    let class = CharClass::WordPart;
    run_is_longest(chars, i, class);
    let end = sql_lexer::run_end(chars, i, class);
    assert(class.has(chars[i]));
    assert(end > i);
    assert forall|j: int| i <= j < end && #[trigger] chars[j] <= '\x7f' implies in_word(chars[j]) by {
        assert(class.has(chars[j]));
    }
}

/// A token was read, and reading goes on at `next`.
pub open spec fn reads(r: Result<(Piece, int), Seq<char>>, token: Tok, next: int) -> bool {
    r matches Ok((piece, end)) && piece == Piece::Token(token) && end == next
}

/// Two characters that make up an operator are one token, and others that are signs are tokens of
/// their own.
pub proof fn signs_are_tokens(chars: Seq<char>, i: int)
    requires
        0 <= i < chars.len(),
    ensures
        ({
            let r = sql_lexer::piece_at(chars, i);
            let c = chars[i];
            let d = if i + 1 < chars.len() {
                chars[i + 1]
            } else {
                ' '
            };
            &&& c == '!' && d == '=' ==> reads(r, Tok::Ne, i + 2)
            &&& c == '<' && d == '>' ==> reads(r, Tok::Ne, i + 2)
            &&& c == '<' && d == '=' ==> reads(r, Tok::Le, i + 2)
            &&& c == '>' && d == '=' ==> reads(r, Tok::Ge, i + 2)
            &&& c == '<' && d != '>' && d != '=' ==> reads(r, Tok::Lt, i + 1)
            &&& c == '>' && d != '=' ==> reads(r, Tok::Gt, i + 1)
            &&& c == '=' ==> reads(r, Tok::Eq, i + 1)
            &&& c == '(' ==> reads(r, Tok::LParen, i + 1)
            &&& c == ')' ==> reads(r, Tok::RParen, i + 1)
            &&& c == ',' ==> reads(r, Tok::Comma, i + 1)
            &&& c == '!' && d != '=' ==> r is Err
            &&& c == '-' && !('0' <= d <= '9') ==> r is Err
        }),
{
}

/// Other plain characters are refused.
pub proof fn other_signs_are_refused(chars: Seq<char>, i: int)
    requires
        0 <= i < chars.len(),
        chars[i] <= '\x7f',
        !is_plain_letter(chars[i]),
        !('0' <= chars[i] <= '9'),
        chars[i] != '_' && chars[i] != '\'' && chars[i] != '"' && chars[i] != '-',
        chars[i] != '!' && chars[i] != '<' && chars[i] != '>' && chars[i] != '=',
        chars[i] != '(' && chars[i] != ')' && chars[i] != ',',
    ensures
        sql_lexer::piece_at(chars, i) == Err::<(Piece, int), Seq<char>>(
            "unexpected char: "@.push(chars[i]),
        ),
{
}

/// The words for true and false, in capital or small letters, stand for the numbers 1 and 0.
pub proof fn truth_values_are_numbers(w: Seq<char>)
    ensures
        w.len() == 4 && (w[0] == 't' || w[0] == 'T') && (w[1] == 'r' || w[1] == 'R') && (w[2] == 'u'
            || w[2] == 'U') && (w[3] == 'e' || w[3] == 'E') ==> sql_lexer::word_token(w)
            == Tok::Number(0x3FF0_0000_0000_0000),
        w.len() == 5 && (w[0] == 'f' || w[0] == 'F') && (w[1] == 'a' || w[1] == 'A') && (w[2] == 'l'
            || w[2] == 'L') && (w[3] == 's' || w[3] == 'S') && (w[4] == 'e' || w[4] == 'E')
            ==> sql_lexer::word_token(w) == Tok::Number(0),
{
    reveal_strlit("AND");
    reveal_strlit("OR");
    reveal_strlit("IN");
    reveal_strlit("TRUE");
    reveal_strlit("FALSE");
    assert(text::ascii_upper('t') == 'T' && text::ascii_upper('r') == 'R' && text::ascii_upper('u')
        == 'U' && text::ascii_upper('e') == 'E');
    assert(text::ascii_upper('f') == 'F' && text::ascii_upper('a') == 'A' && text::ascii_upper('l')
        == 'L' && text::ascii_upper('s') == 'S');
    if w.len() == 4 && text::ascii_upper(w[0]) == 'T' && text::ascii_upper(w[1]) == 'R'
        && text::ascii_upper(w[2]) == 'U' && text::ascii_upper(w[3]) == 'E' {
        assert(text::reads_as(w, "TRUE"@));
    }
    if w.len() == 5 && text::ascii_upper(w[0]) == 'F' && text::ascii_upper(w[1]) == 'A'
        && text::ascii_upper(w[2]) == 'L' && text::ascii_upper(w[3]) == 'S' && text::ascii_upper(
        w[4],
    ) == 'E' {
        assert(text::reads_as(w, "FALSE"@));
    }
}

/// The text of a filter is read piece by piece from its front on. Space between the pieces is passed
/// over, and a piece that is refused is the reason to refuse the whole.
pub proof fn texts_are_read_piece_by_piece(chars: Seq<char>, i: int)
    requires
        0 <= i <= chars.len(),
    ensures
        i == chars.len() ==> sql_lexer::tokens_from(chars, i) == Ok::<Seq<Tok>, Seq<char>>(
            Seq::empty(),
        ),
        i < chars.len() && (chars[i] == ' ' || '\x09' <= chars[i] <= '\x0d')
            ==> sql_lexer::tokens_from(chars, i) == sql_lexer::tokens_from(chars, i + 1),
        i < chars.len() && '\x21' <= chars[i] <= '\x7e' ==> match sql_lexer::piece_at(chars, i) {
            Err(e) => sql_lexer::tokens_from(chars, i) == Err::<Seq<Tok>, Seq<char>>(e),
            Ok((Piece::Token(t), next)) => match sql_lexer::tokens_from(chars, next) {
                Err(e) => sql_lexer::tokens_from(chars, i) == Err::<Seq<Tok>, Seq<char>>(e),
                Ok(rest) => sql_lexer::tokens_from(chars, i) == Ok::<Seq<Tok>, Seq<char>>(
                    seq![t] + rest,
                ),
            },
            Ok((Piece::Number(s), next)) => match sql_lexer::double_of_text(s) {
                None => sql_lexer::tokens_from(chars, i) is Err,
                Some(bits) => match sql_lexer::tokens_from(chars, next) {
                    Err(e) => sql_lexer::tokens_from(chars, i) == Err::<Seq<Tok>, Seq<char>>(e),
                    Ok(rest) => sql_lexer::tokens_from(chars, i) == Ok::<Seq<Tok>, Seq<char>>(
                        seq![Tok::Number(bits)] + rest,
                    ),
                },
            },
        },
{
    if i < chars.len() {
        sql_lexer::piece_advances(chars, i);
    }
}

} // verus!
