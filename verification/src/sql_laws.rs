//! What holds of the tokens and predicates of filters that are put together from others.

use crate::sql::{Pred, Scalar};
use crate::sql_lexer::{CharClass, Piece, Tok};
use crate::sql_lexer;
use crate::sql_parser;
use crate::text;
use vstd::prelude::*;

verus! {

/// Tokens in front of those of a text that follows.
pub open spec fn followed_by(tokens: Seq<Tok>, rest: Result<Seq<Tok>, Seq<char>>) -> Result<
    Seq<Tok>,
    Seq<char>,
> {
    match rest {
        Ok(more) => Ok(tokens + more),
        Err(e) => Err(e),
    }
}

/// A character that goes on with no token: a word, a number or an operator ends before it.
pub open spec fn ends_token(c: char) -> bool {
    c == ' ' || c == ')' || c == ','
}

/// `t` begins with a character that goes on with no token, if it has any.
pub open spec fn ends_tokens(t: Seq<char>) -> bool {
    t.len() == 0 || ends_token(t[0])
}

/// A run that ends within a text ends there whatever follows the text; one that reaches its end
/// goes no further where the next character is not in the class.
proof fn run_is_local(a: Seq<char>, t: Seq<char>, i: int, class: CharClass)
    requires
        0 <= i <= a.len(),
        sql_lexer::run_end(a, i, class) < a.len() || t.len() == 0 || !class.has(t[0]),
    ensures
        sql_lexer::run_end(a + t, i, class) == sql_lexer::run_end(a, i, class),
    decreases a.len() - i,
{
    let full = a + t;
    if i < a.len() {
        assert(full[i] == a[i]);
        if class.has(a[i]) {
            run_is_local(a, t, i + 1, class);
        }
    } else if t.len() > 0 {
        assert(full[i] == t[0]);
    }
}

/// A run lies where it does whatever stands before the text.
proof fn run_is_shifted(pre: Seq<char>, b: Seq<char>, i: int, class: CharClass)
    requires
        0 <= i <= b.len(),
    ensures
        sql_lexer::run_end(pre + b, pre.len() + i, class) == pre.len() + sql_lexer::run_end(
            b,
            i,
            class,
        ),
    decreases b.len() - i,
{
    if i < b.len() {
        assert((pre + b)[pre.len() + i] == b[i]);
        if class.has(b[i]) {
            run_is_shifted(pre, b, i + 1, class);
        }
    }
}

/// A piece of a text is a piece of every text that goes on with the end of a token.
proof fn piece_is_local(a: Seq<char>, t: Seq<char>, i: int)
    requires
        0 <= i < a.len(),
        ends_tokens(t),
        sql_lexer::piece_at(a, i) is Ok,
    ensures
        sql_lexer::piece_at(a + t, i) == sql_lexer::piece_at(a, i),
{
    let full = a + t;
    let c = a[i];
    assert(full[i] == c);
    sql_lexer::piece_advances(a, i);
    if t.len() > 0 {
        assert(full[a.len() as int] == t[0]);
        assert(!CharClass::WordPart.has(t[0]));
        assert(!CharClass::NumberPart.has(t[0]));
    }
    if i + 1 < a.len() {
        assert(full[i + 1] == a[i + 1]);
    }
    if c == '\'' || c == '"' {
        sql_lexer::run_end_bounds(a, i + 1, CharClass::Unquoted(c));
        run_is_local(a, t, i + 1, CharClass::Unquoted(c));
        let end = sql_lexer::run_end(a, i + 1, CharClass::Unquoted(c));
        assert(full.subrange(i + 1, end) =~= a.subrange(i + 1, end));
    } else if sql_lexer::number_at(a, i) {
        let digits = if c == '-' {
            i + 1
        } else {
            i
        };
        run_is_local(a, t, digits, CharClass::NumberPart);
        let end = sql_lexer::run_end(a, digits, CharClass::NumberPart);
        assert(full.subrange(i, end) =~= a.subrange(i, end));
    } else if text::is_letter(c) || c == '_' {
        run_is_local(a, t, i, CharClass::WordPart);
        let end = sql_lexer::run_end(a, i, CharClass::WordPart);
        assert(full.subrange(i, end) =~= a.subrange(i, end));
    }
}

/// A piece of a text is a piece of it with something before it.
proof fn piece_is_shifted(pre: Seq<char>, b: Seq<char>, i: int)
    requires
        0 <= i < b.len(),
    ensures
        sql_lexer::piece_at(pre + b, pre.len() + i) == match sql_lexer::piece_at(b, i) {
            Ok((piece, next)) => Ok::<(Piece, int), Seq<char>>((piece, pre.len() + next)),
            Err(e) => Err(e),
        },
{
    let full = pre + b;
    let at = pre.len() + i;
    let c = b[i];
    assert(full[at] == c);
    sql_lexer::piece_advances(b, i);
    if i + 1 < b.len() {
        assert(full[at + 1] == b[i + 1]);
    }
    if c == '\'' || c == '"' {
        let class = CharClass::Unquoted(c);
        sql_lexer::run_end_bounds(b, i + 1, class);
        run_is_shifted(pre, b, i + 1, class);
        let end = sql_lexer::run_end(b, i + 1, class);
        if end < b.len() {
            assert(full.subrange(at + 1, pre.len() + end) =~= b.subrange(i + 1, end));
        }
    } else if sql_lexer::number_at(b, i) {
        let digits = if c == '-' {
            i + 1
        } else {
            i
        };
        run_is_shifted(pre, b, digits, CharClass::NumberPart);
        let end = sql_lexer::run_end(b, digits, CharClass::NumberPart);
        assert(full.subrange(at, pre.len() + end) =~= b.subrange(i, end));
    } else if text::is_letter(c) || c == '_' {
        run_is_shifted(pre, b, i, CharClass::WordPart);
        let end = sql_lexer::run_end(b, i, CharClass::WordPart);
        assert(full.subrange(at, pre.len() + end) =~= b.subrange(i, end));
    }
}

/// The tokens of a text are those from its place on where something stands before it.
pub proof fn tokens_are_shifted(pre: Seq<char>, b: Seq<char>, i: int)
    requires
        0 <= i <= b.len(),
    ensures
        sql_lexer::tokens_from(pre + b, pre.len() + i) == sql_lexer::tokens_from(b, i),
    decreases b.len() - i,
{
    let full = pre + b;
    if i < b.len() {
        assert(full[pre.len() + i] == b[i]);
        if text::is_space(b[i]) {
            tokens_are_shifted(pre, b, i + 1);
        } else {
            piece_is_shifted(pre, b, i);
            sql_lexer::piece_advances(b, i);
            if let Ok((piece, next)) = sql_lexer::piece_at(b, i) {
                tokens_are_shifted(pre, b, next);
            }
        }
    }
}

/// The tokens of a text stand in front of those of what follows it.
pub proof fn tokens_are_local(a: Seq<char>, t: Seq<char>, i: int)
    requires
        0 <= i <= a.len(),
        ends_tokens(t),
        sql_lexer::tokens_from(a, i) is Ok,
    ensures
        sql_lexer::tokens_from(a + t, i) == followed_by(
            sql_lexer::tokens_from(a, i)->Ok_0,
            sql_lexer::tokens_from(t, 0),
        ),
    decreases a.len() - i,
{
    let full = a + t;
    let rest = sql_lexer::tokens_from(t, 0);
    if i == a.len() {
        tokens_are_shifted(a, t, 0);
        if let Ok(more) = rest {
            assert(Seq::<Tok>::empty() + more =~= more);
        }
    } else {
        assert(full[i] == a[i]);
        if text::is_space(a[i]) {
            tokens_are_local(a, t, i + 1);
        } else {
            piece_is_local(a, t, i);
            sql_lexer::piece_advances(a, i);
            let (piece, next) = sql_lexer::piece_at(a, i)->Ok_0;
            tokens_are_local(a, t, next);
            if let Ok(more) = rest {
                let first = sql_lexer::piece_token(piece)->Ok_0;
                let own = sql_lexer::tokens_from(a, next)->Ok_0;
                assert(seq![first] + (own + more) =~= (seq![first] + own) + more);
            }
        }
    }
}

/// The tokens of two texts with a blank between them are those of the first and then those of the
/// second.
pub proof fn tokens_of_joined_texts(a: Seq<char>, b: Seq<char>)
    requires
        sql_lexer::tokens_from(a, 0) is Ok,
    ensures
        sql_lexer::tokens_from(a + seq![' '] + b, 0) == followed_by(
            sql_lexer::tokens_from(a, 0)->Ok_0,
            sql_lexer::tokens_from(b, 0),
        ),
{
    let t = seq![' '] + b;
    assert(a + seq![' '] + b =~= a + t);
    assert(t[0] == ' ');
    tokens_are_local(a, t, 0);
    tokens_are_shifted(seq![' '], b, 0);
}

/// A text of white space alone has no tokens.
pub proof fn blank_text_has_no_tokens(s: Seq<char>)
    requires
        forall|i: int| 0 <= i < s.len() ==> text::is_space(#[trigger] s[i]),
    ensures
        sql_lexer::tokens_from(s, 0) == Ok::<Seq<Tok>, Seq<char>>(Seq::empty()),
{
    blank_from(s, 0);
}

proof fn blank_from(s: Seq<char>, i: int)
    requires
        0 <= i <= s.len(),
        forall|j: int| 0 <= j < s.len() ==> text::is_space(#[trigger] s[j]),
    ensures
        sql_lexer::tokens_from(s, i) == Ok::<Seq<Tok>, Seq<char>>(Seq::empty()),
    decreases s.len() - i,
{
    if i < s.len() {
        blank_from(s, i + 1);
    }
}

/// A bracket or operator of one character in front of a text adds its token.
proof fn tokens_behind_bracket(c: char, t: Seq<char>)
    requires
        c == '(' || c == ')',
    ensures
        sql_lexer::tokens_from(seq![c] + t, 0) == followed_by(
            seq![sql_lexer::single_token(c)->0],
            sql_lexer::tokens_from(t, 0),
        ),
{
    let full = seq![c] + t;
    assert(full[0] == c);
    assert(sql_lexer::piece_at(full, 0) == Ok::<(Piece, int), Seq<char>>(
        (Piece::Token(sql_lexer::single_token(c)->0), 1),
    ));
    tokens_are_shifted(seq![c], t, 0);
}

/// `AND` or `OR` between blanks in front of a text adds its token.
proof fn tokens_behind_keyword(word: Seq<char>, t: Seq<char>)
    requires
        word == seq!['A', 'N', 'D'] || word == seq!['O', 'R'],
    ensures
        sql_lexer::tokens_from(seq![' '] + word + seq![' '] + t, 0) == followed_by(
            seq![sql_lexer::word_token(word)],
            sql_lexer::tokens_from(t, 0),
        ),
        word == seq!['A', 'N', 'D'] ==> sql_lexer::word_token(word) == Tok::And,
        word == seq!['O', 'R'] ==> sql_lexer::word_token(word) == Tok::Or,
{
    reveal_strlit("AND");
    reveal_strlit("OR");
    assert(word.len() == 2 ==> !text::reads_as(word, "AND"@));
    assert(word =~= seq!['A', 'N', 'D'] ==> text::reads_as(word, "AND"@));
    assert(word =~= seq!['O', 'R'] ==> text::reads_as(word, "OR"@));
    assert(forall|i: int| 0 <= i < word.len() ==> text::is_letter(#[trigger] word[i]));
    run_of_letters(word, 0);
    assert(word.subrange(0, word.len() as int) =~= word);
    assert(sql_lexer::piece_at(word, 0) == Ok::<(Piece, int), Seq<char>>(
        (Piece::Token(sql_lexer::word_token(word)), word.len() as int),
    ));
    assert(sql_lexer::tokens_from(word, word.len() as int) == Ok::<Seq<Tok>, Seq<char>>(
        Seq::empty(),
    ));
    assert(seq![sql_lexer::word_token(word)] + Seq::<Tok>::empty() =~= seq![
        sql_lexer::word_token(word),
    ]);
    tokens_of_joined_texts(word, t);
    assert(seq![' '] + word + seq![' '] + t =~= seq![' '] + (word + seq![' '] + t));
    tokens_are_shifted(seq![' '], word + seq![' '] + t, 0);
    assert((seq![' '] + (word + seq![' '] + t))[0] == ' ');
}

proof fn run_of_letters(word: Seq<char>, i: int)
    requires
        0 <= i <= word.len(),
        forall|j: int| 0 <= j < word.len() ==> text::is_letter(#[trigger] word[j]),
    ensures
        sql_lexer::run_end(word, i, CharClass::WordPart) == word.len(),
    decreases word.len() - i,
{
    if i < word.len() {
        run_of_letters(word, i + 1);
    }
}

/// `part` stands in `tokens` from `at` on, with a closing bracket behind it.
spec fn held(tokens: Seq<Tok>, at: int, part: Seq<Tok>) -> bool {
    &&& 0 <= at
    &&& at + part.len() < tokens.len()
    &&& tokens[at + part.len()] == Tok::RParen
    &&& forall|i: int| 0 <= i < part.len() ==> #[trigger] tokens[at + i] == part[i]
}

proof fn held_token(tokens: Seq<Tok>, at: int, part: Seq<Tok>, i: int)
    requires
        held(tokens, at, part),
        0 <= i <= part.len(),
    ensures
        sql_parser::token_at(tokens, at + i) == if i < part.len() {
            Some(part[i])
        } else {
            Some(Tok::RParen)
        },
        sql_parser::token_at(part, i) == if i < part.len() {
            Some(part[i])
        } else {
            None
        },
{
    if i < part.len() {
        assert(tokens[at + i] == part[i]);
    }
}

proof fn scalars_held(tokens: Seq<Tok>, at: int, part: Seq<Tok>, i: int, values: Seq<Scalar>)
    requires
        held(tokens, at, part),
        0 <= i <= part.len(),
        sql_parser::scalars_from(part, i, values) is Ok,
    ensures
        ({
            let (found, end) = sql_parser::scalars_from(part, i, values)->Ok_0;
            &&& i <= end <= part.len()
            &&& sql_parser::scalars_from(tokens, at + i, values) == Ok::<
                (Seq<Scalar>, int),
                Seq<char>,
            >((found, at + end))
        }),
    decreases part.len() - i,
{
    held_token(tokens, at, part, i);
    if sql_parser::token_at(part, i) == Some(Tok::Comma) {
        if i + 1 <= part.len() {
            held_token(tokens, at, part, i + 1);
        }
        let (v, next) = sql_parser::scalar_at(part, i + 1)->Ok_0;
        scalars_held(tokens, at, part, next, values.push(v));
    }
}

proof fn primary_held(tokens: Seq<Tok>, at: int, part: Seq<Tok>, i: int)
    requires
        held(tokens, at, part),
        0 <= i <= part.len(),
        sql_parser::primary_at(part, i) is Ok,
    ensures
        ({
            let (p, end) = sql_parser::primary_at(part, i)->Ok_0;
            &&& i < end <= part.len()
            &&& sql_parser::primary_at(tokens, at + i) == Ok::<(Pred, int), Seq<char>>((p, at + end))
        }),
    decreases part.len() - i, 0int,
{
    held_token(tokens, at, part, i);
    match sql_parser::token_at(part, i) {
        Some(Tok::LParen) => {
            disjunction_held(tokens, at, part, i + 1);
            let (p, end) = sql_parser::disjunction_at(part, i + 1)->Ok_0;
            held_token(tokens, at, part, end);
        },
        Some(Tok::Ident(field)) => {
            held_token(tokens, at, part, i + 1);
            if sql_parser::token_at(part, i + 1) == Some(Tok::In) {
                held_token(tokens, at, part, i + 2);
                if i + 3 <= part.len() {
                    held_token(tokens, at, part, i + 3);
                }
                let (first, next) = sql_parser::scalar_at(part, i + 3)->Ok_0;
                scalars_held(tokens, at, part, next, seq![first]);
                let (values, end) = sql_parser::scalars_from(part, next, seq![first])->Ok_0;
                held_token(tokens, at, part, end);
            } else if i + 2 <= part.len() {
                held_token(tokens, at, part, i + 2);
            }
        },
        _ => {},
    }
}

proof fn conjunction_held(tokens: Seq<Tok>, at: int, part: Seq<Tok>, i: int)
    requires
        held(tokens, at, part),
        0 <= i <= part.len(),
        sql_parser::conjunction_at(part, i) is Ok,
    ensures
        ({
            let (p, end) = sql_parser::conjunction_at(part, i)->Ok_0;
            &&& i < end <= part.len()
            &&& sql_parser::conjunction_at(tokens, at + i) == Ok::<(Pred, int), Seq<char>>(
                (p, at + end),
            )
        }),
    decreases part.len() - i, 2int,
{
    primary_held(tokens, at, part, i);
    let (p, next) = sql_parser::primary_at(part, i)->Ok_0;
    conjoined_held(tokens, at, part, next, p);
}

proof fn conjoined_held(tokens: Seq<Tok>, at: int, part: Seq<Tok>, i: int, left: Pred)
    requires
        held(tokens, at, part),
        0 <= i <= part.len(),
        sql_parser::conjunction_from(part, i, left) is Ok,
    ensures
        ({
            let (p, end) = sql_parser::conjunction_from(part, i, left)->Ok_0;
            &&& i <= end <= part.len()
            &&& sql_parser::conjunction_from(tokens, at + i, left) == Ok::<(Pred, int), Seq<char>>(
                (p, at + end),
            )
        }),
    decreases part.len() - i, 1int,
{
    held_token(tokens, at, part, i);
    if sql_parser::token_at(part, i) == Some(Tok::And) {
        primary_held(tokens, at, part, i + 1);
        let (right, next) = sql_parser::primary_at(part, i + 1)->Ok_0;
        conjoined_held(tokens, at, part, next, Pred::And(Box::new(left), Box::new(right)));
    }
}

proof fn disjunction_held(tokens: Seq<Tok>, at: int, part: Seq<Tok>, i: int)
    requires
        held(tokens, at, part),
        0 <= i <= part.len(),
        sql_parser::disjunction_at(part, i) is Ok,
    ensures
        ({
            let (p, end) = sql_parser::disjunction_at(part, i)->Ok_0;
            &&& i < end <= part.len()
            &&& sql_parser::disjunction_at(tokens, at + i) == Ok::<(Pred, int), Seq<char>>(
                (p, at + end),
            )
        }),
    decreases part.len() - i, 4int,
{
    conjunction_held(tokens, at, part, i);
    let (p, next) = sql_parser::conjunction_at(part, i)->Ok_0;
    disjoined_held(tokens, at, part, next, p);
}

proof fn disjoined_held(tokens: Seq<Tok>, at: int, part: Seq<Tok>, i: int, left: Pred)
    requires
        held(tokens, at, part),
        0 <= i <= part.len(),
        sql_parser::disjunction_from(part, i, left) is Ok,
    ensures
        ({
            let (p, end) = sql_parser::disjunction_from(part, i, left)->Ok_0;
            &&& i <= end <= part.len()
            &&& sql_parser::disjunction_from(tokens, at + i, left) == Ok::<(Pred, int), Seq<char>>(
                (p, at + end),
            )
        }),
    decreases part.len() - i, 3int,
{
    held_token(tokens, at, part, i);
    if sql_parser::token_at(part, i) == Some(Tok::Or) {
        conjunction_held(tokens, at, part, i + 1);
        let (right, next) = sql_parser::conjunction_at(part, i + 1)->Ok_0;
        disjoined_held(tokens, at, part, next, Pred::Or(Box::new(left), Box::new(right)));
    }
}

/// Tokens in brackets.
pub open spec fn bracketed(tokens: Seq<Tok>) -> Seq<Tok> {
    seq![Tok::LParen] + tokens + seq![Tok::RParen]
}

/// Tokens that stand for a predicate stand for it in brackets wherever these are.
pub proof fn bracketed_parses(tokens: Seq<Tok>, at: int, part: Seq<Tok>)
    requires
        0 <= at,
        at + part.len() + 2 <= tokens.len(),
        forall|i: int| 0 <= i < part.len() + 2 ==> #[trigger] tokens[at + i] == bracketed(part)[i],
        sql_parser::parsed(part) is Ok,
    ensures
        sql_parser::primary_at(tokens, at) == Ok::<(Pred, int), Seq<char>>(
            (sql_parser::parsed(part)->Ok_0, at + part.len() + 2),
        ),
{
    assert(tokens[at + 0] == Tok::LParen);
    assert(tokens[at + (part.len() + 1)] == Tok::RParen);
    assert forall|i: int| 0 <= i < part.len() implies #[trigger] tokens[(at + 1) + i] == part[i] by {
        assert(tokens[at + (i + 1)] == bracketed(part)[i + 1]);
    }
    disjunction_held(tokens, at + 1, part, 0);
}

/// The tokens of a text in brackets, with more text behind it.
pub proof fn tokens_of_bracketed(s: Seq<char>, t: Seq<char>)
    requires
        sql_lexer::tokens_from(s, 0) is Ok,
    ensures
        sql_lexer::tokens_from(seq!['('] + s + seq![')'] + t, 0) == followed_by(
            bracketed(sql_lexer::tokens_from(s, 0)->Ok_0),
            sql_lexer::tokens_from(t, 0),
        ),
{
    let own = sql_lexer::tokens_from(s, 0)->Ok_0;
    let close = seq![')'] + t;
    assert(seq!['('] + s + seq![')'] + t =~= seq!['('] + (s + close));
    assert(close[0] == ')');
    tokens_behind_bracket('(', s + close);
    tokens_are_local(s, close, 0);
    tokens_behind_bracket(')', t);
    if let Ok(more) = sql_lexer::tokens_from(t, 0) {
        assert(seq![Tok::LParen] + (own + (seq![Tok::RParen] + more)) =~= bracketed(own) + more);
    }
}

/// Brackets around a filter change nothing.
pub proof fn bracketed_text_parses(s: Seq<char>)
    requires
        sql_parser::parsed_text(s) is Ok,
    ensures
        sql_parser::parsed_text(seq!['('] + s + seq![')']) == sql_parser::parsed_text(s),
{
    let own = sql_lexer::tokens_from(s, 0)->Ok_0;
    let tokens = bracketed(own);
    let none = Seq::<char>::empty();
    assert(seq!['('] + s + seq![')'] + none =~= seq!['('] + s + seq![')']);
    tokens_of_bracketed(s, none);
    assert(tokens + Seq::<Tok>::empty() =~= tokens);
    assert forall|i: int| 0 <= i < own.len() + 2 implies #[trigger] tokens[0 + i] == bracketed(
        own,
    )[i] by {}
    bracketed_parses(tokens, 0, own);
    let p = sql_parser::parsed(own)->Ok_0;
    let n = tokens.len() as int;
    assert(sql_parser::conjunction_from(tokens, n, p) == Ok::<(Pred, int), Seq<char>>((p, n)));
    assert(sql_parser::conjunction_at(tokens, 0) == Ok::<(Pred, int), Seq<char>>((p, n)));
    assert(sql_parser::disjunction_from(tokens, n, p) == Ok::<(Pred, int), Seq<char>>((p, n)));
}

/// The text of two filters in brackets with a keyword between them.
pub open spec fn combined(a: Seq<char>, keyword: Seq<char>, b: Seq<char>) -> Seq<char> {
    seq!['('] + a + seq![')'] + (seq![' '] + keyword + seq![' '] + (seq!['('] + b + seq![')']))
}

/// The tokens of two filters in brackets with a keyword between them.
proof fn tokens_of_combined(a: Seq<char>, keyword: Seq<char>, b: Seq<char>)
    requires
        keyword == seq!['A', 'N', 'D'] || keyword == seq!['O', 'R'],
        sql_lexer::tokens_from(a, 0) is Ok,
        sql_lexer::tokens_from(b, 0) is Ok,
    ensures
        sql_lexer::tokens_from(combined(a, keyword, b), 0) == Ok::<Seq<Tok>, Seq<char>>(
            bracketed(sql_lexer::tokens_from(a, 0)->Ok_0) + (seq![sql_lexer::word_token(keyword)]
                + bracketed(sql_lexer::tokens_from(b, 0)->Ok_0)),
        ),
        keyword == seq!['A', 'N', 'D'] ==> sql_lexer::word_token(keyword) == Tok::And,
        keyword == seq!['O', 'R'] ==> sql_lexer::word_token(keyword) == Tok::Or,
{
    let none = Seq::<char>::empty();
    let second = seq!['('] + b + seq![')'];
    let right = bracketed(sql_lexer::tokens_from(b, 0)->Ok_0);
    assert(second + none =~= second);
    tokens_of_bracketed(b, none);
    assert(right + Seq::<Tok>::empty() =~= right);
    tokens_behind_keyword(keyword, second);
    tokens_of_bracketed(a, seq![' '] + keyword + seq![' '] + second);
}

/// Tokens of two filters in brackets with a token between them.
proof fn combined_parts(tokens: Seq<Tok>, a: Seq<Tok>, op: Tok, b: Seq<Tok>)
    requires
        tokens == bracketed(a) + (seq![op] + bracketed(b)),
        sql_parser::parsed(a) is Ok,
        sql_parser::parsed(b) is Ok,
    ensures
        sql_parser::primary_at(tokens, 0) == Ok::<(Pred, int), Seq<char>>(
            (sql_parser::parsed(a)->Ok_0, a.len() as int + 2),
        ),
        sql_parser::token_at(tokens, a.len() as int + 2) == Some(op),
        sql_parser::primary_at(tokens, a.len() as int + 3) == Ok::<(Pred, int), Seq<char>>(
            (sql_parser::parsed(b)->Ok_0, tokens.len() as int),
        ),
{
    assert forall|i: int| 0 <= i < a.len() + 2 implies #[trigger] tokens[0 + i] == bracketed(a)[i] by {}
    bracketed_parses(tokens, 0, a);
    let at = a.len() as int + 3;
    assert(tokens[a.len() as int + 2] == op);
    assert forall|i: int| 0 <= i < b.len() + 2 implies #[trigger] tokens[at + i] == bracketed(
        b,
    )[i] by {}
    bracketed_parses(tokens, at, b);
}

/// Two filters in brackets with `AND` between them stand for both of their predicates.
pub proof fn conjunction_of_texts_parses(a: Seq<char>, b: Seq<char>)
    requires
        sql_parser::parsed_text(a) is Ok,
        sql_parser::parsed_text(b) is Ok,
    ensures
        sql_parser::parsed_text(combined(a, seq!['A', 'N', 'D'], b)) == Ok::<Pred, Seq<char>>(
            Pred::And(
                Box::new(sql_parser::parsed_text(a)->Ok_0),
                Box::new(sql_parser::parsed_text(b)->Ok_0),
            ),
        ),
{
    let (left, right) = (
        sql_lexer::tokens_from(a, 0)->Ok_0,
        sql_lexer::tokens_from(b, 0)->Ok_0,
    );
    tokens_of_combined(a, seq!['A', 'N', 'D'], b);
    let tokens = bracketed(left) + (seq![Tok::And] + bracketed(right));
    combined_parts(tokens, left, Tok::And, right);
    let (p, q) = (sql_parser::parsed(left)->Ok_0, sql_parser::parsed(right)->Ok_0);
    let both = Pred::And(Box::new(p), Box::new(q));
    let n = tokens.len() as int;
    let m = left.len() as int + 2;
    assert(sql_parser::conjunction_from(tokens, n, both) == Ok::<(Pred, int), Seq<char>>((both, n)));
    assert(sql_parser::conjunction_from(tokens, m, p) == Ok::<(Pred, int), Seq<char>>((both, n)));
    assert(sql_parser::conjunction_at(tokens, 0) == Ok::<(Pred, int), Seq<char>>((both, n)));
    assert(sql_parser::disjunction_from(tokens, n, both) == Ok::<(Pred, int), Seq<char>>((both, n)));
}

/// Two filters in brackets with `OR` between them stand for either of their predicates.
pub proof fn disjunction_of_texts_parses(a: Seq<char>, b: Seq<char>)
    requires
        sql_parser::parsed_text(a) is Ok,
        sql_parser::parsed_text(b) is Ok,
    ensures
        sql_parser::parsed_text(combined(a, seq!['O', 'R'], b)) == Ok::<Pred, Seq<char>>(
            Pred::Or(
                Box::new(sql_parser::parsed_text(a)->Ok_0),
                Box::new(sql_parser::parsed_text(b)->Ok_0),
            ),
        ),
{
    let (left, right) = (
        sql_lexer::tokens_from(a, 0)->Ok_0,
        sql_lexer::tokens_from(b, 0)->Ok_0,
    );
    tokens_of_combined(a, seq!['O', 'R'], b);
    let tokens = bracketed(left) + (seq![Tok::Or] + bracketed(right));
    combined_parts(tokens, left, Tok::Or, right);
    let (p, q) = (sql_parser::parsed(left)->Ok_0, sql_parser::parsed(right)->Ok_0);
    let either = Pred::Or(Box::new(p), Box::new(q));
    let n = tokens.len() as int;
    let m = left.len() as int + 2;
    assert(sql_parser::conjunction_from(tokens, m, p) == Ok::<(Pred, int), Seq<char>>((p, m)));
    assert(sql_parser::conjunction_at(tokens, 0) == Ok::<(Pred, int), Seq<char>>((p, m)));
    assert(sql_parser::conjunction_from(tokens, n, q) == Ok::<(Pred, int), Seq<char>>((q, n)));
    assert(sql_parser::conjunction_at(tokens, m + 1) == Ok::<(Pred, int), Seq<char>>((q, n)));
    assert(sql_parser::disjunction_from(tokens, n, either) == Ok::<(Pred, int), Seq<char>>(
        (either, n),
    ));
    assert(sql_parser::disjunction_from(tokens, m, p) == Ok::<(Pred, int), Seq<char>>((either, n)));
}

} // verus!
