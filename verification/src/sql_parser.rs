//! Builds a predicate from the tokens of a filter.
//!
//! `OR` binds weaker than `AND`, both to the left, and brackets group.

use crate::sql::{Pred, Scalar, ScalarValue, SqlError, SqlPredicate};
use crate::sql;
use crate::sql_lexer::{Tok, Token};
use crate::sql_lexer;
use vstd::prelude::*;

verus! {

/// The token at `i`, if there is one.
pub open spec fn token_at(tokens: Seq<Tok>, i: int) -> Option<Tok> {
    if 0 <= i < tokens.len() {
        Some(tokens[i])
    } else {
        None
    }
}

/// The constant at `i` and where it ends, or why there is none.
pub open spec fn scalar_at(tokens: Seq<Tok>, i: int) -> Result<(Scalar, int), Seq<char>> {
    match token_at(tokens, i) {
        Some(Tok::Number(bits)) => Ok((Scalar::Number(bits), i + 1)),
        Some(Tok::Text(s)) => Ok((Scalar::Text(s), i + 1)),
        _ => Err("expected scalar value"@),
    }
}

/// The constants that follow `values` from `i` on, each behind a comma, and where they end.
pub open spec fn scalars_from(tokens: Seq<Tok>, i: int, values: Seq<Scalar>) -> Result<
    (Seq<Scalar>, int),
    Seq<char>,
>
    decreases tokens.len() - i,
{
    if token_at(tokens, i) == Some(Tok::Comma) {
        match scalar_at(tokens, i + 1) {
            Err(e) => Err(e),
            Ok((v, next)) => scalars_from(tokens, next, values.push(v)),
        }
    } else {
        Ok((values, i))
    }
}

/// The predicate that compares a field by an operator with a constant, if it is an operator.
pub open spec fn comparison(op: Tok, field: Seq<char>, value: Scalar) -> Option<Pred> {
    match op {
        Tok::Eq => Some(Pred::Eq(field, value)),
        Tok::Ne => Some(Pred::Ne(field, value)),
        Tok::Lt => Some(Pred::Lt(field, value)),
        Tok::Le => Some(Pred::Le(field, value)),
        Tok::Gt => Some(Pred::Gt(field, value)),
        Tok::Ge => Some(Pred::Ge(field, value)),
        _ => None,
    }
}

/// What follows the name of a field: an operator and a constant.
pub open spec fn comparison_at(tokens: Seq<Tok>, i: int, field: Seq<char>) -> Result<
    (Pred, int),
    Seq<char>,
> {
    match token_at(tokens, i) {
        None => Err("expected operator"@),
        Some(op) => match scalar_at(tokens, i + 1) {
            Err(e) => Err(e),
            Ok((value, next)) => match comparison(op, field, value) {
                Some(p) => Ok((p, next)),
                None => Err("expected comparison operator"@),
            },
        },
    }
}

/// What follows the name of a field and `IN`: constants in brackets.
pub open spec fn membership_at(tokens: Seq<Tok>, i: int, field: Seq<char>) -> Result<
    (Pred, int),
    Seq<char>,
> {
    if token_at(tokens, i) != Some(Tok::LParen) {
        Err("expected LParen"@)
    } else {
        match scalar_at(tokens, i + 1) {
            Err(e) => Err(e),
            Ok((first, next)) => match scalars_from(tokens, next, seq![first]) {
                Err(e) => Err(e),
                Ok((values, end)) => if token_at(tokens, end) == Some(Tok::RParen) {
                    Ok((Pred::In(field, values), end + 1))
                } else {
                    Err("expected RParen"@)
                },
            },
        }
    }
}

/// A comparison, a membership or a bracketed filter at `i`, and where it ends.
pub open spec fn primary_at(tokens: Seq<Tok>, i: int) -> Result<(Pred, int), Seq<char>>
    decreases tokens.len() - i, 0int,
{
    match token_at(tokens, i) {
        Some(Tok::LParen) => match disjunction_at(tokens, i + 1) {
            Err(e) => Err(e),
            Ok((p, end)) => if token_at(tokens, end) == Some(Tok::RParen) {
                Ok((p, end + 1))
            } else {
                Err("expected RParen"@)
            },
        },
        Some(Tok::Ident(field)) => if token_at(tokens, i + 1) == Some(Tok::In) {
            membership_at(tokens, i + 2, field)
        } else {
            comparison_at(tokens, i + 1, field)
        },
        _ => Err("expected identifier"@),
    }
}

/// Primaries joined by `AND` from `i` on, and where they end.
pub open spec fn conjunction_at(tokens: Seq<Tok>, i: int) -> Result<(Pred, int), Seq<char>>
    decreases tokens.len() - i, 2int,
{
    match primary_at(tokens, i) {
        Err(e) => Err(e),
        Ok((p, next)) => if i < next <= tokens.len() {
            conjunction_from(tokens, next, p)
        } else {
            Err(Seq::empty())
        },
    }
}

/// `left` and what is joined to it by `AND` from `i` on.
pub open spec fn conjunction_from(tokens: Seq<Tok>, i: int, left: Pred) -> Result<
    (Pred, int),
    Seq<char>,
>
    decreases tokens.len() - i, 1int,
{
    if token_at(tokens, i) == Some(Tok::And) {
        match primary_at(tokens, i + 1) {
            Err(e) => Err(e),
            Ok((right, next)) => if i < next <= tokens.len() {
                conjunction_from(tokens, next, Pred::And(Box::new(left), Box::new(right)))
            } else {
                Err(Seq::empty())
            },
        }
    } else {
        Ok((left, i))
    }
}

/// Conjunctions joined by `OR` from `i` on, and where they end.
pub open spec fn disjunction_at(tokens: Seq<Tok>, i: int) -> Result<(Pred, int), Seq<char>>
    decreases tokens.len() - i, 4int,
{
    match conjunction_at(tokens, i) {
        Err(e) => Err(e),
        Ok((p, next)) => if i < next <= tokens.len() {
            disjunction_from(tokens, next, p)
        } else {
            Err(Seq::empty())
        },
    }
}

/// `left` and what is joined to it by `OR` from `i` on.
pub open spec fn disjunction_from(tokens: Seq<Tok>, i: int, left: Pred) -> Result<
    (Pred, int),
    Seq<char>,
>
    decreases tokens.len() - i, 3int,
{
    if token_at(tokens, i) == Some(Tok::Or) {
        match conjunction_at(tokens, i + 1) {
            Err(e) => Err(e),
            Ok((right, next)) => if i < next <= tokens.len() {
                disjunction_from(tokens, next, Pred::Or(Box::new(left), Box::new(right)))
            } else {
                Err(Seq::empty())
            },
        }
    } else {
        Ok((left, i))
    }
}

/// The predicate that all tokens together stand for, or why they stand for none.
pub open spec fn parsed(tokens: Seq<Tok>) -> Result<Pred, Seq<char>> {
    match disjunction_at(tokens, 0) {
        Err(e) => Err(e),
        Ok((p, end)) => if end == tokens.len() {
            Ok(p)
        } else {
            Err("trailing tokens"@)
        },
    }
}

/// The predicate that the text of a filter stands for, or why it stands for none.
pub open spec fn parsed_text(input: Seq<char>) -> Result<Pred, Seq<char>> {
    match sql_lexer::tokens_from(input, 0) {
        Err(e) => Err(e),
        Ok(tokens) => parsed(tokens),
    }
}

/// A result and where it ends are what the model says, and on success some token was used.
pub open spec fn agrees(
    r: Result<(SqlPredicate, usize), SqlError>,
    model: Result<(Pred, int), Seq<char>>,
    i: int,
    len: int,
) -> bool {
    match r {
        Ok((p, next)) => {
            &&& model == Ok::<(Pred, int), Seq<char>>((p@, next as int))
            &&& i < next <= len
        },
        Err(e) => model == Err::<(Pred, int), Seq<char>>(e@),
    }
}

/// The kinds of token that the parser looks for.
#[derive(Clone, Copy)]
enum Mark {
    Comma,
    LParen,
    RParen,
    And,
    Or,
    In,
}

impl Mark {
    spec fn tok(self) -> Tok {
        match self {
            Mark::Comma => Tok::Comma,
            Mark::LParen => Tok::LParen,
            Mark::RParen => Tok::RParen,
            Mark::And => Tok::And,
            Mark::Or => Tok::Or,
            Mark::In => Tok::In,
        }
    }
}

/// Whether the token at `i` is the one looked for.
fn is_at(tokens: &Vec<Token>, i: usize, mark: Mark) -> (r: bool)
    ensures
        r == (token_at(sql_lexer::token_views(tokens@), i as int) == Some(mark.tok())),
        r ==> i < tokens@.len(),
{
    if i >= tokens.len() {
        return false;
    }
    assert(sql_lexer::token_views(tokens@)[i as int] == tokens@[i as int]@);
    match (&tokens[i], mark) {
        (Token::Comma, Mark::Comma) => true,
        (Token::LParen, Mark::LParen) => true,
        (Token::RParen, Mark::RParen) => true,
        (Token::And, Mark::And) => true,
        (Token::Or, Mark::Or) => true,
        (Token::In, Mark::In) => true,
        _ => false,
    }
}

/// The constant at `i`.
fn parse_scalar(tokens: &Vec<Token>, i: usize) -> (r: Result<ScalarValue, SqlError>)
    ensures
        match r {
            Ok(v) => scalar_at(sql_lexer::token_views(tokens@), i as int) == Ok::<
                (Scalar, int),
                Seq<char>,
            >((v@, i + 1)) && i < tokens@.len(),
            Err(e) => scalar_at(sql_lexer::token_views(tokens@), i as int) == Err::<
                (Scalar, int),
                Seq<char>,
            >(e@),
        },
{
    if i < tokens.len() {
        assert(sql_lexer::token_views(tokens@)[i as int] == tokens@[i as int]@);
        match &tokens[i] {
            Token::Number(bits) => {
                return Ok(ScalarValue::Number(*bits));
            },
            Token::Text(s) => {
                return Ok(ScalarValue::String(s.clone()));
            },
            _ => {},
        }
    }
    Err(SqlError::new("expected scalar value"))
}

/// Constants in brackets.
fn parse_membership(tokens: &Vec<Token>, i: usize, field: String) -> (r: Result<
    (SqlPredicate, usize),
    SqlError,
>)
    ensures
        agrees(
            r,
            membership_at(sql_lexer::token_views(tokens@), i as int, field@),
            i as int,
            tokens@.len() as int,
        ),
{
    let ghost toks = sql_lexer::token_views(tokens@);
    let n: usize = tokens.len();
    if !is_at(tokens, i, Mark::LParen) {
        return Err(SqlError::new("expected LParen"));
    }
    let mut values: Vec<ScalarValue> = Vec::new();
    match parse_scalar(tokens, i + 1) {
        Err(e) => {
            return Err(e);
        },
        Ok(v) => {
            values.push(v);
        },
    }
    let ghost first = values@[0]@;
    let mut at: usize = i + 2;
    assert(sql::scalar_views(values@) =~= seq![first]);
    while is_at(tokens, at, Mark::Comma)
        invariant
            toks == sql_lexer::token_views(tokens@),
            n == tokens@.len(),
            i < at <= n,
            token_at(toks, i as int) == Some(Tok::LParen),
            scalar_at(toks, i + 1) == Ok::<(Scalar, int), Seq<char>>((first, i + 2)),
            scalars_from(toks, i + 2, seq![first]) == scalars_from(
                toks,
                at as int,
                sql::scalar_views(values@),
            ),
        decreases n - at,
    {
        match parse_scalar(tokens, at + 1) {
            Err(e) => {
                return Err(e);
            },
            Ok(v) => {
                let ghost before = values@;
                let ghost value = v@;
                values.push(v);
                assert(sql::scalar_views(values@) =~= sql::scalar_views(before).push(value));
            },
        }
        at += 2;
    }
    if !is_at(tokens, at, Mark::RParen) {
        return Err(SqlError::new("expected RParen"));
    }
    Ok((SqlPredicate::In(field, values), at + 1))
}

/// An operator and a constant.
fn parse_operator(tokens: &Vec<Token>, i: usize, field: String) -> (r: Result<
    (SqlPredicate, usize),
    SqlError,
>)
    ensures
        agrees(
            r,
            comparison_at(sql_lexer::token_views(tokens@), i as int, field@),
            i as int,
            tokens@.len() as int,
        ),
{
    let n: usize = tokens.len();
    if i >= n {
        return Err(SqlError::new("expected operator"));
    }
    assert(sql_lexer::token_views(tokens@)[i as int] == tokens@[i as int]@);
    match parse_scalar(tokens, i + 1) {
        Err(e) => Err(e),
        Ok(value) => match &tokens[i] {
            Token::Eq => Ok((SqlPredicate::Eq(field, value), i + 2)),
            Token::Ne => Ok((SqlPredicate::Ne(field, value), i + 2)),
            Token::Lt => Ok((SqlPredicate::Lt(field, value), i + 2)),
            Token::Le => Ok((SqlPredicate::Le(field, value), i + 2)),
            Token::Gt => Ok((SqlPredicate::Gt(field, value), i + 2)),
            Token::Ge => Ok((SqlPredicate::Ge(field, value), i + 2)),
            _ => Err(SqlError::new("expected comparison operator")),
        },
    }
}

/// A comparison, a membership or a bracketed filter.
fn parse_comparison(tokens: &Vec<Token>, i: usize) -> (r: Result<(SqlPredicate, usize), SqlError>)
    requires
        i <= tokens@.len(),
    ensures
        agrees(
            r,
            primary_at(sql_lexer::token_views(tokens@), i as int),
            i as int,
            tokens@.len() as int,
        ),
    decreases tokens@.len() - i, 0int,
{
    let ghost toks = sql_lexer::token_views(tokens@);
    let n: usize = tokens.len();
    if is_at(tokens, i, Mark::LParen) {
        return match parse_or(tokens, i + 1) {
            Err(e) => Err(e),
            Ok((p, end)) => if is_at(tokens, end, Mark::RParen) {
                Ok((p, end + 1))
            } else {
                Err(SqlError::new("expected RParen"))
            },
        };
    }
    if i < n {
        assert(toks[i as int] == tokens@[i as int]@);
        if let Token::Ident(field) = &tokens[i] {
            let field = field.clone();
            return if is_at(tokens, i + 1, Mark::In) {
                parse_membership(tokens, i + 2, field)
            } else {
                parse_operator(tokens, i + 1, field)
            };
        }
    }
    Err(SqlError::new("expected identifier"))
}

/// Primaries joined by `AND`.
fn parse_and(tokens: &Vec<Token>, i: usize) -> (r: Result<(SqlPredicate, usize), SqlError>)
    requires
        i <= tokens@.len(),
    ensures
        agrees(
            r,
            conjunction_at(sql_lexer::token_views(tokens@), i as int),
            i as int,
            tokens@.len() as int,
        ),
    decreases tokens@.len() - i, 1int,
{
    let ghost toks = sql_lexer::token_views(tokens@);
    let n: usize = tokens.len();
    match parse_comparison(tokens, i) {
        Err(e) => Err(e),
        Ok((p, next)) => {
            let mut left = p;
            let mut at: usize = next;
            while is_at(tokens, at, Mark::And)
                invariant
                    toks == sql_lexer::token_views(tokens@),
                    n == tokens@.len(),
                    i < at <= n,
                    conjunction_at(toks, i as int) == conjunction_from(toks, at as int, left@),
                decreases n - at,
            {
                match parse_comparison(tokens, at + 1) {
                    Err(e) => {
                        return Err(e);
                    },
                    Ok((right, end)) => {
                        left = SqlPredicate::And(Box::new(left), Box::new(right));
                        at = end;
                    },
                }
            }
            Ok((left, at))
        },
    }
}

/// Conjunctions joined by `OR`.
fn parse_or(tokens: &Vec<Token>, i: usize) -> (r: Result<(SqlPredicate, usize), SqlError>)
    requires
        i <= tokens@.len(),
    ensures
        agrees(
            r,
            disjunction_at(sql_lexer::token_views(tokens@), i as int),
            i as int,
            tokens@.len() as int,
        ),
    decreases tokens@.len() - i, 2int,
{
    let ghost toks = sql_lexer::token_views(tokens@);
    let n: usize = tokens.len();
    match parse_and(tokens, i) {
        Err(e) => Err(e),
        Ok((p, next)) => {
            let mut left = p;
            let mut at: usize = next;
            while is_at(tokens, at, Mark::Or)
                invariant
                    toks == sql_lexer::token_views(tokens@),
                    n == tokens@.len(),
                    i < at <= n,
                    disjunction_at(toks, i as int) == disjunction_from(toks, at as int, left@),
                decreases n - at,
            {
                match parse_and(tokens, at + 1) {
                    Err(e) => {
                        return Err(e);
                    },
                    Ok((right, end)) => {
                        left = SqlPredicate::Or(Box::new(left), Box::new(right));
                        at = end;
                    },
                }
            }
            Ok((left, at))
        },
    }
}

/// The predicate that all tokens together stand for.
pub fn parse_tokens(tokens: &Vec<Token>) -> (r: Result<SqlPredicate, SqlError>)
    ensures
        match r {
            Ok(p) => parsed(sql_lexer::token_views(tokens@)) == Ok::<Pred, Seq<char>>(p@),
            Err(e) => parsed(sql_lexer::token_views(tokens@)) == Err::<Pred, Seq<char>>(e@),
        },
{
    match parse_or(tokens, 0) {
        Err(e) => Err(e),
        Ok((p, end)) => if end == tokens.len() {
            Ok(p)
        } else {
            Err(SqlError::new("trailing tokens"))
        },
    }
}

/// The tokens of a constant that can be written in a filter.
pub open spec fn scalar_tokens(value: Scalar) -> Seq<Tok> {
    match value {
        Scalar::Number(bits) => seq![Tok::Number(bits)],
        Scalar::Text(s) => seq![Tok::Text(s)],
        Scalar::Boolean(_) => Seq::empty(),
    }
}

/// The tokens of constants behind commas.
pub open spec fn more_scalar_tokens(values: Seq<Scalar>) -> Seq<Tok>
    decreases values.len(),
{
    if values.len() == 0 {
        Seq::empty()
    } else {
        seq![Tok::Comma] + scalar_tokens(values[0]) + more_scalar_tokens(values.skip(1))
    }
}

/// The tokens of a predicate, with brackets around every `AND` and `OR`.
pub open spec fn predicate_tokens(p: Pred) -> Seq<Tok>
    decreases p,
{
    match p {
        Pred::Eq(f, v) => seq![Tok::Ident(f), Tok::Eq] + scalar_tokens(v),
        Pred::Ne(f, v) => seq![Tok::Ident(f), Tok::Ne] + scalar_tokens(v),
        Pred::Lt(f, v) => seq![Tok::Ident(f), Tok::Lt] + scalar_tokens(v),
        Pred::Le(f, v) => seq![Tok::Ident(f), Tok::Le] + scalar_tokens(v),
        Pred::Gt(f, v) => seq![Tok::Ident(f), Tok::Gt] + scalar_tokens(v),
        Pred::Ge(f, v) => seq![Tok::Ident(f), Tok::Ge] + scalar_tokens(v),
        Pred::In(f, vs) => seq![Tok::Ident(f), Tok::In, Tok::LParen] + scalar_tokens(vs[0])
            + more_scalar_tokens(vs.skip(1)) + seq![Tok::RParen],
        Pred::And(a, b) => seq![Tok::LParen] + predicate_tokens(*a) + seq![Tok::And]
            + predicate_tokens(*b) + seq![Tok::RParen],
        Pred::Or(a, b) => seq![Tok::LParen] + predicate_tokens(*a) + seq![Tok::Or]
            + predicate_tokens(*b) + seq![Tok::RParen],
    }
}

/// A predicate that can be written as a filter: no constant is a boolean, for which the language
/// has no sign, and no list of constants is empty.
pub open spec fn writable(p: Pred) -> bool
    decreases p,
{
    match p {
        Pred::Eq(_, v) | Pred::Ne(_, v) | Pred::Lt(_, v) | Pred::Le(_, v) | Pred::Gt(_, v)
        | Pred::Ge(_, v) => !(v is Boolean),
        Pred::In(_, vs) => vs.len() > 0 && forall|i: int|
            0 <= i < vs.len() ==> !((#[trigger] vs[i]) is Boolean),
        Pred::And(a, b) | Pred::Or(a, b) => writable(*a) && writable(*b),
    }
}

/// `part` stands in `tokens` at `i`.
pub open spec fn stands_at(tokens: Seq<Tok>, i: int, part: Seq<Tok>) -> bool {
    &&& 0 <= i
    &&& i + part.len() <= tokens.len()
    &&& tokens.subrange(i, i + part.len()) == part
}

/// Where two parts stand behind one another, each stands at its own place.
pub proof fn stands_at_parts(tokens: Seq<Tok>, i: int, a: Seq<Tok>, b: Seq<Tok>)
    requires
        stands_at(tokens, i, a + b),
    ensures
        stands_at(tokens, i, a),
        stands_at(tokens, i + a.len(), b),
{
    let whole = tokens.subrange(i, i + a.len() + b.len());
    assert(tokens.subrange(i, i + a.len()) =~= whole.subrange(0, a.len() as int));
    assert((a + b).subrange(0, a.len() as int) =~= a);
    assert(tokens.subrange(i + a.len(), i + a.len() + b.len()) =~= whole.subrange(
        a.len() as int,
        (a.len() + b.len()) as int,
    ));
    assert((a + b).subrange(a.len() as int, (a.len() + b.len()) as int) =~= b);
}

/// Where a single token stands.
pub proof fn stands_at_one(tokens: Seq<Tok>, i: int, t: Tok)
    requires
        stands_at(tokens, i, seq![t]),
    ensures
        token_at(tokens, i) == Some(t),
{
    assert(tokens.subrange(i, i + 1)[0] == t);
}

proof fn scalars_parse(tokens: Seq<Tok>, i: int, values: Seq<Scalar>, more: Seq<Scalar>)
    requires
        stands_at(tokens, i, more_scalar_tokens(more) + seq![Tok::RParen]),
        forall|j: int| 0 <= j < more.len() ==> !((#[trigger] more[j]) is Boolean),
    ensures
        scalars_from(tokens, i, values) == Ok::<(Seq<Scalar>, int), Seq<char>>(
            (values + more, i + more_scalar_tokens(more).len()),
        ),
        token_at(tokens, i + more_scalar_tokens(more).len()) == Some(Tok::RParen),
    decreases more.len(),
{
    let all = more_scalar_tokens(more);
    stands_at_parts(tokens, i, all, seq![Tok::RParen]);
    stands_at_one(tokens, i + all.len(), Tok::RParen);
    if more.len() == 0 {
        assert(values + more =~= values);
    } else {
        let v = more[0];
        let rest = more.skip(1);
        let tail = more_scalar_tokens(rest);
        assert(all =~= seq![Tok::Comma] + (scalar_tokens(v) + tail));
        stands_at_parts(tokens, i, seq![Tok::Comma], scalar_tokens(v) + tail);
        stands_at_one(tokens, i, Tok::Comma);
        stands_at_parts(tokens, i + 1, scalar_tokens(v), tail);
        stands_at_one(tokens, i + 1, scalar_tokens(v)[0]);
        assert(stands_at(tokens, i + 2, tail + seq![Tok::RParen])) by {
            assert(all + seq![Tok::RParen] =~= (seq![Tok::Comma] + scalar_tokens(v)) + (tail
                + seq![Tok::RParen]));
            stands_at_parts(tokens, i, seq![Tok::Comma] + scalar_tokens(v), tail
                + seq![Tok::RParen]);
        }
        assert forall|j: int| 0 <= j < rest.len() implies !((#[trigger] rest[j]) is Boolean) by {
            assert(rest[j] == more[j + 1]);
        }
        scalars_parse(tokens, i + 2, values.push(v), rest);
        assert(values.push(v) + rest =~= values + more);
    }
}

/// Where the tokens of a predicate stand, the parser finds that predicate and stops behind them.
pub proof fn predicate_parses(tokens: Seq<Tok>, i: int, p: Pred)
    requires
        writable(p),
        stands_at(tokens, i, predicate_tokens(p)),
    ensures
        predicate_tokens(p).len() > 0,
        primary_at(tokens, i) == Ok::<(Pred, int), Seq<char>>((p, i + predicate_tokens(p).len())),
    decreases p,
{
    let all = predicate_tokens(p);
    match p {
        Pred::Eq(f, v) => {
            comparison_parses(tokens, i, f, Tok::Eq, v);
        },
        Pred::Ne(f, v) => {
            comparison_parses(tokens, i, f, Tok::Ne, v);
        },
        Pred::Lt(f, v) => {
            comparison_parses(tokens, i, f, Tok::Lt, v);
        },
        Pred::Le(f, v) => {
            comparison_parses(tokens, i, f, Tok::Le, v);
        },
        Pred::Gt(f, v) => {
            comparison_parses(tokens, i, f, Tok::Gt, v);
        },
        Pred::Ge(f, v) => {
            comparison_parses(tokens, i, f, Tok::Ge, v);
        },
        Pred::In(f, vs) => {
            membership_parses(tokens, i, f, vs);
        },
        Pred::And(a, b) => {
            let (left, right) = (predicate_tokens(*a), predicate_tokens(*b));
            bracketed_parts(tokens, i, left, Tok::And, right);
            let j = i + 1 + left.len();
            predicate_parses(tokens, i + 1, *a);
            predicate_parses(tokens, j + 1, *b);
            conjunction_parses(tokens, i, *a, j, *b, j + 1 + right.len());
        },
        Pred::Or(a, b) => {
            let (left, right) = (predicate_tokens(*a), predicate_tokens(*b));
            bracketed_parts(tokens, i, left, Tok::Or, right);
            let j = i + 1 + left.len();
            predicate_parses(tokens, i + 1, *a);
            predicate_parses(tokens, j + 1, *b);
            disjunction_parses(tokens, i, *a, j, *b, j + 1 + right.len());
        },
    }
}

proof fn bracketed_parts(tokens: Seq<Tok>, i: int, left: Seq<Tok>, op: Tok, right: Seq<Tok>)
    requires
        stands_at(tokens, i, seq![Tok::LParen] + left + seq![op] + right + seq![Tok::RParen]),
    ensures
        token_at(tokens, i) == Some(Tok::LParen),
        stands_at(tokens, i + 1, left),
        token_at(tokens, i + 1 + left.len()) == Some(op),
        stands_at(tokens, i + 2 + left.len(), right),
        token_at(tokens, i + 2 + left.len() + right.len()) == Some(Tok::RParen),
{
    let close = seq![Tok::RParen];
    let c = seq![op] + (right + close);
    assert(seq![Tok::LParen] + left + seq![op] + right + close =~= seq![Tok::LParen] + (left + c));
    stands_at_parts(tokens, i, seq![Tok::LParen], left + c);
    stands_at_one(tokens, i, Tok::LParen);
    stands_at_parts(tokens, i + 1, left, c);
    let j = i + 1 + left.len();
    stands_at_parts(tokens, j, seq![op], right + close);
    stands_at_one(tokens, j, op);
    stands_at_parts(tokens, j + 1, right, close);
    stands_at_one(tokens, j + 1 + right.len(), Tok::RParen);
}

proof fn conjunction_parses(tokens: Seq<Tok>, i: int, a: Pred, j: int, b: Pred, k: int)
    requires
        token_at(tokens, i) == Some(Tok::LParen),
        primary_at(tokens, i + 1) == Ok::<(Pred, int), Seq<char>>((a, j)),
        i + 1 < j,
        token_at(tokens, j) == Some(Tok::And),
        primary_at(tokens, j + 1) == Ok::<(Pred, int), Seq<char>>((b, k)),
        j + 1 < k,
        token_at(tokens, k) == Some(Tok::RParen),
    ensures
        primary_at(tokens, i) == Ok::<(Pred, int), Seq<char>>(
            (Pred::And(Box::new(a), Box::new(b)), k + 1),
        ),
{
    let p = Pred::And(Box::new(a), Box::new(b));
    assert(conjunction_from(tokens, k, p) == Ok::<(Pred, int), Seq<char>>((p, k)));
    assert(conjunction_from(tokens, j, a) == Ok::<(Pred, int), Seq<char>>((p, k)));
    assert(conjunction_at(tokens, i + 1) == Ok::<(Pred, int), Seq<char>>((p, k)));
    assert(disjunction_from(tokens, k, p) == Ok::<(Pred, int), Seq<char>>((p, k)));
    assert(disjunction_at(tokens, i + 1) == Ok::<(Pred, int), Seq<char>>((p, k)));
}

proof fn disjunction_parses(tokens: Seq<Tok>, i: int, a: Pred, j: int, b: Pred, k: int)
    requires
        token_at(tokens, i) == Some(Tok::LParen),
        primary_at(tokens, i + 1) == Ok::<(Pred, int), Seq<char>>((a, j)),
        i + 1 < j,
        token_at(tokens, j) == Some(Tok::Or),
        primary_at(tokens, j + 1) == Ok::<(Pred, int), Seq<char>>((b, k)),
        j + 1 < k,
        token_at(tokens, k) == Some(Tok::RParen),
    ensures
        primary_at(tokens, i) == Ok::<(Pred, int), Seq<char>>(
            (Pred::Or(Box::new(a), Box::new(b)), k + 1),
        ),
{
    let p = Pred::Or(Box::new(a), Box::new(b));
    assert(conjunction_from(tokens, j, a) == Ok::<(Pred, int), Seq<char>>((a, j)));
    assert(conjunction_at(tokens, i + 1) == Ok::<(Pred, int), Seq<char>>((a, j)));
    assert(conjunction_from(tokens, k, b) == Ok::<(Pred, int), Seq<char>>((b, k)));
    assert(conjunction_at(tokens, j + 1) == Ok::<(Pred, int), Seq<char>>((b, k)));
    assert(disjunction_from(tokens, k, p) == Ok::<(Pred, int), Seq<char>>((p, k)));
    assert(disjunction_from(tokens, j, a) == Ok::<(Pred, int), Seq<char>>((p, k)));
    assert(disjunction_at(tokens, i + 1) == Ok::<(Pred, int), Seq<char>>((p, k)));
}

proof fn membership_parses(tokens: Seq<Tok>, i: int, f: Seq<char>, vs: Seq<Scalar>)
    requires
        writable(Pred::In(f, vs)),
        stands_at(tokens, i, predicate_tokens(Pred::In(f, vs))),
    ensures
        primary_at(tokens, i) == Ok::<(Pred, int), Seq<char>>(
            (Pred::In(f, vs), i + predicate_tokens(Pred::In(f, vs)).len()),
        ),
{
    let all = predicate_tokens(Pred::In(f, vs));
    let head = seq![Tok::Ident(f), Tok::In, Tok::LParen];
    let first = scalar_tokens(vs[0]);
    let more = vs.skip(1);
    let tail = more_scalar_tokens(more) + seq![Tok::RParen];
    assert(all =~= head + (first + tail));
    stands_at_parts(tokens, i, head, first + tail);
    assert(tokens.subrange(i, i + 3)[0] == head[0]);
    assert(tokens.subrange(i, i + 3)[1] == head[1]);
    assert(tokens.subrange(i, i + 3)[2] == head[2]);
    stands_at_parts(tokens, i + 3, first, tail);
    assert(!(vs[0] is Boolean));
    stands_at_one(tokens, i + 3, first[0]);
    assert forall|j: int| 0 <= j < more.len() implies !((#[trigger] more[j]) is Boolean) by {
        assert(more[j] == vs[j + 1]);
    }
    scalars_parse(tokens, i + 4, seq![vs[0]], more);
    assert(seq![vs[0]] + more =~= vs);
    assert(membership_at(tokens, i + 2, f) == Ok::<(Pred, int), Seq<char>>(
        (Pred::In(f, vs), i + all.len()),
    ));
}

proof fn comparison_parses(tokens: Seq<Tok>, i: int, f: Seq<char>, op: Tok, v: Scalar)
    requires
        !(v is Boolean),
        comparison(op, f, v) is Some,
        stands_at(tokens, i, seq![Tok::Ident(f), op] + scalar_tokens(v)),
    ensures
        primary_at(tokens, i) == Ok::<(Pred, int), Seq<char>>((comparison(op, f, v)->0, i + 3)),
{
    let head = seq![Tok::Ident(f), op];
    stands_at_parts(tokens, i, head, scalar_tokens(v));
    assert(tokens.subrange(i, i + 2)[0] == head[0]);
    assert(tokens.subrange(i, i + 2)[1] == head[1]);
    stands_at_one(tokens, i + 2, scalar_tokens(v)[0]);
}

/// Every predicate that can be written is what its written form is parsed as.
pub proof fn written_predicate_parses(p: Pred)
    requires
        writable(p),
    ensures
        parsed(predicate_tokens(p)) == Ok::<Pred, Seq<char>>(p),
{
    let tokens = predicate_tokens(p);
    let n = tokens.len() as int;
    assert(tokens.subrange(0, n) =~= tokens);
    predicate_parses(tokens, 0, p);
    assert(conjunction_from(tokens, n, p) == Ok::<(Pred, int), Seq<char>>((p, n)));
    assert(conjunction_at(tokens, 0) == Ok::<(Pred, int), Seq<char>>((p, n)));
    assert(disjunction_from(tokens, n, p) == Ok::<(Pred, int), Seq<char>>((p, n)));
}

} // verus!
