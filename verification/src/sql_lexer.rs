//! Splits the text of a filter into tokens.

use crate::ieee;
use crate::sql::SqlError;
use crate::text;
use vstd::prelude::*;

verus! {

/// A token of a filter.
#[derive(Debug)]
pub enum Token {
    Ident(String),
    /// A number, by the bits of its double precision value.
    Number(u64),
    Text(String),
    Eq,
    Ne,
    Lt,
    Gt,
    Le,
    Ge,
    LParen,
    RParen,
    Comma,
    And,
    Or,
    In,
}

/// The model of a `Token`.
pub enum Tok {
    Ident(Seq<char>),
    Number(u64),
    Text(Seq<char>),
    Eq,
    Ne,
    Lt,
    Gt,
    Le,
    Ge,
    LParen,
    RParen,
    Comma,
    And,
    Or,
    In,
}

impl View for Token {
    type V = Tok;

    open spec fn view(&self) -> Tok {
        match self {
            Token::Ident(s) => Tok::Ident(s@),
            Token::Number(bits) => Tok::Number(*bits),
            Token::Text(s) => Tok::Text(s@),
            Token::Eq => Tok::Eq,
            Token::Ne => Tok::Ne,
            Token::Lt => Tok::Lt,
            Token::Gt => Tok::Gt,
            Token::Le => Tok::Le,
            Token::Ge => Tok::Ge,
            Token::LParen => Tok::LParen,
            Token::RParen => Tok::RParen,
            Token::Comma => Tok::Comma,
            Token::And => Tok::And,
            Token::Or => Tok::Or,
            Token::In => Tok::In,
        }
    }
}

/// The views of tokens.
pub open spec fn token_views(tokens: Seq<Token>) -> Seq<Tok> {
    Seq::new(tokens.len(), |i: int| tokens[i]@)
}

/// A piece of the text: a token, or the text of a number whose value is not known yet.
#[derive(Debug)]
pub enum Lexeme {
    Token(Token),
    Number(String),
}

/// The model of a `Lexeme`.
pub enum Piece {
    Token(Tok),
    Number(Seq<char>),
}

impl View for Lexeme {
    type V = Piece;

    open spec fn view(&self) -> Piece {
        match self {
            Lexeme::Token(t) => Piece::Token(t@),
            Lexeme::Number(s) => Piece::Number(s@),
        }
    }
}

/// Characters that go on with what was begun.
#[derive(Debug, Clone, Copy)]
pub enum CharClass {
    /// Digits and points.
    NumberPart,
    /// Letters, number signs, underscores and points.
    WordPart,
    /// Everything but the closing quote.
    Unquoted(char),
}

impl CharClass {
    /// A character belongs to the class.
    pub open spec fn has(self, c: char) -> bool {
        match self {
            CharClass::NumberPart => text::is_digit(c) || c == '.',
            CharClass::WordPart => text::is_letter(c) || text::is_number_char(c) || c == '_' || c
                == '.',
            CharClass::Unquoted(quote) => c != quote,
        }
    }

    /// Whether a character belongs to the class.
    fn includes(self, c: char) -> (r: bool)
        ensures
            r == self.has(c),
    {
        match self {
            CharClass::NumberPart => text::digit(c) || c == '.',
            CharClass::WordPart => text::letter(c) || text::number_char(c) || c == '_' || c == '.',
            CharClass::Unquoted(quote) => c != quote,
        }
    }
}

/// Where the characters of a class that begin at `i` end.
pub open spec fn run_end(chars: Seq<char>, i: int, class: CharClass) -> int
    decreases chars.len() - i,
{
    if 0 <= i < chars.len() && class.has(chars[i]) {
        run_end(chars, i + 1, class)
    } else {
        i
    }
}

/// A run ends within the text, not before it begins.
pub proof fn run_end_bounds(chars: Seq<char>, i: int, class: CharClass)
    requires
        0 <= i <= chars.len(),
    ensures
        i <= run_end(chars, i, class) <= chars.len(),
    decreases chars.len() - i,
{
    if i < chars.len() && class.has(chars[i]) {
        run_end_bounds(chars, i + 1, class);
    }
}

/// Where the characters of a class that begin at `i` end.
fn scan_run(chars: &Vec<char>, i: usize, class: CharClass) -> (end: usize)
    requires
        i <= chars@.len(),
    ensures
        end == run_end(chars@, i as int, class),
        i <= end <= chars@.len(),
{
    let mut end: usize = i;
    while end < chars.len() && class.includes(chars[end])
        invariant
            i <= end <= chars@.len(),
            run_end(chars@, i as int, class) == run_end(chars@, end as int, class),
        decreases chars@.len() - end,
    {
        end += 1;
    }
    end
}

/// The token that a word stands for: a keyword in any case, or a name.
pub open spec fn word_token(word: Seq<char>) -> Tok {
    if text::reads_as(word, "AND"@) {
        Tok::And
    } else if text::reads_as(word, "OR"@) {
        Tok::Or
    } else if text::reads_as(word, "IN"@) {
        Tok::In
    } else if text::reads_as(word, "TRUE"@) {
        Tok::Number(ieee::DOUBLE_ONE)
    } else if text::reads_as(word, "FALSE"@) {
        Tok::Number(ieee::DOUBLE_ZERO)
    } else {
        Tok::Ident(word)
    }
}

/// The operator of two characters, if they are one.
pub open spec fn pair_token(a: char, b: char) -> Option<Tok> {
    if (a == '!' && b == '=') || (a == '<' && b == '>') {
        Some(Tok::Ne)
    } else if a == '<' && b == '=' {
        Some(Tok::Le)
    } else if a == '>' && b == '=' {
        Some(Tok::Ge)
    } else {
        None
    }
}

/// The operator or bracket of one character, if it is one.
pub open spec fn single_token(c: char) -> Option<Tok> {
    if c == '=' {
        Some(Tok::Eq)
    } else if c == '<' {
        Some(Tok::Lt)
    } else if c == '>' {
        Some(Tok::Gt)
    } else if c == '(' {
        Some(Tok::LParen)
    } else if c == ')' {
        Some(Tok::RParen)
    } else if c == ',' {
        Some(Tok::Comma)
    } else {
        None
    }
}

/// A number begins at `i`: a digit, or a minus sign and a digit.
pub open spec fn number_at(chars: Seq<char>, i: int) -> bool {
    text::is_digit(chars[i]) || (chars[i] == '-' && i + 1 < chars.len() && text::is_digit(
        chars[i + 1],
    ))
}

/// The piece that begins at `i` and where it ends, or why there is none.
pub open spec fn piece_at(chars: Seq<char>, i: int) -> Result<(Piece, int), Seq<char>> {
    let c = chars[i];
    if c == '\'' || c == '"' {
        let end = run_end(chars, i + 1, CharClass::Unquoted(c));
        if end < chars.len() {
            Ok((Piece::Token(Tok::Text(chars.subrange(i + 1, end))), end + 1))
        } else {
            Err("unterminated string"@)
        }
    } else if number_at(chars, i) {
        let digits = if c == '-' {
            i + 1
        } else {
            i
        };
        let end = run_end(chars, digits, CharClass::NumberPart);
        Ok((Piece::Number(chars.subrange(i, end)), end))
    } else if text::is_letter(c) || c == '_' {
        let end = run_end(chars, i, CharClass::WordPart);
        Ok((Piece::Token(word_token(chars.subrange(i, end))), end))
    } else if i + 1 < chars.len() && pair_token(c, chars[i + 1]) is Some {
        Ok((Piece::Token(pair_token(c, chars[i + 1])->0), i + 2))
    } else if single_token(c) is Some {
        Ok((Piece::Token(single_token(c)->0), i + 1))
    } else {
        Err("unexpected char: "@.push(c))
    }
}

/// The value of the text of a number in double precision, by its bits; none where the text is
/// not a number.
pub uninterp spec fn double_of_text(s: Seq<char>) -> Option<u64>;

/// How many points a text holds.
pub open spec fn points(s: Seq<char>) -> nat
    decreases s.len(),
{
    if s.len() == 0 {
        0
    } else if s.last() == '.' {
        points(s.drop_last()) + 1
    } else {
        points(s.drop_last())
    }
}

/// An optional minus sign, a digit, and then only digits and points.
pub open spec fn decimal_text(s: Seq<char>) -> bool {
    let from = if s.len() > 0 && s[0] == '-' {
        1int
    } else {
        0int
    };
    &&& from < s.len()
    &&& text::is_digit(s[from])
    &&& forall|i: int| from <= i < s.len() ==> text::is_digit(#[trigger] s[i]) || s[i] == '.'
}

/// Parses a double precision number with `str::parse` and gives its bits.
///
/// The accepted grammar has digits with at most one point among or after them, so a decimal text
/// is a number exactly where it holds no second point. Its value is never NaN. The closure is not
/// called: it only tells which type is parsed.
#[verifier::external_body]
fn parse_double(s: &str) -> (r: Option<u64>)
    ensures
        r == double_of_text(s@),
        decimal_text(s@) ==> (r is Some <==> points(s@) <= 1),
        decimal_text(s@) ==> (r matches Some(bits) ==> !ieee::double_nan(bits)),
{
    let value = s.parse().ok()?;
    let _ = || serde_json::Number::from_f64(value);
    Some(value.to_bits())
}

/// The token of a piece, or why there is none.
pub open spec fn piece_token(piece: Piece) -> Result<Tok, Seq<char>> {
    match piece {
        Piece::Token(t) => Ok(t),
        Piece::Number(s) => match double_of_text(s) {
            Some(bits) => Ok(Tok::Number(bits)),
            None => Err("bad number: "@ + s),
        },
    }
}

/// The tokens from `i` on, or why the text is not made of tokens.
pub open spec fn tokens_from(chars: Seq<char>, i: int) -> Result<Seq<Tok>, Seq<char>>
    decreases chars.len() - i,
{
    if i < 0 || i >= chars.len() {
        Ok(Seq::empty())
    } else if text::is_space(chars[i]) {
        tokens_from(chars, i + 1)
    } else {
        match piece_at(chars, i) {
            Err(e) => Err(e),
            Ok((piece, next)) => match piece_token(piece) {
                Err(e) => Err(e),
                Ok(t) => if i < next <= chars.len() {
                    match tokens_from(chars, next) {
                        Err(e) => Err(e),
                        Ok(rest) => Ok(seq![t] + rest),
                    }
                } else {
                    Err(Seq::empty())
                },
            },
        }
    }
}

/// From `i` on the text is made of tokens, and no number holds a second point.
pub open spec fn well_spelled(chars: Seq<char>, i: int) -> bool
    decreases chars.len() - i,
{
    if i < 0 || i >= chars.len() {
        true
    } else if text::is_space(chars[i]) {
        well_spelled(chars, i + 1)
    } else {
        match piece_at(chars, i) {
            Err(_) => false,
            Ok((piece, next)) => {
                &&& piece matches Piece::Number(s) ==> points(s) <= 1
                &&& i < next <= chars.len()
                &&& well_spelled(chars, next)
            },
        }
    }
}

/// Every character of a run belongs to the class.
proof fn run_belongs(chars: Seq<char>, i: int, class: CharClass)
    requires
        0 <= i <= chars.len(),
    ensures
        forall|j: int| i <= j < run_end(chars, i, class) ==> class.has(#[trigger] chars[j]),
    decreases chars.len() - i,
{
    if i < chars.len() && class.has(chars[i]) {
        run_belongs(chars, i + 1, class);
    }
}

/// The text of a number is a decimal text.
proof fn number_piece_is_decimal(chars: Seq<char>, i: int)
    requires
        0 <= i < chars.len(),
    ensures
        piece_at(chars, i) matches Ok((Piece::Number(s), _)) ==> decimal_text(s),
{
    if number_at(chars, i) {
        let digits = if chars[i] == '-' {
            i + 1
        } else {
            i
        };
        piece_advances(chars, i);
        assert(CharClass::NumberPart.has(chars[digits]));
        run_end_bounds(chars, digits + 1, CharClass::NumberPart);
        run_belongs(chars, digits, CharClass::NumberPart);
        let end = run_end(chars, digits, CharClass::NumberPart);
        let s = chars.subrange(i, end);
        assert(s[0] == chars[i]);
        assert(s[digits - i] == chars[digits]);
        assert forall|j: int| digits - i <= j < s.len() implies text::is_digit(#[trigger] s[j])
            || s[j] == '.' by {
            assert(CharClass::NumberPart.has(chars[i + j]));
        }
    }
}

/// A piece is not empty and ends within the text.
pub proof fn piece_advances(chars: Seq<char>, i: int)
    requires
        0 <= i < chars.len(),
    ensures
        piece_at(chars, i) matches Ok((_, next)) ==> i < next <= chars.len(),
{
    let c = chars[i];
    if c == '\'' || c == '"' {
        run_end_bounds(chars, i + 1, CharClass::Unquoted(c));
    } else if number_at(chars, i) {
        let digits = if c == '-' {
            i + 1
        } else {
            i
        };
        assert(CharClass::NumberPart.has(chars[digits]));
        run_end_bounds(chars, digits + 1, CharClass::NumberPart);
    } else if text::is_letter(c) || c == '_' {
        assert(CharClass::WordPart.has(c));
        run_end_bounds(chars, i + 1, CharClass::WordPart);
    }
}

/// The piece of a filter that begins at `i`.
pub fn next_lexeme(chars: &Vec<char>, i: usize) -> (r: Result<(Lexeme, usize), SqlError>)
    requires
        i < chars@.len(),
    ensures
        match r {
            Ok((lexeme, next)) => piece_at(chars@, i as int) == Ok::<(Piece, int), Seq<char>>(
                (lexeme@, next as int),
            ),
            Err(e) => piece_at(chars@, i as int) == Err::<(Piece, int), Seq<char>>(e@),
        },
{
    let n: usize = chars.len();
    let c: char = chars[i];
    if c == '\'' || c == '"' {
        let end: usize = scan_run(chars, i + 1, CharClass::Unquoted(c));
        if end >= n {
            return Err(SqlError::new("unterminated string"));
        }
        let s = text::text_of(chars, i + 1, end);
        return Ok((Lexeme::Token(Token::Text(s)), end + 1));
    }
    if text::digit(c) || (c == '-' && i + 1 < n && text::digit(chars[i + 1])) {
        let digits: usize = if c == '-' {
            i + 1
        } else {
            i
        };
        let end: usize = scan_run(chars, digits, CharClass::NumberPart);
        let s = text::text_of(chars, i, end);
        return Ok((Lexeme::Number(s), end));
    }
    if text::letter(c) || c == '_' {
        let end: usize = scan_run(chars, i, CharClass::WordPart);
        let token = if text::is_keyword(chars, i, end, "AND") {
            Token::And
        } else if text::is_keyword(chars, i, end, "OR") {
            Token::Or
        } else if text::is_keyword(chars, i, end, "IN") {
            Token::In
        } else if text::is_keyword(chars, i, end, "TRUE") {
            Token::Number(ieee::DOUBLE_ONE)
        } else if text::is_keyword(chars, i, end, "FALSE") {
            Token::Number(ieee::DOUBLE_ZERO)
        } else {
            Token::Ident(text::text_of(chars, i, end))
        };
        return Ok((Lexeme::Token(token), end));
    }
    if i + 1 < n {
        let d: char = chars[i + 1];
        if (c == '!' && d == '=') || (c == '<' && d == '>') {
            return Ok((Lexeme::Token(Token::Ne), i + 2));
        }
        if c == '<' && d == '=' {
            return Ok((Lexeme::Token(Token::Le), i + 2));
        }
        if c == '>' && d == '=' {
            return Ok((Lexeme::Token(Token::Ge), i + 2));
        }
    }
    let token = if c == '=' {
        Token::Eq
    } else if c == '<' {
        Token::Lt
    } else if c == '>' {
        Token::Gt
    } else if c == '(' {
        Token::LParen
    } else if c == ')' {
        Token::RParen
    } else if c == ',' {
        Token::Comma
    } else {
        let mut reason = "unexpected char: ".to_owned();
        reason.push(c);
        return Err(SqlError::new(reason.as_str()));
    };
    Ok((Lexeme::Token(token), i + 1))
}

/// The tokens of a filter, or why its text is not made of tokens.
pub fn tokenize(input: &str) -> (r: Result<Vec<Token>, SqlError>)
    ensures
        match r {
            Ok(tokens) => tokens_from(input@, 0) == Ok::<Seq<Tok>, Seq<char>>(token_views(tokens@)),
            Err(e) => tokens_from(input@, 0) == Err::<Seq<Tok>, Seq<char>>(e@),
        },
        r is Ok <==> well_spelled(input@, 0),
{
    let chars = text::chars_of(input);
    let mut tokens: Vec<Token> = Vec::new();
    let mut i: usize = 0;
    while i < chars.len()
        invariant
            i <= chars@.len(),
            chars@ == input@,
            well_spelled(input@, 0) == well_spelled(input@, i as int),
            match tokens_from(input@, i as int) {
                Ok(rest) => tokens_from(input@, 0) == Ok::<Seq<Tok>, Seq<char>>(
                    token_views(tokens@) + rest,
                ),
                Err(e) => tokens_from(input@, 0) == Err::<Seq<Tok>, Seq<char>>(e),
            },
        decreases chars@.len() - i,
    {
        if text::space(chars[i]) {
            i += 1;
            continue;
        }
        proof {
            piece_advances(chars@, i as int);
            number_piece_is_decimal(chars@, i as int);
        }
        match next_lexeme(&chars, i) {
            Err(e) => {
                return Err(e);
            },
            Ok((lexeme, next)) => {
                let token = match lexeme {
                    Lexeme::Token(t) => t,
                    Lexeme::Number(s) => match parse_double(s.as_str()) {
                        Some(bits) => Token::Number(bits),
                        None => {
                            let mut reason = "bad number: ".to_owned();
                            reason.append(s.as_str());
                            return Err(SqlError::new(reason.as_str()));
                        },
                    },
                };
                let ghost before = tokens@;
                let ghost t = token@;
                tokens.push(token);
                proof {
                    assert(token_views(tokens@) =~= token_views(before).push(t));
                    if let Ok(rest) = tokens_from(input@, next as int) {
                        assert(token_views(before) + (seq![t] + rest) =~= token_views(tokens@)
                            + rest);
                    }
                }
                i = next;
            },
        }
    }
    assert(token_views(tokens@) + Seq::<Tok>::empty() =~= token_views(tokens@));
    Ok(tokens)
}

} // verus!
