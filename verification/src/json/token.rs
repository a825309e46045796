//! Tokenizer for the JSON-like format: a single left-to-right scan
//! classifying every input character into a lexical token.  Nothing is
//! discarded: characters that begin no token become whitespace tokens.
use vstd::prelude::*;

use crate::number::{is_digit, is_number_literal};
use crate::text::{chars_of_str, push_char, string_of_chars};
use crate::{ParsingError, ParsonResult};

verus! {

use vstd::string::StringExecFns;

/// A numeric token keeps the literal text it was scanned from; the
/// text always satisfies the decimal literal grammar of
/// [`is_number_literal`].
#[derive(Debug, Clone)]
pub enum Number {
    Float(String),
}

#[derive(Debug, Clone)]
pub enum Token {
    OpenCurlyBracket,
    CloseCurlyBracket,
    OpenSquareBracket,
    CloseSquareBracket,
    StringValue(String),
    NumberValue(Number),
    Comma,
    Colon,
    Whitespace,
    Boolean(bool),
    Null,
}

/// The mathematical shadow of [`Token`]: text carried as character
/// sequences.
pub enum TokenView {
    OpenCurlyBracket,
    CloseCurlyBracket,
    OpenSquareBracket,
    CloseSquareBracket,
    StringValue(Seq<char>),
    NumberValue(Seq<char>),
    Comma,
    Colon,
    Whitespace,
    Boolean(bool),
    Null,
}

impl View for Token {
    type V = TokenView;

    open spec fn view(&self) -> TokenView {
        match self {
            Token::OpenCurlyBracket => TokenView::OpenCurlyBracket,
            Token::CloseCurlyBracket => TokenView::CloseCurlyBracket,
            Token::OpenSquareBracket => TokenView::OpenSquareBracket,
            Token::CloseSquareBracket => TokenView::CloseSquareBracket,
            Token::StringValue(t) => TokenView::StringValue(t@),
            Token::NumberValue(Number::Float(t)) => TokenView::NumberValue(t@),
            Token::Comma => TokenView::Comma,
            Token::Colon => TokenView::Colon,
            Token::Whitespace => TokenView::Whitespace,
            Token::Boolean(b) => TokenView::Boolean(*b),
            Token::Null => TokenView::Null,
        }
    }
}

impl DeepView for Token {
    type V = TokenView;

    open spec fn deep_view(&self) -> TokenView {
        self.view()
    }
}

/// Scans a string literal's content from position `i` (just after the
/// opening quote), with `prev` the character immediately before it:
/// characters are copied verbatim until an unescaped closing quote; a
/// quote immediately preceded by a backslash is kept literally,
/// backslash included (pass-through, not unescaping).  Yields the
/// content and the position after the closing quote, or nothing when
/// the input ends first.
pub open spec fn scan_string(s: Seq<char>, i: int, prev: Option<char>, acc: Seq<char>) -> Option<
    (Seq<char>, int),
>
    decreases s.len() - i,
{
    if i < 0 || i >= s.len() {
        None
    } else if s[i] == '"' && prev != Some('\\') {
        Some((acc, i + 1))
    } else {
        scan_string(s, i + 1, Some(s[i]), acc.push(s[i]))
    }
}

/// Scans a number's remaining text from position `i`: digits, points
/// and exponent markers are accumulated; a comma or the end of input
/// stops the scan (the comma is not consumed); any other character is
/// the lexical error, reported as that character.
pub open spec fn scan_number_text(s: Seq<char>, i: int, acc: Seq<char>) -> Result<
    (Seq<char>, int),
    char,
>
    decreases s.len() - i,
{
    if i < 0 || i >= s.len() {
        Ok((acc, i))
    } else if s[i] == ',' {
        Ok((acc, i))
    } else if is_digit(s[i]) || s[i] == '.' || s[i] == 'E' || s[i] == 'e' {
        scan_number_text(s, i + 1, acc.push(s[i]))
    } else {
        Err(s[i])
    }
}

/// Matches the expected tail of a keyword character by character,
/// yielding the position after the match.
pub open spec fn match_chars(s: Seq<char>, i: int, expected: Seq<char>) -> Option<int>
    decreases expected.len(),
{
    if expected.len() == 0 {
        Some(i)
    } else if 0 <= i < s.len() && s[i] == expected[0] {
        match_chars(s, i + 1, expected.skip(1))
    } else {
        None
    }
}

pub open spec fn number_char_msg(c: char) -> Seq<char> {
    "character "@ + seq![c] + " is not allowed when parsing a number"@
}

pub open spec fn number_parse_msg(t: Seq<char>) -> Seq<char> {
    "failed to parse "@ + t + " as a number"@
}

pub proof fn lemma_scan_string_bounds(s: Seq<char>, i: int, prev: Option<char>, acc: Seq<char>)
    requires
        0 <= i <= s.len(),
    ensures
        match scan_string(s, i, prev, acc) {
            Some((t, j)) => i + 1 <= j <= s.len(),
            None => true,
        },
    decreases s.len() - i,
{
    if i < s.len() && !(s[i] == '"' && prev != Some('\\')) {
        lemma_scan_string_bounds(s, i + 1, Some(s[i]), acc.push(s[i]));
    }
}

pub proof fn lemma_scan_number_bounds(s: Seq<char>, i: int, acc: Seq<char>)
    requires
        0 <= i <= s.len(),
    ensures
        match scan_number_text(s, i, acc) {
            Ok((t, j)) => i <= j <= s.len(),
            Err(_) => true,
        },
    decreases s.len() - i,
{
    if i < s.len() && s[i] != ',' && (is_digit(s[i]) || s[i] == '.' || s[i] == 'E' || s[i] == 'e') {
        lemma_scan_number_bounds(s, i + 1, acc.push(s[i]));
    }
}

pub proof fn lemma_match_chars_bounds(s: Seq<char>, i: int, expected: Seq<char>)
    ensures
        match match_chars(s, i, expected) {
            Some(j) => j == i + expected.len() && (expected.len() > 0 ==> i >= 0 && j <= s.len()),
            None => true,
        },
    decreases expected.len(),
{
    if expected.len() > 0 && 0 <= i < s.len() && s[i] == expected[0] {
        lemma_match_chars_bounds(s, i + 1, expected.skip(1));
    }
}

/// The whole tokenization, from position `i` with the tokens read so
/// far: classifies each leading character, runs the matching scan and
/// appends its token, or stops at the first lexical error.
pub open spec fn spec_tokenize(s: Seq<char>, i: int, acc: Seq<TokenView>) -> Result<
    Seq<TokenView>,
    Seq<char>,
>
    decreases s.len() - i,
{
    if i < 0 || i >= s.len() {
        Ok(acc)
    } else {
        let c = s[i];
        if c == '{' {
            spec_tokenize(s, i + 1, acc.push(TokenView::OpenCurlyBracket))
        } else if c == '}' {
            spec_tokenize(s, i + 1, acc.push(TokenView::CloseCurlyBracket))
        } else if c == '[' {
            spec_tokenize(s, i + 1, acc.push(TokenView::OpenSquareBracket))
        } else if c == ']' {
            spec_tokenize(s, i + 1, acc.push(TokenView::CloseSquareBracket))
        } else if c == ',' {
            spec_tokenize(s, i + 1, acc.push(TokenView::Comma))
        } else if c == ':' {
            spec_tokenize(s, i + 1, acc.push(TokenView::Colon))
        } else if c == '"' {
            match scan_string(s, i + 1, None, Seq::empty()) {
                None => Err("Not a valid json"@),
                Some((text, j)) => {
                    proof {
                        lemma_scan_string_bounds(s, i + 1, None, Seq::empty());
                    }
                    spec_tokenize(s, j, acc.push(TokenView::StringValue(text)))
                },
            }
        } else if is_digit(c) || c == '-' || c == '+' {
            match scan_number_text(s, i + 1, seq![c]) {
                Err(bad) => Err(number_char_msg(bad)),
                Ok((text, j)) => {
                    proof {
                        lemma_scan_number_bounds(s, i + 1, seq![c]);
                    }
                    if is_number_literal(text) {
                        spec_tokenize(s, j, acc.push(TokenView::NumberValue(text)))
                    } else {
                        Err(number_parse_msg(text))
                    }
                },
            }
        } else if c == 't' || c == 'f' {
            let expected = if c == 't' {
                seq!['r', 'u', 'e']
            } else {
                seq!['a', 'l', 's', 'e']
            };
            match match_chars(s, i + 1, expected) {
                None => Err("Failed to parse boolean value"@),
                Some(j) => {
                    proof {
                        lemma_match_chars_bounds(s, i + 1, expected);
                    }
                    spec_tokenize(s, j, acc.push(TokenView::Boolean(c == 't')))
                },
            }
        } else if c == 'n' {
            match match_chars(s, i + 1, seq!['u', 'l', 'l']) {
                None => Err("Failed to parse null value"@),
                Some(j) => {
                    proof {
                        lemma_match_chars_bounds(s, i + 1, seq!['u', 'l', 'l']);
                    }
                    spec_tokenize(s, j, acc.push(TokenView::Null))
                },
            }
        } else {
            spec_tokenize(s, i + 1, acc.push(TokenView::Whitespace))
        }
    }
}

/// The token sequence of a whole input, or the lexical error message.
pub open spec fn spec_tokens_of(s: Seq<char>) -> Result<Seq<TokenView>, Seq<char>> {
    spec_tokenize(s, 0, Seq::empty())
}

#[derive(Debug)]
pub struct Tokenizer {
    pub tokens: Vec<Token>,
}

impl Tokenizer {
    /// Tokenizes the whole input, or reports its first lexical error.
    pub fn new(text: &str) -> (r: ParsonResult<Tokenizer>)
        ensures
            match r {
                Ok(t) => spec_tokens_of(text@) == Ok::<Seq<TokenView>, Seq<char>>(
                    t.tokens.deep_view(),
                ),
                Err(e) => spec_tokens_of(text@) == Err::<Seq<TokenView>, Seq<char>>(e@),
            },
    {
        let chars = chars_of_str(text);
        match Self::tokenize(&chars) {
            Ok(tokens) => Ok(Tokenizer { tokens }),
            Err(e) => Err(e),
        }
    }

    pub fn get_tokens(&self) -> (r: &Vec<Token>)
        ensures
            r == &self.tokens,
    {
        &self.tokens
    }

    fn parse_string(chars: &Vec<char>, start: usize) -> (r: ParsonResult<(Token, usize)>)
        requires
            start <= chars@.len(),
        ensures
            match r {
                Ok((tok, j)) => {
                    &&& tok is StringValue
                    &&& start <= j <= chars@.len()
                    &&& scan_string(chars@, start as int, None, Seq::empty()) == Some(
                        (tok->StringValue_0@, j as int),
                    )
                },
                Err(e) => scan_string(chars@, start as int, None, Seq::empty()) is None && e@
                    == "Not a valid json"@,
            },
    {
        let ghost s = chars@;
        let mut content = String::new();
        let mut prev: Option<char> = None;
        let mut i = start;
        while i < chars.len()
            invariant
                start <= i <= s.len(),
                s == chars@,
                scan_string(s, start as int, None, Seq::empty()) == scan_string(
                    s,
                    i as int,
                    prev,
                    content@,
                ),
            decreases s.len() - i,
        {
            let c = chars[i];
            let escaped = match prev {
                Some(p) => p == '\\',
                None => false,
            };
            if c == '"' && !escaped {
                return Ok((Token::StringValue(content), i + 1));
            }
            push_char(&mut content, c);
            prev = Some(c);
            i = i + 1;
        }
        Err(ParsingError::new("Not a valid json"))
    }

    fn parse_number(chars: &Vec<char>, val: char, start: usize) -> (r: ParsonResult<
        (Token, usize),
    >)
        requires
            start <= chars@.len(),
        ensures
            match r {
                Ok((tok, j)) => {
                    &&& tok is NumberValue
                    &&& start <= j <= chars@.len()
                    &&& scan_number_text(chars@, start as int, seq![val]) matches Ok(p)
                        && p == (tok->NumberValue_0->Float_0@, j as int)
                    &&& is_number_literal(tok->NumberValue_0->Float_0@)
                },
                Err(e) => match scan_number_text(chars@, start as int, seq![val]) {
                    Ok((t, _)) => !is_number_literal(t) && e@ == number_parse_msg(t),
                    Err(c) => e@ == number_char_msg(c),
                },
            },
    {
        let ghost s = chars@;
        let mut text: Vec<char> = Vec::new();
        text.push(val);
        proof {
            assert(text@ =~= seq![val]);
        }
        let mut i = start;
        while i < chars.len() && chars[i] != ','
            invariant
                start <= i <= s.len(),
                s == chars@,
                scan_number_text(s, start as int, seq![val]) == scan_number_text(
                    s,
                    i as int,
                    text@,
                ),
            decreases s.len() - i,
        {
            let c = chars[i];
            if ('0' <= c && c <= '9') || c == '.' || c == 'E' || c == 'e' {
                text.push(c);
                i = i + 1;
            } else {
                let mut msg = String::from_str("character ");
                push_char(&mut msg, c);
                msg.append(" is not allowed when parsing a number");
                return Err(ParsingError { message: msg });
            }
        }
        if crate::number::scan_number_shape(&text).is_some() {
            Ok((Token::NumberValue(Number::Float(string_of_chars(text.as_slice()))), i))
        } else {
            let mut msg = String::from_str("failed to parse ");
            msg.append(string_of_chars(text.as_slice()).as_str());
            msg.append(" as a number");
            Err(ParsingError { message: msg })
        }
    }

    fn parse_keyword(chars: &Vec<char>, start: usize, expected: &Vec<char>) -> (r: Option<usize>)
        requires
            start <= chars@.len(),
        ensures
            match r {
                Some(j) => match_chars(chars@, start as int, expected@) == Some(j as int) && start
                    <= j <= chars@.len(),
                None => match_chars(chars@, start as int, expected@) is None,
            },
    {
        let ghost s = chars@;
        let n = chars.len();
        let mut k: usize = 0;
        proof {
            assert(expected@.skip(0) =~= expected@);
        }
        while k < expected.len()
            invariant
                0 <= k <= expected@.len(),
                s == chars@,
                n == chars@.len(),
                start + k <= n,
                match_chars(s, start as int, expected@) == match_chars(
                    s,
                    start + k,
                    expected@.skip(k as int),
                ),
            decreases expected@.len() - k,
        {
            if start + k >= n {
                proof {
                    assert(expected@.skip(k as int).len() > 0);
                }
                return None;
            }
            if chars[start + k] != expected[k] {
                proof {
                    assert(expected@.skip(k as int)[0] == expected@[k as int]);
                }
                return None;
            }
            proof {
                assert(expected@.skip(k as int)[0] == expected@[k as int]);
                assert(expected@.skip(k as int).skip(1) =~= expected@.skip(k + 1));
            }
            k = k + 1;
        }
        proof {
            assert(expected@.skip(k as int).len() == 0);
        }
        Some(start + k)
    }

    fn tokenize(chars: &Vec<char>) -> (r: ParsonResult<Vec<Token>>)
        ensures
            match r {
                Ok(toks) => spec_tokens_of(chars@) == Ok::<Seq<TokenView>, Seq<char>>(
                    toks.deep_view(),
                ),
                Err(e) => spec_tokens_of(chars@) == Err::<Seq<TokenView>, Seq<char>>(e@),
            },
    {
        let ghost s = chars@;
        let mut tokens: Vec<Token> = Vec::new();
        let mut i: usize = 0;
        proof {
            assert(tokens.deep_view() =~= Seq::<TokenView>::empty());
        }
        while i < chars.len()
            invariant
                0 <= i <= s.len(),
                s == chars@,
                spec_tokenize(s, 0, Seq::empty()) == spec_tokenize(s, i as int, tokens.deep_view()),
            decreases s.len() - i,
        {
            let ghost acc0 = tokens.deep_view();
            let c = chars[i];
            if c == '{' {
                tokens.push(Token::OpenCurlyBracket);
                i = i + 1;
            } else if c == '}' {
                tokens.push(Token::CloseCurlyBracket);
                i = i + 1;
            } else if c == '[' {
                tokens.push(Token::OpenSquareBracket);
                i = i + 1;
            } else if c == ']' {
                tokens.push(Token::CloseSquareBracket);
                i = i + 1;
            } else if c == ',' {
                tokens.push(Token::Comma);
                i = i + 1;
            } else if c == ':' {
                tokens.push(Token::Colon);
                i = i + 1;
            } else if c == '"' {
                match Self::parse_string(chars, i + 1) {
                    Ok((tok, j)) => {
                        tokens.push(tok);
                        i = j;
                    },
                    Err(e) => {
                        return Err(e);
                    },
                }
            } else if ('0' <= c && c <= '9') || c == '-' || c == '+' {
                match Self::parse_number(chars, c, i + 1) {
                    Ok((tok, j)) => {
                        tokens.push(tok);
                        i = j;
                    },
                    Err(e) => {
                        return Err(e);
                    },
                }
            } else if c == 't' || c == 'f' {
                let expected = if c == 't' {
                    vec!['r', 'u', 'e']
                } else {
                    vec!['a', 'l', 's', 'e']
                };
                proof {
                    if c == 't' {
                        assert(expected@ =~= seq!['r', 'u', 'e']);
                    } else {
                        assert(expected@ =~= seq!['a', 'l', 's', 'e']);
                    }
                }
                match Self::parse_keyword(chars, i + 1, &expected) {
                    Some(j) => {
                        tokens.push(Token::Boolean(c == 't'));
                        i = j;
                    },
                    None => {
                        return Err(ParsingError::new("Failed to parse boolean value"));
                    },
                }
            } else if c == 'n' {
                let expected = vec!['u', 'l', 'l'];
                proof {
                    assert(expected@ =~= seq!['u', 'l', 'l']);
                }
                match Self::parse_keyword(chars, i + 1, &expected) {
                    Some(j) => {
                        tokens.push(Token::Null);
                        i = j;
                    },
                    None => {
                        return Err(ParsingError::new("Failed to parse null value"));
                    },
                }
            } else {
                tokens.push(Token::Whitespace);
                i = i + 1;
            }
            proof {
                assert(tokens.deep_view() =~= acc0.push(tokens@.last().deep_view()));
            }
        }
        proof {
            assert(spec_tokenize(s, i as int, tokens.deep_view()) == Ok::<
                Seq<TokenView>,
                Seq<char>,
            >(tokens.deep_view()));
        }
        Ok(tokens)
    }
}

} // verus!
