//! Tokenizer for the tabular comma-delimited format: the input splits
//! into lines, each line into one record of field tokens, quote-aware,
//! and every line must show the same number of fields as the first.
use vstd::prelude::*;

use crate::number::{denotes_i64, is_digit, is_number_literal, literal_trunc_i64};
use crate::text::{chars_of_bytes, decimal_string, spec_decimal, string_of_chars};
use crate::{ParsingError, ParsonResult};

verus! {

use vstd::string::StringExecFns;

/// A numeric field: the integer subtype when the literal denotes an
/// integer the 64-bit signed range holds exactly, else the float
/// subtype keeping the literal text.
#[derive(Debug, PartialEq, Clone)]
pub enum Number {
    Int(i64),
    Float(String),
}

#[derive(Debug, PartialEq, Clone)]
pub enum Token {
    String(String),
    Number(Number),
    Null,
    Boolean(bool),
}

pub enum NumberView {
    Int(i64),
    Float(Seq<char>),
}

pub enum TokenView {
    String(Seq<char>),
    Number(NumberView),
    Null,
    Boolean(bool),
}

impl View for Token {
    type V = TokenView;

    open spec fn view(&self) -> TokenView {
        match self {
            Token::String(t) => TokenView::String(t@),
            Token::Number(Number::Int(n)) => TokenView::Number(NumberView::Int(*n)),
            Token::Number(Number::Float(t)) => TokenView::Number(NumberView::Float(t@)),
            Token::Null => TokenView::Null,
            Token::Boolean(b) => TokenView::Boolean(*b),
        }
    }
}

impl DeepView for Token {
    type V = TokenView;

    open spec fn deep_view(&self) -> TokenView {
        self.view()
    }
}

/// Scans an unquoted field: verbatim up to the next comma, which is
/// consumed, or the end of the line.
pub open spec fn scan_plain(line: Seq<char>, i: int, acc: Seq<char>) -> (Seq<char>, int)
    decreases line.len() - i,
{
    if i < 0 || i >= line.len() {
        (acc, i)
    } else if line[i] == ',' {
        (acc, i + 1)
    } else {
        scan_plain(line, i + 1, acc.push(line[i]))
    }
}

/// Scans a quoted field from just after the opening quote: content is
/// verbatim, a doubled quote unescapes to one literal quote, and the
/// closing quote also consumes the character that follows it (the
/// delimiting comma).  A line ending inside the quotes ends the field.
pub open spec fn scan_quoted(line: Seq<char>, i: int, acc: Seq<char>) -> (Seq<char>, int)
    decreases line.len() - i,
{
    if i < 0 || i >= line.len() {
        (acc, i)
    } else if line[i] != '"' {
        scan_quoted(line, i + 1, acc.push(line[i]))
    } else if i + 1 < line.len() && line[i + 1] == '"' {
        scan_quoted(line, i + 2, acc.push('"'))
    } else {
        (acc, if i + 2 <= line.len() {
            i + 2
        } else {
            line.len() as int
        })
    }
}

/// An unquoted field's token: `true`/`false` read as booleans, the
/// empty field as null, anything else as a string.
pub open spec fn classify_plain(text: Seq<char>) -> TokenView {
    if text == seq!['t', 'r', 'u', 'e'] {
        TokenView::Boolean(true)
    } else if text == seq!['f', 'a', 'l', 's', 'e'] {
        TokenView::Boolean(false)
    } else if text.len() == 0 {
        TokenView::Null
    } else {
        TokenView::String(text)
    }
}

/// A quoted field's token: `true`/`false` read as booleans, anything
/// else — the empty content included — as a string.
pub open spec fn classify_quoted(text: Seq<char>) -> TokenView {
    if text == seq!['t', 'r', 'u', 'e'] {
        TokenView::Boolean(true)
    } else if text == seq!['f', 'a', 'l', 's', 'e'] {
        TokenView::Boolean(false)
    } else {
        TokenView::String(text)
    }
}

/// A digit-led field's token: a well-formed number literal becomes a
/// number — the integer subtype exactly when it denotes an integer in
/// the 64-bit signed range — and anything else falls back to a string.
pub open spec fn classify_number(text: Seq<char>) -> TokenView {
    if is_number_literal(text) {
        if denotes_i64(text) {
            TokenView::Number(NumberView::Int(literal_trunc_i64(text) as i64))
        } else {
            TokenView::Number(NumberView::Float(text))
        }
    } else {
        TokenView::String(text)
    }
}

pub proof fn lemma_scan_plain_bounds(line: Seq<char>, i: int, acc: Seq<char>)
    requires
        0 <= i <= line.len(),
    ensures
        i <= scan_plain(line, i, acc).1 <= line.len(),
        i < line.len() ==> scan_plain(line, i, acc).1 >= i + 1,
    decreases line.len() - i,
{
    if i < line.len() && line[i] != ',' {
        lemma_scan_plain_bounds(line, i + 1, acc.push(line[i]));
    }
}

pub proof fn lemma_scan_quoted_bounds(line: Seq<char>, i: int, acc: Seq<char>)
    requires
        0 <= i <= line.len(),
    ensures
        i <= scan_quoted(line, i, acc).1 <= line.len(),
    decreases line.len() - i,
{
    if i < line.len() {
        if line[i] != '"' {
            lemma_scan_quoted_bounds(line, i + 1, acc.push(line[i]));
        } else if i + 1 < line.len() && line[i + 1] == '"' {
            lemma_scan_quoted_bounds(line, i + 2, acc.push('"'));
        }
    }
}

/// One line's record: fields dispatched by their first character — a
/// digit starts a number scan, a quote a quoted scan, anything else a
/// plain scan.
pub open spec fn scan_record(line: Seq<char>, i: int, acc: Seq<TokenView>) -> Seq<TokenView>
    decreases line.len() - i,
{
    if i < 0 || i >= line.len() {
        acc
    } else {
        let c = line[i];
        if is_digit(c) {
            let (text, j) = scan_plain(line, i, Seq::empty());
            proof {
                lemma_scan_plain_bounds(line, i, Seq::empty());
            }
            scan_record(line, j, acc.push(classify_number(text)))
        } else if c == '"' {
            let (text, j) = scan_quoted(line, i + 1, Seq::empty());
            proof {
                lemma_scan_quoted_bounds(line, i + 1, Seq::empty());
            }
            scan_record(line, j, acc.push(classify_quoted(text)))
        } else {
            let (text, j) = scan_plain(line, i, Seq::empty());
            proof {
                lemma_scan_plain_bounds(line, i, Seq::empty());
            }
            scan_record(line, j, acc.push(classify_plain(text)))
        }
    }
}

/// A line's trailing carriage return, left by splitting on newlines,
/// is dropped.
pub open spec fn strip_cr(t: Seq<char>) -> Seq<char> {
    if t.len() > 0 && t.last() == '\r' {
        t.drop_last()
    } else {
        t
    }
}

/// Splits the input into lines on newlines: every newline ends a line
/// (with its carriage return stripped), and a nonempty remainder after
/// the last newline is a final line, kept verbatim.
pub open spec fn spec_lines(s: Seq<char>, i: int, cur: Seq<char>, acc: Seq<Seq<char>>) -> Seq<
    Seq<char>,
>
    decreases s.len() - i,
{
    if i < 0 || i >= s.len() {
        if cur.len() > 0 {
            acc.push(cur)
        } else {
            acc
        }
    } else if s[i] == '\n' {
        spec_lines(s, i + 1, Seq::empty(), acc.push(strip_cr(cur)))
    } else {
        spec_lines(s, i + 1, cur.push(s[i]), acc)
    }
}

pub open spec fn columns_msg(n: nat) -> Seq<char> {
    "lines do not have the same number of columns "@ + spec_decimal(n)
}

/// Records of all lines, each checked to show as many fields as the
/// header line; a mismatch is the column-count error naming the
/// expected count.
pub open spec fn spec_records(
    lines: Seq<Seq<char>>,
    i: int,
    ncols: nat,
    acc: Seq<Seq<TokenView>>,
) -> Result<Seq<Seq<TokenView>>, Seq<char>>
    decreases lines.len() - i,
{
    if i < 0 || i >= lines.len() {
        Ok(acc)
    } else {
        let rec = scan_record(lines[i], 0, Seq::empty());
        if i != 0 && rec.len() != ncols {
            Err(columns_msg(ncols))
        } else {
            spec_records(lines, i + 1, if i == 0 {
                rec.len()
            } else {
                ncols
            }, acc.push(rec))
        }
    }
}

/// The whole tokenization of a text input.
pub open spec fn spec_csv_tokens(s: Seq<char>) -> Result<Seq<Seq<TokenView>>, Seq<char>> {
    spec_records(spec_lines(s, 0, Seq::empty(), Seq::empty()), 0, 0, Seq::empty())
}

/// The whole tokenization of a byte input: the buffer must be
/// well-formed UTF-8.
pub open spec fn spec_csv_tokens_bytes(b: Seq<u8>) -> Result<Seq<Seq<TokenView>>, Seq<char>> {
    if vstd::utf8::valid_utf8(b) {
        spec_csv_tokens(vstd::utf8::decode_utf8(b))
    } else {
        Err("failed to tokenize buf"@)
    }
}

/// One line's ordered sequence of field tokens.
#[derive(Debug)]
pub struct Record(pub Vec<Token>);

impl Record {
    /// Scans a digit-led field from `start` and classifies it, giving
    /// back the token and the position after the consumed delimiter.
    pub fn parse_number(line: &Vec<char>, start: usize) -> (r: (Token, usize))
        requires
            start <= line@.len(),
        ensures
            ({
                let (text, j) = scan_plain(line@, start as int, Seq::empty());
                r.0@ == classify_number(text) && r.1 as int == j && start <= r.1 <= line@.len()
            }),
    {
        let (text, j) = Self::take_plain(line, start);
        let token = match crate::number::analyze_number(&text) {
            Some(ev) => {
                if ev.exact_int {
                    Token::Number(Number::Int(ev.trunc))
                } else {
                    Token::Number(Number::Float(string_of_chars(text.as_slice())))
                }
            },
            None => Token::String(string_of_chars(text.as_slice())),
        };
        (token, j)
    }

    /// Scans an unquoted field from `start` and classifies it:
    /// booleans, the empty field as null, else a string.
    pub fn parse_string(line: &Vec<char>, start: usize) -> (r: (Token, usize))
        requires
            start <= line@.len(),
        ensures
            ({
                let (text, j) = scan_plain(line@, start as int, Seq::empty());
                r.0@ == classify_plain(text) && r.1 as int == j && start <= r.1 <= line@.len()
            }),
    {
        let (text, j) = Self::take_plain(line, start);
        let token = if Self::chars_are(&text, &vec!['t', 'r', 'u', 'e']) {
            Token::Boolean(true)
        } else if Self::chars_are(&text, &vec!['f', 'a', 'l', 's', 'e']) {
            Token::Boolean(false)
        } else if text.len() == 0 {
            proof {
                assert(text@ =~= Seq::<char>::empty());
            }
            Token::Null
        } else {
            Token::String(string_of_chars(text.as_slice()))
        };
        (token, j)
    }

    /// Scans a quoted field from `start` (the opening quote) and
    /// classifies it: booleans, else a string, the empty content
    /// included.
    pub fn parse_string_with_double_quotes(line: &Vec<char>, start: usize) -> (r: (Token, usize))
        requires
            start < line@.len(),
        ensures
            ({
                let (text, j) = scan_quoted(line@, start + 1, Seq::empty());
                r.0@ == classify_quoted(text) && r.1 as int == j && start <= r.1 <= line@.len()
            }),
    {
        let ghost l = line@;
        let n = line.len();
        let mut text: Vec<char> = Vec::new();
        let mut i = start + 1;
        proof {
            assert(text@ =~= Seq::<char>::empty());
        }
        while i < n && !(line[i] == '"' && !(i + 1 < n && line[i + 1] == '"'))
            invariant
                start + 1 <= i <= n,
                n == l.len(),
                l == line@,
                scan_quoted(l, start + 1, Seq::empty()) == scan_quoted(l, i as int, text@),
            decreases n - i,
        {
            let c = line[i];
            if c != '"' {
                text.push(c);
                i = i + 1;
            } else {
                text.push('"');
                i = i + 2;
            }
        }
        let j = if i >= n {
            i
        } else if n - i >= 2 {
            i + 2
        } else {
            n
        };
        let token = if Self::chars_are(&text, &vec!['t', 'r', 'u', 'e']) {
            Token::Boolean(true)
        } else if Self::chars_are(&text, &vec!['f', 'a', 'l', 's', 'e']) {
            Token::Boolean(false)
        } else {
            Token::String(string_of_chars(text.as_slice()))
        };
        (token, j)
    }

    /// Collects an unquoted field's characters up to the consumed
    /// comma or the end of the line.
    fn take_plain(line: &Vec<char>, start: usize) -> (r: (Vec<char>, usize))
        requires
            start <= line@.len(),
        ensures
            scan_plain(line@, start as int, Seq::empty()) == (r.0@, r.1 as int),
            start <= r.1 <= line@.len(),
    {
        let ghost l = line@;
        let n = line.len();
        let mut text: Vec<char> = Vec::new();
        let mut i = start;
        proof {
            assert(text@ =~= Seq::<char>::empty());
        }
        while i < n && line[i] != ','
            invariant
                start <= i <= n,
                n == l.len(),
                l == line@,
                scan_plain(l, start as int, Seq::empty()) == scan_plain(l, i as int, text@),
            decreases n - i,
        {
            text.push(line[i]);
            i = i + 1;
        }
        if i < n {
            (text, i + 1)
        } else {
            (text, i)
        }
    }

    /// Compares a character buffer against an expected word.
    fn chars_are(text: &Vec<char>, expected: &Vec<char>) -> (r: bool)
        ensures
            r == (text@ == expected@),
    {
        if text.len() != expected.len() {
            proof {
                assert(text@ != expected@);
            }
            return false;
        }
        let mut k: usize = 0;
        while k < text.len()
            invariant
                0 <= k <= text@.len(),
                text@.len() == expected@.len(),
                forall|j: int| 0 <= j < k ==> text@[j] == expected@[j],
            decreases text@.len() - k,
        {
            if text[k] != expected[k] {
                return false;
            }
            k = k + 1;
        }
        proof {
            assert(text@ =~= expected@);
        }
        true
    }

    /// Tokenizes one whole line into its record.
    pub fn from_line(line: &Vec<char>) -> (r: Record)
        ensures
            r.0.deep_view() == scan_record(line@, 0, Seq::empty()),
    {
        let ghost l = line@;
        let n = line.len();
        let mut tokens: Vec<Token> = Vec::new();
        let mut i: usize = 0;
        proof {
            assert(tokens.deep_view() =~= Seq::<TokenView>::empty());
        }
        while i < n
            invariant
                0 <= i <= n,
                n == l.len(),
                l == line@,
                scan_record(l, 0, Seq::empty()) == scan_record(l, i as int, tokens.deep_view()),
            decreases n - i,
        {
            let ghost acc0 = tokens.deep_view();
            let c = line[i];
            let (token, j) = if '0' <= c && c <= '9' {
                Record::parse_number(line, i)
            } else if c == '"' {
                Record::parse_string_with_double_quotes(line, i)
            } else {
                Record::parse_string(line, i)
            };
            proof {
                if is_digit(c) {
                    lemma_scan_plain_bounds(l, i as int, Seq::empty());
                } else if c == '"' {
                    lemma_scan_quoted_bounds(l, i + 1, Seq::empty());
                } else {
                    lemma_scan_plain_bounds(l, i as int, Seq::empty());
                }
            }
            tokens.push(token);
            proof {
                assert(j > i);
                assert(tokens.deep_view() =~= acc0.push(tokens@.last()@));
            }
            i = j;
        }
        Record(tokens)
    }
}

#[derive(Debug)]
pub struct Tokenizer {
    pub tokens: Vec<Vec<Token>>,
}

impl Tokenizer {
    /// Tokenizes a whole byte buffer, enforcing the uniform column
    /// count.
    pub fn new(buf: &[u8]) -> (r: ParsonResult<Tokenizer>)
        ensures
            match r {
                Ok(t) => spec_csv_tokens_bytes(buf@) == Ok::<Seq<Seq<TokenView>>, Seq<char>>(
                    t.tokens.deep_view(),
                ),
                Err(e) => spec_csv_tokens_bytes(buf@) == Err::<Seq<Seq<TokenView>>, Seq<char>>(e@),
            },
    {
        match Self::parse_tokens(buf) {
            Ok(tokens) => Ok(Tokenizer { tokens }),
            Err(e) => Err(e),
        }
    }

    /// Splits the decoded input into lines and each line into its
    /// record, rejecting a line whose field count differs from the
    /// header's.
    pub fn parse_tokens(buf: &[u8]) -> (r: ParsonResult<Vec<Vec<Token>>>)
        ensures
            match r {
                Ok(toks) => spec_csv_tokens_bytes(buf@) == Ok::<Seq<Seq<TokenView>>, Seq<char>>(
                    toks.deep_view(),
                ),
                Err(e) => spec_csv_tokens_bytes(buf@) == Err::<Seq<Seq<TokenView>>, Seq<char>>(e@),
            },
    {
        let chars = match chars_of_bytes(buf) {
            Some(chars) => chars,
            None => {
                return Err(ParsingError::new("failed to tokenize buf"));
            },
        };
        let lines = Self::split_lines(&chars);
        let ghost ls = spec_lines(chars@, 0, Seq::empty(), Seq::empty());
        let mut value: Vec<Vec<Token>> = Vec::new();
        let mut line_length: usize = 0;
        let mut idx: usize = 0;
        proof {
            assert(value.deep_view() =~= Seq::<Seq<TokenView>>::empty());
        }
        while idx < lines.len()
            invariant
                0 <= idx <= ls.len(),
                vstd::utf8::valid_utf8(buf@),
                chars@ == vstd::utf8::decode_utf8(buf@),
                ls == spec_lines(chars@, 0, Seq::empty(), Seq::empty()),
                ls.len() == lines@.len(),
                forall|k: int| 0 <= k < ls.len() ==> #[trigger] lines@[k]@ == ls[k],
                spec_records(ls, 0, 0, Seq::empty()) == spec_records(
                    ls,
                    idx as int,
                    line_length as nat,
                    value.deep_view(),
                ),
                idx > 0 ==> line_length as int == scan_record(ls[0], 0, Seq::empty()).len(),
            decreases ls.len() - idx,
        {
            let ghost acc0 = value.deep_view();
            let rec = Record::from_line(&lines[idx]);
            proof {
                assert(rec.0.deep_view() == scan_record(ls[idx as int], 0, Seq::empty()));
                assert(rec.0.deep_view().len() == rec.0@.len());
            }
            let rec_len = rec.0.len();
            if idx != 0 && rec_len != line_length {
                let mut msg = String::from_str("lines do not have the same number of columns ");
                msg.append(decimal_string(line_length).as_str());
                return Err(ParsingError { message: msg });
            }
            if idx == 0 {
                line_length = rec_len;
            }
            value.push(rec.0);
            proof {
                assert(value.deep_view() =~= acc0.push(value@.last().deep_view()));
            }
            idx = idx + 1;
        }
        Ok(value)
    }

    /// Splits characters into lines on newlines, stripping a carriage
    /// return before each newline and dropping nothing else.
    fn split_lines(chars: &Vec<char>) -> (r: Vec<Vec<char>>)
        ensures
            r@.len() == spec_lines(chars@, 0, Seq::empty(), Seq::empty()).len(),
            forall|k: int|
                0 <= k < r@.len() ==> #[trigger] r@[k]@ == spec_lines(
                    chars@,
                    0,
                    Seq::empty(),
                    Seq::empty(),
                )[k],
    {
        let ghost s = chars@;
        let n = chars.len();
        let mut acc: Vec<Vec<char>> = Vec::new();
        let ghost mut accv: Seq<Seq<char>> = Seq::empty();
        let mut cur: Vec<char> = Vec::new();
        let mut i: usize = 0;
        proof {
            assert(cur@ =~= Seq::<char>::empty());
        }
        while i < n
            invariant
                0 <= i <= n,
                n == s.len(),
                s == chars@,
                acc@.len() == accv.len(),
                forall|k: int| 0 <= k < accv.len() ==> #[trigger] acc@[k]@ == accv[k],
                spec_lines(s, 0, Seq::empty(), Seq::empty()) == spec_lines(
                    s,
                    i as int,
                    cur@,
                    accv,
                ),
            decreases n - i,
        {
            let c = chars[i];
            if c == '\n' {
                let mut line = cur;
                if line.len() > 0 && line[line.len() - 1] == '\r' {
                    let ghost lv = line@;
                    line.pop();
                    proof {
                        assert(line@ =~= lv.drop_last());
                        assert(line@ == strip_cr(lv));
                    }
                }
                proof {
                    accv = accv.push(line@);
                }
                acc.push(line);
                cur = Vec::new();
                proof {
                    assert(cur@ =~= Seq::<char>::empty());
                }
            } else {
                cur.push(c);
            }
            i = i + 1;
        }
        if cur.len() > 0 {
            proof {
                accv = accv.push(cur@);
            }
            acc.push(cur);
        }
        acc
    }
}

} // verus!
