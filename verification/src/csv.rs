//! The tabular pipeline: a quote-aware line tokenizer and a table
//! builder that zips each data row against the header's column names.
use vstd::prelude::*;

pub mod token;
pub mod value;

use crate::{ParsingError, ParsonResult};
use token::{Token, TokenView, Tokenizer};
use value::{spec_insert, spec_value_of, Row, Value, ValueView};

verus! {

use vstd::string::StringExecFns;

/// The column names of a header whose fields are all strings.
pub open spec fn header_of(line: Seq<TokenView>) -> Seq<Seq<char>> {
    Seq::new(line.len(), |j: int| line[j]->String_0)
}

/// One data row zipped positionally against the column names; a
/// duplicate column name keeps its last value.
pub open spec fn row_of(
    line: Seq<TokenView>,
    header: Seq<Seq<char>>,
    j: int,
    acc: Seq<(Seq<char>, ValueView)>,
) -> Seq<(Seq<char>, ValueView)>
    decreases line.len() - j,
{
    if j < 0 || j >= line.len() || j >= header.len() {
        acc
    } else {
        row_of(line, header, j + 1, spec_insert(acc, header[j], spec_value_of(line[j])))
    }
}

/// All data rows of a tokenized table.
pub open spec fn rows_of(
    lines: Seq<Seq<TokenView>>,
    header: Seq<Seq<char>>,
    i: int,
    acc: Seq<Seq<(Seq<char>, ValueView)>>,
) -> Seq<Seq<(Seq<char>, ValueView)>>
    decreases lines.len() - i,
{
    if i < 1 || i >= lines.len() {
        acc
    } else {
        rows_of(lines, header, i + 1, acc.push(row_of(lines[i], header, 0, Seq::empty())))
    }
}

/// The table built from tokenized lines: the first line must hold
/// string fields only and names the columns; each later line becomes
/// one row mapping.  An empty input yields no rows.
pub open spec fn spec_table(lines: Seq<Seq<TokenView>>) -> Result<
    Seq<Seq<(Seq<char>, ValueView)>>,
    Seq<char>,
> {
    if lines.len() == 0 {
        Ok(Seq::empty())
    } else if exists|j: int| 0 <= j < lines[0].len() && !(lines[0][j] is String) {
        Err("header items must all be strings"@)
    } else {
        Ok(rows_of(lines, header_of(lines[0]), 1, Seq::empty()))
    }
}

/// Parsing a whole byte buffer: tokenize, then build the table.
pub open spec fn spec_parse_csv_bytes(b: Seq<u8>) -> Result<
    Seq<Seq<(Seq<char>, ValueView)>>,
    Seq<char>,
> {
    match token::spec_csv_tokens_bytes(b) {
        Ok(lines) => spec_table(lines),
        Err(e) => Err(e),
    }
}

/// Parsing a whole text: tokenize, then build the table.
pub open spec fn spec_parse_csv(s: Seq<char>) -> Result<
    Seq<Seq<(Seq<char>, ValueView)>>,
    Seq<char>,
> {
    match token::spec_csv_tokens(s) {
        Ok(lines) => spec_table(lines),
        Err(e) => Err(e),
    }
}

pub struct CsvParser {
    pub tokenizer: Tokenizer,
}

impl View for CsvParser {
    type V = Seq<Seq<TokenView>>;

    open spec fn view(&self) -> Seq<Seq<TokenView>> {
        self.tokenizer.tokens.deep_view()
    }
}

impl CsvParser {
    /// Tokenizes the buffer; decoding and column-count errors surface
    /// here.
    pub fn new(buf: &[u8]) -> (r: ParsonResult<CsvParser>)
        ensures
            match r {
                Ok(p) => token::spec_csv_tokens_bytes(buf@) == Ok::<
                    Seq<Seq<TokenView>>,
                    Seq<char>,
                >(p@),
                Err(e) => token::spec_csv_tokens_bytes(buf@) == Err::<
                    Seq<Seq<TokenView>>,
                    Seq<char>,
                >(e@),
            },
    {
        match Tokenizer::new(buf) {
            Ok(t) => Ok(CsvParser { tokenizer: t }),
            Err(e) => Err(e),
        }
    }

    /// Builds the row mappings out of the tokenized lines.
    pub fn parse(&self) -> (r: ParsonResult<Vec<Row>>)
        ensures
            match r {
                Ok(rows) => spec_table(self@) == Ok::<Seq<Seq<(Seq<char>, ValueView)>>, Seq<char>>(
                    rows.deep_view(),
                ),
                Err(e) => spec_table(self@) == Err::<Seq<Seq<(Seq<char>, ValueView)>>, Seq<char>>(
                    e@,
                ),
            },
    {
        let ghost lines = self@;
        let nlines = self.tokenizer.tokens.len();
        let mut value: Vec<Row> = Vec::new();
        if nlines == 0 {
            proof {
                assert(value.deep_view() =~= Seq::<Seq<(Seq<char>, ValueView)>>::empty());
            }
            return Ok(value);
        }
        // the header: all fields must be strings, and they name the
        // columns
        let first = &self.tokenizer.tokens[0];
        let ghost line0 = lines[0];
        let mut header: Vec<String> = Vec::new();
        let mut j: usize = 0;
        proof {
            assert(first.deep_view() == lines[0]);
        }
        while j < first.len()
            invariant
                0 <= j <= first@.len(),
                lines == self@,
                lines.len() > 0,
                line0 == lines[0],
                first.deep_view() == line0,
                line0.len() == first@.len(),
                header@.len() == j as int,
                forall|k: int| 0 <= k < j ==> line0[k] is String,
                forall|k: int| 0 <= k < j ==> #[trigger] header@[k]@ == line0[k]->String_0,
            decreases first@.len() - j,
        {
            match &first[j] {
                Token::String(text) => {
                    header.push(text.clone());
                },
                _ => {
                    proof {
                        assert(lines.len() > 0);
                        assert(0 <= j < lines[0].len() && !(lines[0][j as int] is String));
                    }
                    return Err(ParsingError::new("header items must all be strings"));
                },
            }
            j = j + 1;
        }
        proof {
            assert(forall|k: int| 0 <= k < line0.len() ==> line0[k] is String);
            assert(forall|k: int|
                0 <= k < header@.len() ==> #[trigger] header@[k]@ == header_of(line0)[k]);
        }
        // each later line zips positionally against the column names
        let ghost hd = header_of(line0);
        let mut i: usize = 1;
        proof {
            assert(value.deep_view() =~= Seq::<Seq<(Seq<char>, ValueView)>>::empty());
        }
        while i < nlines
            invariant
                1 <= i <= lines.len(),
                nlines == lines.len(),
                lines == self@,
                lines.len() == self.tokenizer.tokens@.len(),
                header@.len() == hd.len(),
                forall|k: int| 0 <= k < hd.len() ==> #[trigger] header@[k]@ == hd[k],
                rows_of(lines, hd, 1, Seq::empty()) == rows_of(
                    lines,
                    hd,
                    i as int,
                    value.deep_view(),
                ),
            decreases lines.len() - i,
        {
            let ghost acc0 = value.deep_view();
            let line = &self.tokenizer.tokens[i];
            proof {
                assert(line.deep_view() == lines[i as int]);
            }
            let mut row = Row::new();
            let m = if line.len() < header.len() {
                line.len()
            } else {
                header.len()
            };
            let mut j: usize = 0;
            proof {
                assert(row@ =~= Seq::<(Seq<char>, ValueView)>::empty());
            }
            while j < m
                invariant
                    0 <= j <= m,
                    m <= line@.len(),
                    m <= header@.len(),
                    line.deep_view() == lines[i as int],
                    lines[i as int].len() == line@.len(),
                    m as int == if lines[i as int].len() <= hd.len() {
                        lines[i as int].len()
                    } else {
                        hd.len()
                    },
                    header@.len() == hd.len(),
                    forall|k: int| 0 <= k < hd.len() ==> #[trigger] header@[k]@ == hd[k],
                    row_of(lines[i as int], hd, 0, Seq::empty()) == row_of(
                        lines[i as int],
                        hd,
                        j as int,
                        row@,
                    ),
                decreases m - j,
            {
                let val = Value::from_token(&line[j]);
                row.insert(header[j].clone(), val);
                j = j + 1;
            }
            proof {
                assert(row_of(lines[i as int], hd, m as int, row@) == row@);
            }
            value.push(row);
            proof {
                assert(value.deep_view() =~= acc0.push(value@.last()@));
            }
            i = i + 1;
        }
        Ok(value)
    }
}

} // verus!
