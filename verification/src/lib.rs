//! A dependency-light reader for two self-describing text formats: a
//! JSON-like nested format and a comma-delimited tabular format.  Raw
//! text is tokenized into typed lexical units, which a builder then
//! assembles into an in-memory value tree with typed extraction back out.
use vstd::prelude::*;

pub mod csv;
pub mod json;
pub mod number;
pub mod parq;
pub mod text;

verus! {

/// The single error type surfaced by every parsing entry point.
/// It carries one human-readable message naming the offending
/// value, character or count where feasible.
#[derive(Debug, Clone)]
pub struct ParsingError {
    pub message: String,
}

impl View for ParsingError {
    type V = Seq<char>;

    open spec fn view(&self) -> Seq<char> {
        self.message@
    }
}

impl ParsingError {
    /// Builds an error from a fixed message.
    pub fn new(msg: &str) -> (e: ParsingError)
        ensures
            e@ == msg@,
    {
        ParsingError { message: msg.to_owned() }
    }
}

pub type ParsonResult<T> = Result<T, ParsingError>;

/// The facade: one entry point per format and input form.
#[derive(Debug)]
pub struct Parson {}

impl Parson {
    /// Parses a JSON-like text into one rooted value tree.
    pub fn parse_json(json_string: &str) -> (r: ParsonResult<crate::json::value::Value>)
        ensures
            match r {
                Ok(v) => crate::json::spec_parse_json(json_string@) == Ok::<
                    crate::json::value::ValueView,
                    Seq<char>,
                >(v@),
                Err(e) => crate::json::spec_parse_json(json_string@) == Err::<
                    crate::json::value::ValueView,
                    Seq<char>,
                >(e@),
            },
    {
        let json_parser = crate::json::JsonParser::new(json_string)?;
        json_parser.parse()
    }

    /// Parses a JSON-like byte buffer; it must be well-formed UTF-8.
    pub fn parse_json_with_bytes(bytes: &[u8]) -> (r: ParsonResult<crate::json::value::Value>)
        ensures
            match r {
                Ok(v) => crate::json::spec_parse_json_bytes(bytes@) == Ok::<
                    crate::json::value::ValueView,
                    Seq<char>,
                >(v@),
                Err(e) => crate::json::spec_parse_json_bytes(bytes@) == Err::<
                    crate::json::value::ValueView,
                    Seq<char>,
                >(e@),
            },
    {
        match crate::text::decode_utf8_bytes(bytes) {
            Some(s) => {
                proof {
                    vstd::utf8::encode_utf8_decode_utf8(s@);
                }
                Self::parse_json(s)
            },
            None => Err(ParsingError::new("failed to decode byte buffer")),
        }
    }

    /// Parses a tabular text into its ordered row mappings.
    pub fn parse_csv(csv_string: &str) -> (r: ParsonResult<Vec<crate::csv::value::Row>>)
        ensures
            match r {
                Ok(rows) => crate::csv::spec_parse_csv(csv_string@) == Ok::<
                    Seq<Seq<(Seq<char>, crate::csv::value::ValueView)>>,
                    Seq<char>,
                >(rows.deep_view()),
                Err(e) => crate::csv::spec_parse_csv(csv_string@) == Err::<
                    Seq<Seq<(Seq<char>, crate::csv::value::ValueView)>>,
                    Seq<char>,
                >(e@),
            },
    {
        proof {
            vstd::utf8::encode_utf8_valid_utf8(csv_string@);
            vstd::utf8::encode_utf8_decode_utf8(csv_string@);
        }
        let csv_parser = crate::csv::CsvParser::new(csv_string.as_bytes())?;
        csv_parser.parse()
    }

    /// Parses a tabular byte buffer; it must be well-formed UTF-8.
    pub fn parse_csv_with_bytes(bytes: &[u8]) -> (r: ParsonResult<Vec<crate::csv::value::Row>>)
        ensures
            match r {
                Ok(rows) => crate::csv::spec_parse_csv_bytes(bytes@) == Ok::<
                    Seq<Seq<(Seq<char>, crate::csv::value::ValueView)>>,
                    Seq<char>,
                >(rows.deep_view()),
                Err(e) => crate::csv::spec_parse_csv_bytes(bytes@) == Err::<
                    Seq<Seq<(Seq<char>, crate::csv::value::ValueView)>>,
                    Seq<char>,
                >(e@),
            },
    {
        let csv_parser = crate::csv::CsvParser::new(bytes)?;
        csv_parser.parse()
    }
}

} // verus!
