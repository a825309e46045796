use parson::parq::ParqParser;

fn framed(meta: &[u8]) -> Vec<u8> {
    let mut bytes = meta.to_vec();
    let len = meta.len() as u32;
    bytes.extend_from_slice(&len.to_le_bytes());
    bytes.extend_from_slice(b"PAR1");
    bytes
}

#[test]
fn well_framed_buffer_is_accepted() {
    let bytes = framed(b"xyz");
    assert!(ParqParser::new(&bytes).is_ok());
    assert!(ParqParser::is_parq_file(&bytes).is_ok());
    assert_eq!(ParqParser::get_footer_length(&bytes).unwrap(), 3);
}

#[test]
fn missing_magic_is_rejected() {
    let parser = ParqParser::new(b"notaparqfile");
    assert!(parser.is_err());
    assert!(parser.unwrap_err().message.contains("Not a parq"));
}

#[test]
fn short_buffer_is_rejected() {
    assert!(ParqParser::new(b"PAR1").is_err());
    assert!(ParqParser::get_footer_length(b"PAR1").is_err());
}

#[test]
fn oversized_footer_length_is_rejected() {
    let mut bytes = Vec::new();
    bytes.extend_from_slice(&10u32.to_le_bytes());
    bytes.extend_from_slice(b"PAR1");
    let parser = ParqParser::new(&bytes);
    assert!(parser.is_err());
    assert_eq!(
        parser.unwrap_err().message,
        "failed to read file_metadata bytes"
    );
}
