use easypem::builder::PemBuilder;
use easypem::error::{Error, ErrorKind, ParseError};
use easypem::headers::{
    ContentDomain, DEKInfo, HeaderParser, PemHeader, ProcType, ProcTypeSpecifier,
};
use easypem::parser::{finish, parse_envelope, pem_parser};
use easypem::PemMessage;

const SIMPLE: &str = "-----BEGIN MESSAGE-----\nVGhpcyBpcyBhIG1lc3NhZ2U=\n-----END MESSAGE-----";

fn parse_error(text: &str) -> Error {
    match pem_parser(text) {
        Ok(m) => panic!("unexpected success: {:?}", m),
        Err(e) => e,
    }
}

fn header_error_kind(text: &str) -> ErrorKind {
    match parse_error(text) {
        Error::HeaderParserError(e) => e.kind,
        other => panic!("not a header error: {:?}", other),
    }
}

fn envelope_error_kind(text: &str) -> ErrorKind {
    match parse_error(text) {
        Error::PemParserError(e) => e.kind,
        other => panic!("not an envelope error: {:?}", other),
    }
}

fn full_headers() -> PemHeader {
    PemHeader {
        proc_type: Some(ProcType(4, ProcTypeSpecifier::ENCRYPTED)),
        content_domain: Some(ContentDomain("RFC822".to_owned())),
        dek_info: Some(DEKInfo {
            algorithm: "DES-CBC".to_owned(),
            parameter: vec![0xF8, 0x14, 0x3E, 0xDE, 0x59, 0x60, 0xC5, 0x97],
        }),
    }
}

#[test]
fn simple_message_parses() {
    let m = pem_parser(SIMPLE).unwrap();
    assert_eq!(m.label, "MESSAGE");
    assert_eq!(m.headers, PemHeader::default());
    assert_eq!(m.content, b"This is a message".to_vec());
}

#[test]
fn simple_message_renders_back() {
    let m = pem_parser(SIMPLE).unwrap();
    assert_eq!(m.render().unwrap(), SIMPLE);
}

#[test]
fn standard_headers_parse() {
    let text = "-----BEGIN PRIVACY-ENHANCED MESSAGE-----\nProc-Type: 4,ENCRYPTED\nContent-Domain: RFC822\nDEK-Info: DES-CBC,F8143EDE5960C597\n\nAAAA\n-----END PRIVACY-ENHANCED MESSAGE-----";
    let m = pem_parser(text).unwrap();
    assert_eq!(m.headers.proc_type, Some(ProcType(4, ProcTypeSpecifier::ENCRYPTED)));
    assert_eq!(m.headers.content_domain, Some(ContentDomain("RFC822".to_owned())));
    let dek = m.headers.dek_info.unwrap();
    assert_eq!(dek.algorithm, "DES-CBC");
    assert_eq!(dek.parameter, vec![0xF8, 0x14, 0x3E, 0xDE, 0x59, 0x60, 0xC5, 0x97]);
    assert_eq!(m.content, vec![0, 0, 0]);
}

#[test]
fn invalid_hex_is_a_positioned_error() {
    let text = "-----BEGIN X-----\nProc-Type: 4,ENCRYPTED\nDEK-Info: DES-CBC,ZZ\n\n-----END X-----";
    assert_eq!(
        parse_error(text),
        Error::HeaderParserError(ParseError {
            kind: ErrorKind::InvalidHex,
            line: 2,
            column: 18,
            offset: 59,
        })
    );
}

#[test]
fn odd_length_hex_is_rejected() {
    let text = "-----BEGIN X-----\nProc-Type: 4,ENCRYPTED\nDEK-Info: DES-CBC,ABC\n\n-----END X-----";
    assert_eq!(header_error_kind(text), ErrorKind::InvalidHex);
}

#[test]
fn mismatched_end_label_is_rejected() {
    let text = "-----BEGIN PRIVACY-ENHANCED MESSAGE-----\nAAAA\n-----END MESSAGE-----";
    assert_eq!(
        parse_error(text),
        Error::PemParserError(ParseError {
            kind: ErrorKind::LabelMismatch,
            line: 2,
            column: 9,
            offset: 55,
        })
    );
}

#[test]
fn missing_end_line_is_rejected() {
    let text = "-----BEGIN PRIVACY-ENHANCED MESSAGE-----\nAAAA\n";
    assert_eq!(
        parse_error(text),
        Error::PemParserError(ParseError {
            kind: ErrorKind::MissingBlock,
            line: 0,
            column: 0,
            offset: 0,
        })
    );
}

#[test]
fn missing_block_is_rejected() {
    assert_eq!(
        parse_error("no armour here"),
        Error::PemParserError(ParseError {
            kind: ErrorKind::MissingBlock,
            line: 0,
            column: 0,
            offset: 0,
        })
    );
}

#[test]
fn bogus_specifier_points_at_the_token() {
    let text = "-----BEGIN X-----\nProc-Type: 4,BOGUS\n\n-----END X-----";
    assert_eq!(
        parse_error(text),
        Error::HeaderParserError(ParseError {
            kind: ErrorKind::InvalidSpecifier,
            line: 1,
            column: 13,
            offset: 31,
        })
    );
}

#[test]
fn empty_label_cannot_render() {
    let m = PemMessage {
        label: String::new(),
        headers: full_headers(),
        content: b"anything".to_vec(),
    };
    assert_eq!(m.render(), Err(Error::RenderError));
}

#[test]
fn other_error_kinds() {
    assert_eq!(
        header_error_kind("-----BEGIN X-----\nContent-Domain: RFC822\n\n-----END X-----"),
        ErrorKind::MissingProcType
    );
    assert_eq!(
        header_error_kind("-----BEGIN X-----\nProc-Type: 4,CRL\nX-Custom: 1\n\n-----END X-----"),
        ErrorKind::UnknownHeader
    );
    assert_eq!(
        header_error_kind("-----BEGIN X-----\nProc-Type: 4,CRL\nno colon here\n\n-----END X-----"),
        ErrorKind::MalformedHeader
    );
    assert_eq!(
        header_error_kind("-----BEGIN X-----\nProc-Type: 4 CRL\n\n-----END X-----"),
        ErrorKind::MalformedProcType
    );
    assert_eq!(
        header_error_kind("-----BEGIN X-----\nProc-Type: 4294967296,CRL\n\n-----END X-----"),
        ErrorKind::InvalidVersion
    );
    assert_eq!(
        header_error_kind("-----BEGIN X-----\nProc-Type: x,CRL\n\n-----END X-----"),
        ErrorKind::InvalidVersion
    );
    assert_eq!(
        header_error_kind("-----BEGIN X-----\n Proc-Type: 4,CRL\n\n-----END X-----"),
        ErrorKind::StrayContinuation
    );
    assert_eq!(
        envelope_error_kind("-----BEGIN X-----\nAA!A\n-----END X-----"),
        ErrorKind::InvalidContent
    );
}

#[test]
fn invalid_content_points_at_the_body() {
    let text = "-----BEGIN X-----\nProc-Type: 4,CRL\n\nA\n-----END X-----";
    assert_eq!(
        parse_error(text),
        Error::PemParserError(ParseError {
            kind: ErrorKind::InvalidContent,
            line: 3,
            column: 0,
            offset: 36,
        })
    );
}

#[test]
fn largest_version_is_accepted() {
    let text = "-----BEGIN X-----\nProc-Type: 4294967295,MIC-CLEAR\n\n-----END X-----";
    let m = pem_parser(text).unwrap();
    assert_eq!(m.headers.proc_type, Some(ProcType(4294967295, ProcTypeSpecifier::MIC_CLEAR)));
}

#[test]
fn round_trip_with_all_rendered_fields() {
    let m = PemMessage {
        label: "PRIVACY-ENHANCED MESSAGE".to_owned(),
        headers: full_headers(),
        content: (0..100u8).collect(),
    };
    let text = m.render().unwrap();
    assert_eq!(pem_parser(&text).unwrap(), m);
}

#[test]
fn round_trip_without_headers() {
    let m = PemMessage {
        label: "CERTIFICATE".to_owned(),
        headers: PemHeader::default(),
        content: (0..=255u8).collect(),
    };
    let text = m.render().unwrap();
    assert_eq!(pem_parser(&text).unwrap(), m);
}

#[test]
fn round_trip_with_empty_dek_parameter() {
    let mut headers = full_headers();
    headers.dek_info = Some(DEKInfo { algorithm: "DES-CBC".to_owned(), parameter: Vec::new() });
    let m = PemMessage { label: "M".to_owned(), headers, content: vec![1, 2] };
    let text = m.render().unwrap();
    assert!(text.contains("DEK-Info: DES-CBC\n"));
    assert_eq!(pem_parser(&text).unwrap(), m);
}

#[test]
fn parsing_twice_gives_equal_results() {
    let text = "-----BEGIN X-----\nProc-Type: 4,MIC-ONLY\nContent-Domain: RFC822\n\nQUJD\n-----END X-----";
    assert_eq!(pem_parser(text), pem_parser(text));
    let bad = "-----BEGIN X-----\nProc-Type: 4,BOGUS\n\n-----END X-----";
    assert_eq!(pem_parser(bad), pem_parser(bad));
}

#[test]
fn header_block_without_proc_type_renders_nothing() {
    let h = PemHeader {
        proc_type: None,
        content_domain: Some(ContentDomain("RFC822".to_owned())),
        dek_info: None,
    };
    assert!(h.is_empty());
    assert_eq!(h.render(), "");
    let m = PemMessage { label: "X".to_owned(), headers: h, content: b"ABC".to_vec() };
    assert_eq!(m.render().unwrap(), "-----BEGIN X-----\nQUJD\n-----END X-----");
}

#[test]
fn header_block_renders_in_order() {
    let h = full_headers();
    assert!(!h.is_empty());
    assert_eq!(
        h.render(),
        "Proc-Type: 4,ENCRYPTED\nContent-Domain: RFC822\nDEK-Info: DES-CBC,F8143EDE5960C597\n"
    );
}

#[test]
fn body_lines_are_64_wide_with_a_short_last_line() {
    let m = PemMessage { label: "X".to_owned(), headers: PemHeader::default(), content: vec![7; 100] };
    let text = m.render().unwrap();
    let lines: Vec<&str> = text.lines().collect();
    assert_eq!(lines.len(), 5);
    assert_eq!(lines[1].len(), 64);
    assert_eq!(lines[2].len(), 64);
    assert_eq!(lines[3].len(), 8);
}

#[test]
fn body_of_47_bytes_fills_one_whole_line() {
    let m = PemMessage { label: "X".to_owned(), headers: PemHeader::default(), content: vec![1; 47] };
    let text = m.render().unwrap();
    let lines: Vec<&str> = text.lines().collect();
    assert_eq!(lines.len(), 3);
    assert_eq!(lines[1].len(), 64);
}

#[test]
fn body_of_48_bytes_is_one_full_line() {
    let m = PemMessage { label: "X".to_owned(), headers: PemHeader::default(), content: vec![2; 48] };
    let text = m.render().unwrap();
    let lines: Vec<&str> = text.lines().collect();
    assert_eq!(lines.len(), 3);
    assert_eq!(lines[1].len(), 64);
}

#[test]
fn empty_content_has_no_body_lines() {
    let m = PemMessage { label: "X".to_owned(), headers: PemHeader::default(), content: Vec::new() };
    let text = m.render().unwrap();
    assert_eq!(text, "-----BEGIN X-----\n-----END X-----");
    assert_eq!(pem_parser(&text).unwrap().content, Vec::<u8>::new());
}

#[test]
fn empty_content_after_headers() {
    let text = "-----BEGIN X-----\nProc-Type: 4,CRL\n\n-----END X-----";
    let m = pem_parser(text).unwrap();
    assert_eq!(m.content, Vec::<u8>::new());
    assert_eq!(m.render().unwrap(), text);
}

#[test]
fn surrounding_text_is_ignored() {
    let text = format!("preamble line\n{}\ntrailer", SIMPLE);
    let m = pem_parser(&text).unwrap();
    assert_eq!(m.label, "MESSAGE");
    assert_eq!(m.content, b"This is a message".to_vec());
}

#[test]
fn folded_header_value_is_unfolded() {
    let text = "-----BEGIN X-----\nProc-Type: 4,ENCRYPTED\nContent-Domain: RFC\n   822\n\n-----END X-----";
    let m = pem_parser(text).unwrap();
    assert_eq!(m.headers.content_domain, Some(ContentDomain("RFC822".to_owned())));
}

#[test]
fn lowercase_hex_and_crlf_body() {
    let text = "-----BEGIN X-----\r\nProc-Type: 4,ENCRYPTED\nDEK-Info: DES-CBC,0aff\n\nQUJD\r\n-----END X-----\r\n";
    let m = pem_parser(text).unwrap();
    assert_eq!(m.headers.dek_info.unwrap().parameter, vec![0x0a, 0xff]);
    assert_eq!(m.content, b"ABC".to_vec());
}

#[test]
fn header_parser_alone() {
    let h = HeaderParser::parse_str("Proc-Type: 4,CRL\nContent-Domain: RFC822\n").unwrap();
    assert_eq!(h.proc_type, Some(ProcType(4, ProcTypeSpecifier::CRL)));
    assert_eq!(h.content_domain, Some(ContentDomain("RFC822".to_owned())));
    assert_eq!(h.dek_info, None);
    match HeaderParser::parse_str("Bogus: 1\n") {
        Err(Error::HeaderParserError(e)) => assert_eq!(e.kind, ErrorKind::MissingProcType),
        other => panic!("unexpected: {:?}", other),
    }
}

#[test]
fn envelope_then_finish() {
    let env = parse_envelope(SIMPLE).unwrap();
    assert_eq!(env.body, "VGhpcyBpcyBhIG1lc3NhZ2U=".chars().collect::<Vec<char>>());
    assert_eq!(env.body_line, 1);
    assert_eq!(env.body_offset, 24);
    let m = finish(env, Ok(vec![1, 2, 3])).unwrap();
    assert_eq!(m.label, "MESSAGE");
    assert_eq!(m.content, vec![1, 2, 3]);
    let env = parse_envelope(SIMPLE).unwrap();
    let err = finish(env, Err(base64::DecodeError::InvalidLength));
    assert_eq!(
        err,
        Err(Error::PemParserError(ParseError {
            kind: ErrorKind::InvalidContent,
            line: 1,
            column: 0,
            offset: 24,
        }))
    );
}

#[test]
fn builder_defaults_and_parts() {
    let empty = PemBuilder::default().build();
    assert_eq!(empty.label, "");
    assert_eq!(empty.headers, PemHeader::default());
    assert!(empty.content.is_empty());
    let mut b = PemBuilder::default();
    b.label("CERTIFICATE").headers(full_headers()).content(vec![9, 9]);
    let m = b.build();
    assert_eq!(m.label, "CERTIFICATE");
    assert_eq!(m.headers, full_headers());
    assert_eq!(m.content, vec![9, 9]);
}

#[test]
fn label_constants() {
    assert_eq!(easypem::CERTIFICATE_LABEL, "CERTIFICATE");
    assert_eq!(easypem::ENC_PRIVKEY_LABEL, "ENCRYPTED PRIVATE KEY");
}

#[test]
fn empty_hex_part_gives_empty_parameter() {
    let text = "-----BEGIN X-----\nProc-Type: 4,ENCRYPTED\nDEK-Info: DES-CBC,\n\n-----END X-----";
    let dek = pem_parser(text).unwrap().headers.dek_info.unwrap();
    assert_eq!(dek.algorithm, "DES-CBC");
    assert!(dek.parameter.is_empty());
}

fn parsed(text: &str) -> Result<PemMessage, Error> {
    text.parse::<PemMessage>()
}

#[test]
fn from_str_simple_message() {
    let m = parsed(SIMPLE).unwrap();
    assert_eq!(
        m,
        PemMessage {
            label: "MESSAGE".to_owned(),
            headers: PemHeader::default(),
            content: b"This is a message".to_vec(),
        }
    );
}

#[test]
fn from_str_empty_block() {
    let m = parsed("-----BEGIN MESSAGE-----\n-----END MESSAGE-----").unwrap();
    assert_eq!(
        m,
        PemMessage { label: "MESSAGE".to_owned(), headers: PemHeader::default(), content: vec![] }
    );
}

#[test]
fn from_str_standard_headers() {
    let text = "-----BEGIN PRIVACY-ENHANCED MESSAGE-----\nProc-Type: 4,ENCRYPTED\nContent-Domain: RFC822\nDEK-Info: DES-CBC,F8143EDE5960C597\n\nVGhpcyBpcyBhIG1lc3NhZ2U=\n-----END PRIVACY-ENHANCED MESSAGE-----";
    let m = parsed(text).unwrap();
    assert_eq!(m.label, "PRIVACY-ENHANCED MESSAGE");
    assert_eq!(m.headers, full_headers());
    assert_eq!(m.content, b"This is a message".to_vec());
}

#[test]
fn from_str_errors() {
    let bad_hex = "-----BEGIN MESSAGE-----\nProc-Type: 4,ENCRYPTED\nDEK-Info: DES-CBC,ZZ\n\nVGhpcyBpcyBhIG1lc3NhZ2U=\n-----END MESSAGE-----";
    assert_eq!(
        parsed(bad_hex),
        Err(Error::HeaderParserError(ParseError {
            kind: ErrorKind::InvalidHex,
            line: 2,
            column: 18,
            offset: 65,
        }))
    );
    let mismatch = "-----BEGIN PRIVACY-ENHANCED MESSAGE-----\nVGhpcyBpcyBhIG1lc3NhZ2U=\n-----END MESSAGE-----";
    assert!(matches!(
        parsed(mismatch),
        Err(Error::PemParserError(ParseError { kind: ErrorKind::LabelMismatch, .. }))
    ));
    let no_end = "-----BEGIN PRIVACY-ENHANCED MESSAGE-----\nVGhpcyBpcyBhIG1lc3NhZ2U=\n";
    assert!(matches!(
        parsed(no_end),
        Err(Error::PemParserError(ParseError { kind: ErrorKind::MissingBlock, offset: 0, .. }))
    ));
    let bogus = "-----BEGIN MESSAGE-----\nProc-Type: 4,BOGUS\n\nVGhpcyBpcyBhIG1lc3NhZ2U=\n-----END MESSAGE-----";
    assert_eq!(
        parsed(bogus),
        Err(Error::HeaderParserError(ParseError {
            kind: ErrorKind::InvalidSpecifier,
            line: 1,
            column: 13,
            offset: 37,
        }))
    );
}

#[test]
fn from_str_round_trip_and_purity() {
    let m = PemMessage {
        label: "PRIVACY-ENHANCED MESSAGE".to_owned(),
        headers: full_headers(),
        content: (0..77u8).collect(),
    };
    let text = m.render().unwrap();
    assert_eq!(parsed(&text), Ok(m));
    assert_eq!(parsed(&text), parsed(&text));
}

#[test]
fn offsets_count_bytes() {
    let text = "\u{e9}\n-----BEGIN X-----\nA\n-----END X-----";
    assert_eq!(
        parse_error(text),
        Error::PemParserError(ParseError {
            kind: ErrorKind::InvalidContent,
            line: 2,
            column: 0,
            offset: 21,
        })
    );
    let text = "-----BEGIN X-----\nProc-Type: 4,ENCRYPTED\nContent-Domain: \u{e9}\nDEK-Info: DES-CBC,ZZ\n\n-----END X-----";
    assert_eq!(
        parse_error(text),
        Error::HeaderParserError(ParseError {
            kind: ErrorKind::InvalidHex,
            line: 3,
            column: 18,
            offset: 78,
        })
    );
}

#[test]
fn bodies_base64_rejects() {
    let spaced = "-----BEGIN X-----\nVGhp cyBp\n-----END X-----";
    assert_eq!(envelope_error_kind(spaced), ErrorKind::InvalidContent);
    let one_over = "-----BEGIN X-----\nQUJDR\n-----END X-----";
    assert_eq!(envelope_error_kind(one_over), ErrorKind::InvalidContent);
}

#[test]
fn error_messages() {
    assert_eq!(ErrorKind::MissingBlock.message(), "Missing PEM block");
    assert_eq!(ErrorKind::InvalidSpecifier.message(), "Invalid Proc-Type specifier");
    let e = ParseError { kind: ErrorKind::InvalidHex, line: 0, column: 0, offset: 0 };
    assert_eq!(e.message(), "Invalid hexadecimal DEK-Info parameter");
}
