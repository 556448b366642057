//! The envelope grammar: BEGIN/END delimiters around an optional header block
//! and a base64 body.
use crate::codec::{base64_decoded, base64_rejects, base64_strict, decode_base64, string_of};
use crate::error::{error_at, place, ErrAt, Error, ErrorKind, Located, ParseError};
use crate::headers::{empty_header, header_block, parse_header_lines, HeaderModel, PemHeader};
use crate::text::{
    blank_pred, byte_offset, byte_offset_of, chars_of, concat_trimmed, concat_trimmed_lines, copy_range, ends_with,
    ends_with_str, find_char, find_char_in, first_blank, first_from, has_str_at, lemma_lines_nonempty,
    line_offset, lines_of, push_range, push_str, same_chars, split_lines, starts_with, trim_end,
    trim_end_of, views,
};
use crate::{MessageModel, PemMessage};
use vstd::prelude::*;

verus! {

/// `-----BEGIN <label>-----` with a non-empty label.
pub open spec fn is_begin_line(l: Seq<char>) -> bool {
    l.len() > 16 && starts_with(l, "-----BEGIN "@) && ends_with(l, "-----"@)
}

pub open spec fn begin_label(l: Seq<char>) -> Seq<char> {
    l.subrange(11, l.len() - 5)
}

pub open spec fn begin_line(label: Seq<char>) -> Seq<char> {
    "-----BEGIN "@ + label + "-----"@
}

pub open spec fn end_line(label: Seq<char>) -> Seq<char> {
    "-----END "@ + label + "-----"@
}

/// A line that opens a block, trailing whitespace aside.
pub open spec fn begin_pred() -> spec_fn(Seq<char>) -> bool {
    |l: Seq<char>| is_begin_line(trim_end(l))
}

/// A line that closes a block, whatever label it names.
pub open spec fn end_pred() -> spec_fn(Seq<char>) -> bool {
    |l: Seq<char>| starts_with(l, "-----END "@)
}

/// A block taken apart: its label, its header block, its body with line
/// breaks and surrounding whitespace removed, and the line the body starts on.
pub struct EnvelopeModel {
    pub label: Seq<char>,
    pub headers: HeaderModel,
    pub body: Seq<char>,
    pub body_line: int,
}

/// The envelope grammar. Lines before the first BEGIN line and after the END
/// line are ignored; a BEGIN line with no END line after it makes no block. A block has a header block when its first line holds a
/// `:`; the header block runs to the first blank line, and the body follows it.
pub open spec fn envelope_of(t: Seq<char>) -> Result<EnvelopeModel, ErrAt> {
    let ls = lines_of(t);
    let b = first_from(ls, 0, begin_pred());
    if b >= ls.len() {
        Err(ErrAt { kind: ErrorKind::MissingBlock, line: 0, column: 0 })
    } else {
        let label = begin_label(trim_end(ls[b]));
        let e = first_from(ls, b + 1, end_pred());
        if e >= ls.len() {
            Err(ErrAt { kind: ErrorKind::MissingBlock, line: 0, column: 0 })
        } else if trim_end(ls[e]) != end_line(label) {
            Err(ErrAt { kind: ErrorKind::LabelMismatch, line: e, column: 9 })
        } else if b + 1 < e && find_char(ls[b + 1], ':') >= 0 {
            let s = first_from(ls, b + 1, blank_pred());
            let hi = if s < e {
                s
            } else {
                e
            };
            match header_block(ls, b + 1, hi) {
                Err(x) => Err(x),
                Ok(h) => {
                    let c0 = if hi < e {
                        hi + 1
                    } else {
                        e
                    };
                    Ok(
                        EnvelopeModel {
                            label,
                            headers: h,
                            body: concat_trimmed(ls, c0, e),
                            body_line: c0,
                        },
                    )
                },
            }
        } else {
            Ok(
                EnvelopeModel {
                    label,
                    headers: empty_header(),
                    body: concat_trimmed(ls, b + 1, e),
                    body_line: b + 1,
                },
            )
        }
    }
}

/// A block taken apart, its body not decoded yet: the line the body starts on
/// (counted from 0) and the byte offset of that line.
pub struct Envelope {
    pub label: Vec<char>,
    pub headers: PemHeader,
    pub body: Vec<char>,
    pub body_line: usize,
    pub body_offset: usize,
}

fn is_begin(l: &Vec<char>) -> (r: bool)
    ensures
        r == is_begin_line(trim_end(l@)),
{
    let t = trim_end_of(l);
    assert(t@.skip(0) =~= t@);
    t.len() > 16 && has_str_at(&t, 0, "-----BEGIN ") && ends_with_str(&t, "-----")
}

fn is_end(l: &Vec<char>) -> (r: bool)
    ensures
        r == starts_with(l@, "-----END "@),
{
    assert(l@.skip(0) =~= l@);
    has_str_at(l, 0, "-----END ")
}

/// Takes apart the first block of `input`, leaving its body undecoded.
pub fn parse_envelope(input: &str) -> (r: Result<Envelope, Error>)
    ensures
        match envelope_of(input@) {
            Ok(env) => r matches Ok(x) && x.label@ == env.label && x.headers@ == env.headers
                && x.body@ == env.body && x.body_line == env.body_line && x.body_offset
                == byte_offset(input@, line_offset(lines_of(input@), env.body_line)),
            Err(a) => r matches Err(err) && error_at(err, input@, a),
        },
{
    let t = chars_of(input);
    let (ls, starts) = split_lines(&t);
    let ghost vls = views(ls@);
    proof {
        lemma_lines_nonempty(t@);
    }
    let mut b: usize = 0;
    while b < ls.len() && !is_begin(&ls[b])
        invariant
            b <= ls.len(),
            vls == views(ls@),
            first_from(vls, 0, begin_pred()) == first_from(vls, b as int, begin_pred()),
        decreases ls.len() - b,
    {
        b = b + 1;
    }
    if b >= ls.len() {
        let l = Located { kind: ErrorKind::MissingBlock, line: 0, column: 0 };
        return Err(Error::PemParserError(place(l, &starts, &t)));
    }
    let first = trim_end_of(&ls[b]);
    let label = copy_range(&first, 11, first.len() - 5);
    let mut e: usize = b + 1;
    while e < ls.len() && !is_end(&ls[e])
        invariant
            b < e <= ls.len(),
            vls == views(ls@),
            first_from(vls, b + 1, end_pred()) == first_from(vls, e as int, end_pred()),
        decreases ls.len() - e,
    {
        e = e + 1;
    }
    if e >= ls.len() {
        let l = Located { kind: ErrorKind::MissingBlock, line: 0, column: 0 };
        return Err(Error::PemParserError(place(l, &starts, &t)));
    }
    let mut expected: Vec<char> = Vec::new();
    push_str(&mut expected, "-----END ");
    push_range(&mut expected, &label, 0, label.len());
    push_str(&mut expected, "-----");
    assert(label@.subrange(0, label@.len() as int) =~= label@);
    assert(expected@ =~= end_line(label@));
    let last = trim_end_of(&ls[e]);
    if !same_chars(&last, &expected) {
        proof {
            reveal_strlit("-----END ");
        }
        assert(vls[e as int].len() >= 9);
        let l = Located { kind: ErrorKind::LabelMismatch, line: e, column: 9 };
        return Err(Error::PemParserError(place(l, &starts, &t)));
    }
    let has_headers = b + 1 < e && find_char_in(&ls[b + 1], ':').is_some();
    if has_headers {
        let s = first_blank(&ls, b + 1);
        let hi = if s < e {
            s
        } else {
            e
        };
        match parse_header_lines(&ls, b + 1, hi) {
            Err(l) => Err(Error::HeaderParserError(place(l, &starts, &t))),
            Ok(h) => {
                let c0 = if hi < e {
                    hi + 1
                } else {
                    e
                };
                let body = concat_trimmed_lines(&ls, c0, e);
                Ok(Envelope { label, headers: h, body, body_line: c0, body_offset: byte_offset_of(&t, starts[c0]) })
            },
        }
    } else {
        let body = concat_trimmed_lines(&ls, b + 1, e);
        let h = PemHeader { proc_type: None, content_domain: None, dek_info: None };
        Ok(Envelope { label, headers: h, body, body_line: b + 1, body_offset: byte_offset_of(&t, starts[b + 1]) })
    }
}

/// Completes a block from its envelope and the outcome of decoding its body.
pub fn finish(env: Envelope, decoded: Result<Vec<u8>, base64::DecodeError>) -> (r: Result<
    PemMessage,
    Error,
>)
    ensures
        match decoded {
            Ok(v) => r matches Ok(m) && m.label@ == env.label@ && m.headers@ == env.headers@
                && m.content@ == v@,
            Err(_) => r == Err::<PemMessage, Error>(
                Error::PemParserError(
                    ParseError {
                        kind: ErrorKind::InvalidContent,
                        line: env.body_line,
                        column: 0,
                        offset: env.body_offset,
                    },
                ),
            ),
        },
{
    match decoded {
        Ok(content) => Ok(PemMessage { label: string_of(&env.label), headers: env.headers, content }),
        Err(_) => Err(
            Error::PemParserError(
                ParseError {
                    kind: ErrorKind::InvalidContent,
                    line: env.body_line,
                    column: 0,
                    offset: env.body_offset,
                },
            ),
        ),
    }
}

/// The outcome of decoding `t`: its first block with the body decoded, or
/// the first error met.
pub open spec fn decode_outcome(t: Seq<char>) -> Result<MessageModel, ErrAt> {
    match envelope_of(t) {
        Err(a) => Err(a),
        Ok(env) => match base64_decoded(env.body) {
            Some(v) => Ok(MessageModel { label: env.label, headers: env.headers, content: v }),
            None => Err(ErrAt { kind: ErrorKind::InvalidContent, line: env.body_line, column: 0 }),
        },
    }
}

/// Decodes the first PEM block of `input`. A strictly padded base64 body
/// gives exactly the bytes it encodes; a body that base64 rejects outright
/// is an `InvalidContent` error.
pub fn pem_parser(input: &str) -> (r: Result<PemMessage, Error>)
    ensures
        match decode_outcome(input@) {
            Ok(m) => r matches Ok(x) && x@ == m,
            Err(a) => r matches Err(err) && error_at(err, input@, a),
        },
        ({
            let body = envelope_of(input@)->Ok_0.body;
            envelope_of(input@) is Ok && base64_strict(body) is Some ==> (r matches Ok(x)
                && x.content@ == base64_strict(body)->0)
        }),
        ({
            let env = envelope_of(input@)->Ok_0;
            envelope_of(input@) is Ok && base64_rejects(env.body) ==> (r matches Err(err)
                && error_at(
                err,
                input@,
                ErrAt { kind: ErrorKind::InvalidContent, line: env.body_line, column: 0 },
            ))
        }),
{
    let env = match parse_envelope(input) {
        Ok(env) => env,
        Err(e) => return Err(e),
    };
    let decoded = decode_base64(&env.body);
    finish(env, decoded)
}

} // verus!
