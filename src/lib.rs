//! Reading and writing PEM, the ASCII armour of RFC 1421 and RFC 7468:
//! `-----BEGIN <label>-----` and `-----END <label>-----` around base64
//! content, optionally preceded by RFC 1421 header fields.
use vstd::prelude::*;

pub mod builder;
pub mod codec;
pub mod error;
pub mod headers;
pub mod parser;
pub mod round_trip;
pub mod text;

use crate::codec::{base64_lines, base64_rejects, base64_strict, base64_text, chunks64, string_of};
use crate::error::{error_at, ErrAt, Error, ErrorKind};
use crate::headers::{header_lines, HeaderModel, PemHeader};
use crate::parser::{begin_line, decode_outcome, end_line, envelope_of, pem_parser};
use crate::text::{join_lines, push_range, push_str, views};

verus! {

/// A PEM block: its label, its header fields and its binary content.
#[derive(Clone, Debug, PartialEq, Eq)]
pub struct PemMessage {
    pub label: String,
    pub headers: PemHeader,
    pub content: Vec<u8>,
}

pub struct MessageModel {
    pub label: Seq<char>,
    pub headers: HeaderModel,
    pub content: Seq<u8>,
}

impl View for PemMessage {
    type V = MessageModel;

    open spec fn view(&self) -> MessageModel {
        MessageModel { label: self.label@, headers: self.headers@, content: self.content@ }
    }
}

/// The lines of a rendered block: BEGIN, the header lines and a blank line
/// after them when there are any, the base64 content in lines of 64, END.
pub open spec fn pem_lines(m: MessageModel) -> Seq<Seq<char>> {
    seq![begin_line(m.label)] + header_lines(m.headers) + (if m.headers.proc_type is Some {
        seq![Seq::<char>::empty()]
    } else {
        Seq::<Seq<char>>::empty()
    }) + chunks64(base64_text(m.content)) + seq![end_line(m.label)]
}

/// The canonical text of a block; the last line has no line break.
pub open spec fn pem_text(m: MessageModel) -> Seq<char> {
    join_lines(pem_lines(m))
}

impl PemMessage {
    /// The canonical text of the block; an empty label cannot be rendered.
    pub fn render(&self) -> (r: Result<String, Error>)
        ensures
            self.label@.len() == 0 ==> r == Err::<String, Error>(Error::RenderError),
            self.label@.len() > 0 ==> (r matches Ok(s) && s@ == pem_text(self@)),
    {
        let label = crate::text::chars_of(self.label.as_str());
        if label.len() == 0 {
            return Err(Error::RenderError);
        }
        let mut lines: Vec<Vec<char>> = Vec::new();
        let mut first: Vec<char> = Vec::new();
        push_str(&mut first, "-----BEGIN ");
        push_range(&mut first, &label, 0, label.len());
        push_str(&mut first, "-----");
        lines.push(first);
        let mut hl = self.headers.lines();
        lines.append(&mut hl);
        if !self.headers.is_empty() {
            lines.push(Vec::new());
        }
        let mut body = base64_lines(&self.content);
        lines.append(&mut body);
        let mut last: Vec<char> = Vec::new();
        push_str(&mut last, "-----END ");
        push_range(&mut last, &label, 0, label.len());
        push_str(&mut last, "-----");
        lines.push(last);
        assert(label@.subrange(0, label@.len() as int) =~= label@);
        assert(views(lines@) =~= pem_lines(self@));
        let out = join(&lines);
        Ok(string_of(&out))
    }
}

/// Lines joined with `'\n'` between them.
fn join(ls: &Vec<Vec<char>>) -> (r: Vec<char>)
    ensures
        r@ == join_lines(views(ls@)),
{
    let mut out: Vec<char> = Vec::new();
    let mut k: usize = 0;
    while k < ls.len()
        invariant
            k <= ls.len(),
            out@ == join_lines(views(ls@).take(k as int)),
        decreases ls.len() - k,
    {
        assert(views(ls@).take(k + 1).drop_last() =~= views(ls@).take(k as int));
        if k > 0 {
            out.push('\n');
        }
        let line = &ls[k];
        push_range(&mut out, line, 0, line.len());
        assert(line@.subrange(0, line@.len() as int) =~= line@);
        assert(out@ =~= join_lines(views(ls@).take(k + 1)));
        k = k + 1;
    }
    assert(views(ls@).take(ls.len() as int) =~= views(ls@));
    out
}

impl core::str::FromStr for PemMessage {
    type Err = Error;

    /// Decodes the first PEM block of `s`, as `pem_parser` does.
    fn from_str(s: &str) -> (r: Result<PemMessage, Error>)
        ensures
            match decode_outcome(s@) {
                Ok(m) => r matches Ok(x) && x@ == m,
                Err(a) => r matches Err(err) && error_at(err, s@, a),
            },
            ({
                let body = envelope_of(s@)->Ok_0.body;
                envelope_of(s@) is Ok && base64_strict(body) is Some ==> (r matches Ok(x)
                    && x.content@ == base64_strict(body)->0)
            }),
            ({
                let env = envelope_of(s@)->Ok_0;
                envelope_of(s@) is Ok && base64_rejects(env.body) ==> (r matches Err(err)
                    && error_at(
                    err,
                    s@,
                    ErrAt { kind: ErrorKind::InvalidContent, line: env.body_line, column: 0 },
                ))
            }),
    {
        pem_parser(s)
    }
}

/// Label for Certificate
pub const CERTIFICATE_LABEL: &'static str = "CERTIFICATE";

/// Label for X509 Certificate Revocation List
pub const CRL_LABEL: &'static str = "X509 CRL";

/// Label for Certification Request
pub const CERTREQ_LABEL: &'static str = "CERTIFICATE REQUEST";

/// Label for PKCS #7 Cryptographic Message
pub const PKCS7_LABEL: &'static str = "PKCS7";

/// Label for Cryptographic Message Syntax
pub const CMS_LABEL: &'static str = "CMS";

/// Label for PKCS #8 Private Key
pub const PRIVKEY_LABEL: &'static str = "PRIVATE KEY";

/// Label for PKCS #8 Encrypted Private Key
pub const ENC_PRIVKEY_LABEL: &'static str = "ENCRYPTED PRIVATE KEY";

/// Label for Attribute Certificates
pub const ATTRCERT_LABEL: &'static str = "ATTRIBUTE CERTIFICATE";

/// Label for Public Key
pub const PUBKEY_LABEL: &'static str = "PUBLIC KEY";

} // verus!
