//! The header block of a PEM message: its typed model, its canonical text, and
//! the grammar of header fields (RFC 822 folding, `Proc-Type`,
//! `Content-Domain`, `DEK-Info`, and the recognised extension fields).
use crate::codec::{decode_hex, encode_hex_upper, hex_decoded, hex_upper, string_of};
use crate::error::{is_header_kind, place, placed, within, ErrAt, Error, ErrorKind, Located};
use crate::text::{
    blank_pred, copy_range, decimal, decimal_u32, equals_str, find_char, find_char_in,
    first_blank, first_from, is_ws, is_ws_char, lines_of, parse_u32, push_decimal, push_range,
    push_str, skip_ws, split_lines, chars_of, trim, trim_of, trim_start, views,
};
use vstd::prelude::*;

verus! {

/// The processing class that `Proc-Type` declares.
#[allow(non_camel_case_types)]
#[derive(Clone, Copy, Debug, PartialEq, Eq, Structural)]
pub enum ProcTypeSpecifier {
    ENCRYPTED,
    MIC_ONLY,
    MIC_CLEAR,
    CRL,
}

/// `Proc-Type` header field: version and specifier.
#[derive(Clone, Copy, Debug, PartialEq, Eq, Structural)]
pub struct ProcType(pub u32, pub ProcTypeSpecifier);

/// `Content-Domain` header field.
#[derive(Clone, Debug, PartialEq, Eq)]
pub struct ContentDomain(pub String);

/// `DEK-Info` header field.
#[derive(Clone, Debug, PartialEq, Eq)]
pub struct DEKInfo {
    pub algorithm: String,
    pub parameter: Vec<u8>,
}

/// The standard PEM header fields; a block without `Proc-Type` renders as nothing.
#[derive(Clone, Debug, PartialEq, Eq)]
pub struct PemHeader {
    pub proc_type: Option<ProcType>,
    pub content_domain: Option<ContentDomain>,
    pub dek_info: Option<DEKInfo>,
}

/// A certificate, as the bytes its base64 text encodes.
#[derive(Clone, Debug, PartialEq, Eq)]
pub struct Certificate(pub Vec<u8>);

/// A certificate revocation list, as the bytes its base64 text encodes.
#[derive(Clone, Debug, PartialEq, Eq)]
pub struct CRL(pub Vec<u8>);

/// The fields of one recipient.
#[derive(Clone, Debug, PartialEq, Eq)]
pub enum Recipient {
    Asymmetric {
        /// `Recipient-ID-Asymmetric` field
        originator_id: AsymmetricID,
        /// The `Key-Info` field that follows
        key_info: KeyInfoAsymmetric,
    },
    Symmetric {
        /// `Recipient-ID-Symmetric` field
        originator_id: SymmetricID,
        /// The `Key-Info` field that follows
        key_info: KeyInfoSymmetric,
    },
}

/// The fields of the originator.
#[derive(Clone, Debug, PartialEq, Eq)]
pub enum Originator {
    Asymmetric {
        originator_id: AsymmetricOriginator,
        /// The `Key-Info` field that follows, if any
        key_info: Option<KeyInfoAsymmetric>,
        /// Zero or more `Issuer-Certificate` fields
        issuer_certificate: Vec<Certificate>,
        /// `MIC-Info` field
        mic_info: MICInfo,
    },
    Symmetric {
        /// `Originator-ID-Symmetric` field
        originator_id: SymmetricID,
        /// The `Key-Info` field that follows, if any
        key_info: Option<KeyInfoSymmetric>,
    },
}

/// An asymmetric originator, by ID or by certificate.
#[derive(Clone, Debug, PartialEq, Eq)]
pub enum AsymmetricOriginator {
    /// `Originator-ID-Asymmetric` field
    ID(AsymmetricID),
    /// `Originator-Certificate` field
    Cert(Certificate),
}

/// `Key-Info` field, asymmetric case.
#[derive(Clone, Debug, PartialEq, Eq)]
pub struct KeyInfoAsymmetric {
    pub algorithm: String,
    /// Data-encrypting key, from base64
    pub dek: Vec<u8>,
}

/// `Key-Info` field, symmetric case.
#[derive(Clone, Debug, PartialEq, Eq)]
pub struct KeyInfoSymmetric {
    pub algorithm: String,
    pub mic_algorithm: String,
    /// Data-encrypting key, from hexadecimal
    pub dek: Vec<u8>,
    /// Integrity check, from hexadecimal
    pub mic: Vec<u8>,
}

/// Identity in the asymmetric case: issuer name and serial number.
#[derive(Clone, Debug, PartialEq, Eq)]
pub struct AsymmetricID(pub String, pub String);

/// Identity in the symmetric case: entity, issuing authority, version.
#[derive(Clone, Debug, PartialEq, Eq)]
pub struct SymmetricID(pub String, pub String, pub String);

/// `MIC-Info` field.
#[derive(Clone, Debug, PartialEq, Eq)]
pub struct MICInfo {
    pub algorithm: String,
    pub ik_algorithm: String,
    /// Signature, from base64
    pub signature: Vec<u8>,
}

pub struct DekModel {
    pub algorithm: Seq<char>,
    pub parameter: Seq<u8>,
}

pub struct HeaderModel {
    pub proc_type: Option<ProcType>,
    pub content_domain: Option<Seq<char>>,
    pub dek_info: Option<DekModel>,
}

impl View for DEKInfo {
    type V = DekModel;

    open spec fn view(&self) -> DekModel {
        DekModel { algorithm: self.algorithm@, parameter: self.parameter@ }
    }
}

impl View for PemHeader {
    type V = HeaderModel;

    open spec fn view(&self) -> HeaderModel {
        HeaderModel {
            proc_type: self.proc_type,
            content_domain: match self.content_domain {
                Some(d) => Some(d.0@),
                None => None,
            },
            dek_info: match self.dek_info {
                Some(d) => Some(d@),
                None => None,
            },
        }
    }
}

pub open spec fn empty_header() -> HeaderModel {
    HeaderModel { proc_type: None, content_domain: None, dek_info: None }
}

impl Default for PemHeader {
    fn default() -> (r: Self)
        ensures
            r@ == empty_header(),
    {
        PemHeader { proc_type: None, content_domain: None, dek_info: None }
    }
}

// ---------------------------------------------------------------- rendering

pub open spec fn specifier_text(s: ProcTypeSpecifier) -> Seq<char> {
    match s {
        ProcTypeSpecifier::ENCRYPTED => "ENCRYPTED"@,
        ProcTypeSpecifier::MIC_ONLY => "MIC-ONLY"@,
        ProcTypeSpecifier::MIC_CLEAR => "MIC-CLEAR"@,
        ProcTypeSpecifier::CRL => "CRL"@,
    }
}

/// The specifier that a token names, if any.
pub open spec fn specifier_of(t: Seq<char>) -> Option<ProcTypeSpecifier> {
    if t == "ENCRYPTED"@ {
        Some(ProcTypeSpecifier::ENCRYPTED)
    } else if t == "MIC-ONLY"@ {
        Some(ProcTypeSpecifier::MIC_ONLY)
    } else if t == "MIC-CLEAR"@ {
        Some(ProcTypeSpecifier::MIC_CLEAR)
    } else if t == "CRL"@ {
        Some(ProcTypeSpecifier::CRL)
    } else {
        None
    }
}

/// One header line: `<name>: <value>`.
pub open spec fn field_line(name: Seq<char>, value: Seq<char>) -> Seq<char> {
    name + ": "@ + value
}

pub open spec fn proc_type_value(p: ProcType) -> Seq<char> {
    decimal(p.0 as nat) + ","@ + specifier_text(p.1)
}

/// `<algorithm>` alone when the parameter is empty, else `<algorithm>,<HEX>`.
pub open spec fn dek_value(d: DekModel) -> Seq<char> {
    if d.parameter.len() == 0 {
        d.algorithm
    } else {
        d.algorithm + ","@ + hex_upper(d.parameter)
    }
}

/// The lines of a header block: `Proc-Type`, then `Content-Domain` and
/// `DEK-Info` where present; none at all without `Proc-Type`.
pub open spec fn header_lines(h: HeaderModel) -> Seq<Seq<char>> {
    match h.proc_type {
        None => Seq::empty(),
        Some(p) => seq![field_line("Proc-Type"@, proc_type_value(p))] + match h.content_domain {
            Some(d) => seq![field_line("Content-Domain"@, d)],
            None => Seq::empty(),
        } + match h.dek_info {
            Some(d) => seq![field_line("DEK-Info"@, dek_value(d))],
            None => Seq::empty(),
        },
    }
}

/// Lines, each followed by `'\n'`.
pub open spec fn terminated(ls: Seq<Seq<char>>) -> Seq<char>
    decreases ls.len(),
{
    if ls.len() == 0 {
        Seq::empty()
    } else {
        terminated(ls.drop_last()) + ls.last().push('\n')
    }
}

/// The canonical text of a header block.
pub open spec fn header_text(h: HeaderModel) -> Seq<char> {
    terminated(header_lines(h))
}

/// A header block without `Proc-Type` renders as no text at all, whatever
/// other fields it holds.
pub proof fn lemma_header_gating(h: HeaderModel)
    requires
        h.proc_type is None,
    ensures
        header_lines(h).len() == 0,
        header_text(h) == Seq::<char>::empty(),
{
}

impl ProcTypeSpecifier {
    /// The token of this specifier.
    pub fn as_str(&self) -> (r: &'static str)
        ensures
            r@ == specifier_text(*self),
    {
        match self {
            ProcTypeSpecifier::ENCRYPTED => "ENCRYPTED",
            ProcTypeSpecifier::MIC_ONLY => "MIC-ONLY",
            ProcTypeSpecifier::MIC_CLEAR => "MIC-CLEAR",
            ProcTypeSpecifier::CRL => "CRL",
        }
    }

    /// The specifier that `t` names, if any.
    pub fn from_token(t: &Vec<char>) -> (r: Option<ProcTypeSpecifier>)
        ensures
            r == specifier_of(t@),
    {
        if equals_str(t, "ENCRYPTED") {
            Some(ProcTypeSpecifier::ENCRYPTED)
        } else if equals_str(t, "MIC-ONLY") {
            Some(ProcTypeSpecifier::MIC_ONLY)
        } else if equals_str(t, "MIC-CLEAR") {
            Some(ProcTypeSpecifier::MIC_CLEAR)
        } else if equals_str(t, "CRL") {
            Some(ProcTypeSpecifier::CRL)
        } else {
            None
        }
    }
}

impl ProcType {
    /// The header line of this field, without line break.
    pub fn line(&self) -> (r: Vec<char>)
        ensures
            r@ == field_line("Proc-Type"@, proc_type_value(*self)),
    {
        let mut r: Vec<char> = Vec::new();
        push_str(&mut r, "Proc-Type");
        push_str(&mut r, ": ");
        push_decimal(&mut r, self.0);
        push_str(&mut r, ",");
        push_str(&mut r, self.1.as_str());
        assert(r@ =~= field_line("Proc-Type"@, proc_type_value(*self)));
        r
    }
}

impl ContentDomain {
    /// The header line of this field, without line break.
    pub fn line(&self) -> (r: Vec<char>)
        ensures
            r@ == field_line("Content-Domain"@, self.0@),
    {
        let mut r: Vec<char> = Vec::new();
        push_str(&mut r, "Content-Domain");
        push_str(&mut r, ": ");
        push_str(&mut r, self.0.as_str());
        assert(r@ =~= field_line("Content-Domain"@, self.0@));
        r
    }
}

impl DEKInfo {
    /// The header line of this field, without line break.
    pub fn line(&self) -> (r: Vec<char>)
        ensures
            r@ == field_line("DEK-Info"@, dek_value(self@)),
    {
        let mut r: Vec<char> = Vec::new();
        push_str(&mut r, "DEK-Info");
        push_str(&mut r, ": ");
        push_str(&mut r, self.algorithm.as_str());
        if self.parameter.len() > 0 {
            push_str(&mut r, ",");
            let hex = encode_hex_upper(&self.parameter);
            push_range(&mut r, &hex, 0, hex.len());
            assert(hex@.subrange(0, hex@.len() as int) =~= hex@);
        }
        assert(r@ =~= field_line("DEK-Info"@, dek_value(self@)));
        r
    }
}

impl PemHeader {
    /// Whether the block renders as nothing, which is when `Proc-Type` is absent.
    pub fn is_empty(&self) -> (r: bool)
        ensures
            r == (self.proc_type is None),
            r ==> header_lines(self@).len() == 0,
    {
        self.proc_type.is_none()
    }

    /// The lines of the block, without line breaks.
    pub fn lines(&self) -> (r: Vec<Vec<char>>)
        ensures
            views(r@) == header_lines(self@),
    {
        let mut r: Vec<Vec<char>> = Vec::new();
        match self.proc_type {
            None => {},
            Some(p) => {
                r.push(p.line());
                match &self.content_domain {
                    Some(d) => r.push(d.line()),
                    None => {},
                }
                match &self.dek_info {
                    Some(d) => r.push(d.line()),
                    None => {},
                }
            },
        }
        assert(views(r@) =~= header_lines(self@));
        r
    }

    /// The canonical text of the block: each line followed by `'\n'`.
    pub fn render(&self) -> (r: String)
        ensures
            r@ == header_text(self@),
    {
        let ls = self.lines();
        let mut out: Vec<char> = Vec::new();
        let mut k: usize = 0;
        while k < ls.len()
            invariant
                k <= ls.len(),
                out@ == terminated(views(ls@).take(k as int)),
            decreases ls.len() - k,
        {
            assert(views(ls@).take(k + 1).drop_last() =~= views(ls@).take(k as int));
            let line = &ls[k];
            push_range(&mut out, line, 0, line.len());
            out.push('\n');
            assert(line@.subrange(0, line@.len() as int) =~= line@);
            assert(out@ =~= terminated(views(ls@).take(k + 1)));
            k = k + 1;
        }
        assert(views(ls@).take(ls.len() as int) =~= views(ls@));
        string_of(&out)
    }
}

// ------------------------------------------------------------------ parsing

/// One logical header field: the line it starts on, its name, the column at
/// which its value starts, how much of the value stands on that first line,
/// and the unfolded value.
pub struct RawEntry {
    pub line: int,
    pub name: Seq<char>,
    pub vcol: int,
    pub first_len: int,
    pub value: Seq<char>,
}

pub struct Entry {
    pub line: usize,
    pub name: Vec<char>,
    pub vcol: usize,
    pub first_len: usize,
    pub value: Vec<char>,
}

impl View for Entry {
    type V = RawEntry;

    open spec fn view(&self) -> RawEntry {
        RawEntry {
            line: self.line as int,
            name: self.name@,
            vcol: self.vcol as int,
            first_len: self.first_len as int,
            value: self.value@,
        }
    }
}

pub open spec fn entry_views(es: Seq<Entry>) -> Seq<RawEntry> {
    es.map_values(|e: Entry| e@)
}

pub open spec fn entry_wf(ls: Seq<Seq<char>>, e: RawEntry) -> bool {
    &&& 0 <= e.line < ls.len()
    &&& 0 <= e.vcol
    &&& 0 <= e.first_len
    &&& e.vcol + e.first_len == ls[e.line].len()
    &&& e.vcol + e.first_len <= usize::MAX
}

proof fn lemma_entries_err(ls: Seq<Seq<char>>, lo: int, mid: int, hi: int)
    requires
        lo <= mid <= hi,
        entries_in(ls, lo, mid) is Err,
    ensures
        entries_in(ls, lo, hi) == entries_in(ls, lo, mid),
    decreases hi - mid,
{
    if mid < hi {
        lemma_entries_err(ls, lo, mid, hi - 1);
    }
}

proof fn lemma_decode_err(es: Seq<RawEntry>, k: int)
    requires
        0 <= k <= es.len(),
        decode_entries(es.take(k)) is Err,
    ensures
        decode_entries(es) == decode_entries(es.take(k)),
    decreases es.len() - k,
{
    if k < es.len() {
        assert(es.drop_last().take(k) =~= es.take(k));
        lemma_decode_err(es.drop_last(), k);
    } else {
        assert(es.take(k) =~= es);
    }
}

/// Lines `lo..hi` of `ls` grouped into fields: a line that starts with
/// whitespace continues the field before it (trimmed, then appended); any
/// other line is `<name>:<value>`, the value's leading whitespace dropped.
pub open spec fn entries_in(ls: Seq<Seq<char>>, lo: int, hi: int) -> Result<Seq<RawEntry>, ErrAt>
    decreases hi - lo,
{
    if hi <= lo {
        Ok(Seq::empty())
    } else {
        match entries_in(ls, lo, hi - 1) {
            Err(e) => Err(e),
            Ok(es) => {
                let l = ls[hi - 1];
                if l.len() > 0 && is_ws(l[0]) {
                    if es.len() == 0 {
                        Err(ErrAt { kind: ErrorKind::StrayContinuation, line: hi - 1, column: 0 })
                    } else {
                        let last = es.last();
                        Ok(
                            es.update(
                                es.len() - 1,
                                RawEntry {
                                    line: last.line,
                                    name: last.name,
                                    vcol: last.vcol,
                                    first_len: last.first_len,
                                    value: last.value + trim(l),
                                },
                            ),
                        )
                    }
                } else {
                    let c = find_char(l, ':');
                    if c < 0 {
                        Err(ErrAt { kind: ErrorKind::MalformedHeader, line: hi - 1, column: 0 })
                    } else {
                        let v = trim_start(l.skip(c + 1));
                        Ok(
                            es.push(
                                RawEntry {
                                    line: hi - 1,
                                    name: l.take(c),
                                    vcol: l.len() - v.len(),
                                    first_len: v.len() as int,
                                    value: v,
                                },
                            ),
                        )
                    }
                }
            },
        }
    }
}

/// Column of the character after the value's comma at index `c`, where that
/// comma stands on the field's first line; the value's start otherwise.
pub open spec fn after_comma(e: RawEntry, c: int) -> int {
    if c < e.first_len {
        e.vcol + c + 1
    } else {
        e.vcol
    }
}

/// `Proc-Type: <version>,<specifier>`.
pub open spec fn proc_type_of(e: RawEntry) -> Result<ProcType, ErrAt> {
    let c = find_char(e.value, ',');
    if c < 0 {
        Err(ErrAt { kind: ErrorKind::MalformedProcType, line: e.line, column: e.vcol })
    } else {
        match decimal_u32(e.value.take(c)) {
            None => Err(ErrAt { kind: ErrorKind::InvalidVersion, line: e.line, column: e.vcol }),
            Some(n) => match specifier_of(e.value.skip(c + 1)) {
                None => Err(
                    ErrAt {
                        kind: ErrorKind::InvalidSpecifier,
                        line: e.line,
                        column: after_comma(e, c),
                    },
                ),
                Some(s) => Ok(ProcType(n, s)),
            },
        }
    }
}

/// `DEK-Info: <algorithm>[,<hex>]`.
pub open spec fn dek_of(e: RawEntry) -> Result<DekModel, ErrAt> {
    let c = find_char(e.value, ',');
    if c < 0 {
        Ok(DekModel { algorithm: e.value, parameter: Seq::empty() })
    } else {
        match hex_decoded(e.value.skip(c + 1)) {
            None => Err(
                ErrAt { kind: ErrorKind::InvalidHex, line: e.line, column: after_comma(e, c) },
            ),
            Some(p) => Ok(DekModel { algorithm: e.value.take(c), parameter: p }),
        }
    }
}

/// The encryption-control fields that are recognised and skipped.
pub open spec fn is_extension_field(n: Seq<char>) -> bool {
    ||| n == "Originator-ID-Asymmetric"@
    ||| n == "Originator-ID-Symmetric"@
    ||| n == "Originator-Certificate"@
    ||| n == "Recipient-ID-Asymmetric"@
    ||| n == "Recipient-ID-Symmetric"@
    ||| n == "Recipient-Certificate"@
    ||| n == "Issuer-Certificate"@
    ||| n == "Key-Info"@
    ||| n == "MIC-Info"@
}

/// The header block after one more field; `first` marks the block's first field.
pub open spec fn apply_entry(h: HeaderModel, e: RawEntry, first: bool) -> Result<HeaderModel, ErrAt> {
    if e.name == "Proc-Type"@ {
        match proc_type_of(e) {
            Ok(p) => Ok(
                HeaderModel { proc_type: Some(p), content_domain: h.content_domain, dek_info: h.dek_info },
            ),
            Err(x) => Err(x),
        }
    } else if first {
        Err(ErrAt { kind: ErrorKind::MissingProcType, line: e.line, column: 0 })
    } else if e.name == "Content-Domain"@ {
        Ok(HeaderModel { proc_type: h.proc_type, content_domain: Some(e.value), dek_info: h.dek_info })
    } else if e.name == "DEK-Info"@ {
        match dek_of(e) {
            Ok(d) => Ok(
                HeaderModel { proc_type: h.proc_type, content_domain: h.content_domain, dek_info: Some(d) },
            ),
            Err(x) => Err(x),
        }
    } else if is_extension_field(e.name) {
        Ok(h)
    } else {
        Err(ErrAt { kind: ErrorKind::UnknownHeader, line: e.line, column: 0 })
    }
}

/// The fields, in order, applied to an empty header block.
pub open spec fn decode_entries(es: Seq<RawEntry>) -> Result<HeaderModel, ErrAt>
    decreases es.len(),
{
    if es.len() == 0 {
        Ok(empty_header())
    } else {
        match decode_entries(es.drop_last()) {
            Err(e) => Err(e),
            Ok(h) => apply_entry(h, es.last(), es.len() == 1),
        }
    }
}

/// The header block written on lines `lo..hi` of `ls`.
pub open spec fn header_block(ls: Seq<Seq<char>>, lo: int, hi: int) -> Result<HeaderModel, ErrAt> {
    match entries_in(ls, lo, hi) {
        Err(e) => Err(e),
        Ok(es) => decode_entries(es),
    }
}

/// Groups lines `lo..hi` of `ls` into fields.
fn collect_entries(ls: &Vec<Vec<char>>, lo: usize, hi: usize) -> (r: Result<Vec<Entry>, Located>)
    requires
        lo <= hi <= ls.len(),
    ensures
        match r {
            Ok(es) => entries_in(views(ls@), lo as int, hi as int) == Ok::<Seq<RawEntry>, ErrAt>(
                entry_views(es@),
            ) && forall|k: int| 0 <= k < es.len() ==> entry_wf(views(ls@), #[trigger] es@[k]@),
            Err(l) => entries_in(views(ls@), lo as int, hi as int) == Err::<Seq<RawEntry>, ErrAt>(
                l@,
            ) && within(views(ls@), l@) && is_header_kind(l.kind),
        },
{
    let ghost vls = views(ls@);
    let mut es: Vec<Entry> = Vec::new();
    let mut i: usize = lo;
    assert(entry_views(es@) =~= Seq::<RawEntry>::empty());
    while i < hi
        invariant
            lo <= i <= hi <= ls.len(),
            vls == views(ls@),
            entries_in(vls, lo as int, i as int) == Ok::<Seq<RawEntry>, ErrAt>(entry_views(es@)),
            forall|k: int| 0 <= k < es.len() ==> entry_wf(vls, #[trigger] es@[k]@),
        decreases hi - i,
    {
        let l = &ls[i];
        assert(vls[i as int] == l@);
        if l.len() > 0 && is_ws_char(l[0]) {
            if es.len() == 0 {
                proof {
                    lemma_entries_err(vls, lo as int, i + 1, hi as int);
                }
                return Err(Located { kind: ErrorKind::StrayContinuation, line: i, column: 0 });
            }
            let ghost before = es@;
            let mut e = es.pop().unwrap();
            let t = trim_of(l);
            push_range(&mut e.value, &t, 0, t.len());
            assert(t@.subrange(0, t@.len() as int) =~= t@);
            es.push(e);
            proof {
                assert(es@ =~= before.drop_last().push(e));
                assert(entry_views(es@) =~= entry_views(before).update(
                    before.len() - 1,
                    e@,
                ));
                assert forall|k: int| 0 <= k < es.len() implies entry_wf(vls, #[trigger] es@[k]@) by {
                    if k < es.len() - 1 {
                        assert(es@[k] == before[k]);
                    } else {
                        assert(entry_wf(vls, before[k]@));
                    }
                }
            }
        } else {
            match find_char_in(l, ':') {
                None => {
                    proof {
                        lemma_entries_err(vls, lo as int, i + 1, hi as int);
                    }
                    return Err(Located { kind: ErrorKind::MalformedHeader, line: i, column: 0 });
                },
                Some(c) => {
                    let rest = copy_range(l, c + 1, l.len());
                    let a = skip_ws(&rest);
                    let value = copy_range(&rest, a, rest.len());
                    let name = copy_range(l, 0, c);
                    let ghost before = es@;
                    let e = Entry { line: i, name, vcol: c + 1 + a, first_len: rest.len() - a, value };
                    proof {
                        assert(rest@ =~= l@.skip(c + 1));
                        assert(value@ =~= rest@.skip(a as int));
                        assert(name@ =~= l@.take(c as int));
                    }
                    es.push(e);
                    proof {
                        assert(entry_views(es@) =~= entry_views(before).push(e@));
                        assert forall|k: int| 0 <= k < es.len() implies entry_wf(vls, #[trigger] es@[k]@) by {
                            if k < es.len() - 1 {
                                assert(es@[k] == before[k]);
                            }
                        }
                    }
                },
            }
        }
        i = i + 1;
    }
    Ok(es)
}

fn proc_type_from(e: &Entry, ls: Ghost<Seq<Seq<char>>>) -> (r: Result<ProcType, Located>)
    requires
        entry_wf(ls@, e@),
    ensures
        match r {
            Ok(p) => proc_type_of(e@) == Ok::<ProcType, ErrAt>(p),
            Err(l) => proc_type_of(e@) == Err::<ProcType, ErrAt>(l@) && within(ls@, l@) && is_header_kind(l.kind),
        },
{
    match find_char_in(&e.value, ',') {
        None => Err(Located { kind: ErrorKind::MalformedProcType, line: e.line, column: e.vcol }),
        Some(c) => {
            let ver = copy_range(&e.value, 0, c);
            assert(ver@ =~= e.value@.take(c as int));
            match parse_u32(&ver) {
                None => Err(Located { kind: ErrorKind::InvalidVersion, line: e.line, column: e.vcol }),
                Some(n) => {
                    let tok = copy_range(&e.value, c + 1, e.value.len());
                    assert(tok@ =~= e.value@.skip(c + 1));
                    match ProcTypeSpecifier::from_token(&tok) {
                        None => {
                            let column = if c < e.first_len {
                                e.vcol + c + 1
                            } else {
                                e.vcol
                            };
                            Err(Located { kind: ErrorKind::InvalidSpecifier, line: e.line, column })
                        },
                        Some(s) => Ok(ProcType(n, s)),
                    }
                },
            }
        },
    }
}

fn dek_info_from(e: &Entry, ls: Ghost<Seq<Seq<char>>>) -> (r: Result<DEKInfo, Located>)
    requires
        entry_wf(ls@, e@),
    ensures
        match r {
            Ok(d) => dek_of(e@) == Ok::<DekModel, ErrAt>(d@),
            Err(l) => dek_of(e@) == Err::<DekModel, ErrAt>(l@) && within(ls@, l@) && is_header_kind(l.kind),
        },
{
    match find_char_in(&e.value, ',') {
        None => {
            let algorithm = string_of(&e.value);
            let parameter: Vec<u8> = Vec::new();
            let d = DEKInfo { algorithm, parameter };
            assert(d@.parameter =~= Seq::<u8>::empty());
            Ok(d)
        },
        Some(c) => {
            let hex = copy_range(&e.value, c + 1, e.value.len());
            assert(hex@ =~= e.value@.skip(c + 1));
            match decode_hex(&hex) {
                Ok(parameter) => {
                    let alg = copy_range(&e.value, 0, c);
                    assert(alg@ =~= e.value@.take(c as int));
                    Ok(DEKInfo { algorithm: string_of(&alg), parameter })
                },
                Err(_) => {
                    let column = if c < e.first_len {
                        e.vcol + c + 1
                    } else {
                        e.vcol
                    };
                    Err(Located { kind: ErrorKind::InvalidHex, line: e.line, column })
                },
            }
        },
    }
}

fn is_extension_name(n: &Vec<char>) -> (r: bool)
    ensures
        r == is_extension_field(n@),
{
    equals_str(n, "Originator-ID-Asymmetric") || equals_str(n, "Originator-ID-Symmetric")
        || equals_str(n, "Originator-Certificate") || equals_str(n, "Recipient-ID-Asymmetric")
        || equals_str(n, "Recipient-ID-Symmetric") || equals_str(n, "Recipient-Certificate")
        || equals_str(n, "Issuer-Certificate") || equals_str(n, "Key-Info") || equals_str(
        n,
        "MIC-Info",
    )
}

fn apply_field(h: PemHeader, e: &Entry, first: bool, ls: Ghost<Seq<Seq<char>>>) -> (r: Result<
    PemHeader,
    Located,
>)
    requires
        entry_wf(ls@, e@),
    ensures
        match r {
            Ok(x) => apply_entry(h@, e@, first) == Ok::<HeaderModel, ErrAt>(x@),
            Err(l) => apply_entry(h@, e@, first) == Err::<HeaderModel, ErrAt>(l@) && within(ls@, l@) && is_header_kind(l.kind),
        },
{
    if equals_str(&e.name, "Proc-Type") {
        match proc_type_from(e, ls) {
            Ok(p) => Ok(PemHeader { proc_type: Some(p), content_domain: h.content_domain, dek_info: h.dek_info }),
            Err(l) => Err(l),
        }
    } else if first {
        Err(Located { kind: ErrorKind::MissingProcType, line: e.line, column: 0 })
    } else if equals_str(&e.name, "Content-Domain") {
        let d = ContentDomain(string_of(&e.value));
        Ok(PemHeader { proc_type: h.proc_type, content_domain: Some(d), dek_info: h.dek_info })
    } else if equals_str(&e.name, "DEK-Info") {
        match dek_info_from(e, ls) {
            Ok(d) => Ok(PemHeader { proc_type: h.proc_type, content_domain: h.content_domain, dek_info: Some(d) }),
            Err(l) => Err(l),
        }
    } else if is_extension_name(&e.name) {
        Ok(h)
    } else {
        Err(Located { kind: ErrorKind::UnknownHeader, line: e.line, column: 0 })
    }
}

/// Decodes the header block on lines `lo..hi` of `ls`.
pub(crate) fn parse_header_lines(ls: &Vec<Vec<char>>, lo: usize, hi: usize) -> (r: Result<
    PemHeader,
    Located,
>)
    requires
        lo <= hi <= ls.len(),
    ensures
        match r {
            Ok(h) => header_block(views(ls@), lo as int, hi as int) == Ok::<HeaderModel, ErrAt>(h@),
            Err(l) => header_block(views(ls@), lo as int, hi as int) == Err::<HeaderModel, ErrAt>(l@)
                && within(views(ls@), l@) && is_header_kind(l.kind),
        },
{
    let ghost vls = views(ls@);
    let es = match collect_entries(ls, lo, hi) {
        Ok(es) => es,
        Err(l) => return Err(l),
    };
    let ghost ev = entry_views(es@);
    let mut h = PemHeader { proc_type: None, content_domain: None, dek_info: None };
    let mut k: usize = 0;
    assert(ev.take(0) =~= Seq::<RawEntry>::empty());
    while k < es.len()
        invariant
            k <= es.len(),
            vls == views(ls@),
            ev == entry_views(es@),
            entries_in(vls, lo as int, hi as int) == Ok::<Seq<RawEntry>, ErrAt>(ev),
            forall|j: int| 0 <= j < es.len() ==> entry_wf(vls, #[trigger] es@[j]@),
            decode_entries(ev.take(k as int)) == Ok::<HeaderModel, ErrAt>(h@),
        decreases es.len() - k,
    {
        assert(ev.take(k + 1).drop_last() =~= ev.take(k as int));
        assert(ev.take(k + 1).last() == es@[k as int]@);
        assert(entry_wf(vls, es@[k as int]@));
        let ghost h0 = h@;
        assert(decode_entries(ev.take(k + 1)) == apply_entry(h0, es@[k as int]@, k == 0));
        match apply_field(h, &es[k], k == 0, Ghost(vls)) {
            Ok(x) => {
                h = x;
            },
            Err(l) => {
                proof {
                    assert(decode_entries(ev.take(k + 1)) == Err::<HeaderModel, ErrAt>(l@));
                    lemma_decode_err(ev, k + 1);
                    assert(header_block(vls, lo as int, hi as int) == decode_entries(ev));
                }
                return Err(l);
            },
        }
        k = k + 1;
    }
    assert(ev.take(es.len() as int) =~= ev);
    Ok(h)
}

/// Reader of a header block given on its own.
pub struct HeaderParser;

impl HeaderParser {
    /// Decodes the header block at the start of `input`: its lines up to the
    /// first blank line (or the end). Positions count in `input`.
    pub fn parse_str(input: &str) -> (r: Result<PemHeader, Error>)
        ensures
            ({
                let ls = lines_of(input@);
                match header_block(ls, 0, first_from(ls, 0, blank_pred())) {
                    Ok(h) => r matches Ok(x) && x@ == h,
                    Err(a) => r matches Err(Error::HeaderParserError(e)) && placed(e, input@, a),
                }
            }),
    {
        let t = chars_of(input);
        let (ls, starts) = split_lines(&t);
        let hi = first_blank(&ls, 0);
        match parse_header_lines(&ls, 0, hi) {
            Ok(h) => Ok(h),
            Err(l) => Err(Error::HeaderParserError(place(l, &starts, &t))),
        }
    }
}

} // verus!
