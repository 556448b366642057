//! How rendering and decoding fit together: a rendered message decodes back
//! to itself, and decoding depends on the text alone.
use crate::codec::{
    all_plain, base64_strict, base64_text, chunk_end, chunks64, hex_upper, lemma_base64_inverse,
    lemma_base64_text_shape, lemma_chunks64, lemma_hex_inverse, plain_char,
};
use crate::error::ErrAt;
use crate::headers::{
    decode_entries, dek_of, dek_value, empty_header, entries_in, field_line,
    header_block, header_lines, proc_type_of, proc_type_value, specifier_of, specifier_text,
    DekModel, HeaderModel, RawEntry,
};
use crate::parser::{
    begin_label, begin_line, begin_pred, decode_outcome, end_line, end_pred, envelope_of,
    is_begin_line,
};
use crate::text::{
    blank_pred, concat_trimmed, decimal, find_char, has_no_newline, is_blank, is_digit, is_ws,
    lemma_blank_lines_vanish, lemma_decimal_round_trip, lemma_find_char_at, lemma_first_from_at,
    lemma_lines_of_join, lemma_trim_end_at, lemma_trim_plain, lemma_trim_start_at, lines_of,
    starts_with, trim_start,
};
use crate::{pem_lines, pem_text, MessageModel};
use vstd::prelude::*;

verus! {

/// A header value that stays on its line and does not start with whitespace.
pub open spec fn plain_value(v: Seq<char>) -> bool {
    has_no_newline(v) && !(v.len() > 0 && is_ws(v[0]))
}

pub open spec fn no_comma(v: Seq<char>) -> bool {
    forall|i: int| 0 <= i < v.len() ==> #[trigger] v[i] != ','
}

/// The messages whose text decodes back to them: a one-line, non-empty
/// label; `Content-Domain` and `DEK-Info` only beside `Proc-Type`; one-line
/// field values that do not start with whitespace; a `DEK-Info` algorithm
/// without a comma.
pub open spec fn round_trips(m: MessageModel) -> bool {
    &&& m.label.len() > 0
    &&& has_no_newline(m.label)
    &&& m.headers.proc_type is None ==> m.headers.content_domain is None
        && m.headers.dek_info is None
    &&& m.headers.content_domain is Some ==> plain_value(m.headers.content_domain->Some_0)
    &&& m.headers.dek_info is Some ==> plain_value(m.headers.dek_info->Some_0.algorithm) && no_comma(
        m.headers.dek_info->Some_0.algorithm,
    )
}

proof fn lemma_literals()
    ensures
        ": "@ == seq![':', ' '],
        ","@ == seq![','],
        "-----"@ == seq!['-', '-', '-', '-', '-'],
        "-----BEGIN "@ == seq!['-', '-', '-', '-', '-', 'B', 'E', 'G', 'I', 'N', ' '],
        "-----END "@ == seq!['-', '-', '-', '-', '-', 'E', 'N', 'D', ' '],
        "Proc-Type"@ == seq!['P', 'r', 'o', 'c', '-', 'T', 'y', 'p', 'e'],
        "Content-Domain"@ == seq![
            'C',
            'o',
            'n',
            't',
            'e',
            'n',
            't',
            '-',
            'D',
            'o',
            'm',
            'a',
            'i',
            'n',
        ],
        "DEK-Info"@ == seq!['D', 'E', 'K', '-', 'I', 'n', 'f', 'o'],
        "ENCRYPTED"@ == seq!['E', 'N', 'C', 'R', 'Y', 'P', 'T', 'E', 'D'],
        "MIC-ONLY"@ == seq!['M', 'I', 'C', '-', 'O', 'N', 'L', 'Y'],
        "MIC-CLEAR"@ == seq!['M', 'I', 'C', '-', 'C', 'L', 'E', 'A', 'R'],
        "CRL"@ == seq!['C', 'R', 'L'],
{
    reveal_strlit(": ");
    reveal_strlit(",");
    reveal_strlit("-----");
    reveal_strlit("-----BEGIN ");
    reveal_strlit("-----END ");
    reveal_strlit("Proc-Type");
    reveal_strlit("Content-Domain");
    reveal_strlit("DEK-Info");
    reveal_strlit("ENCRYPTED");
    reveal_strlit("MIC-ONLY");
    reveal_strlit("MIC-CLEAR");
    reveal_strlit("CRL");
    assert(": "@ =~= seq![':', ' ']);
    assert(","@ =~= seq![',']);
    assert("-----"@ =~= seq!['-', '-', '-', '-', '-']);
    assert("-----BEGIN "@ =~= seq!['-', '-', '-', '-', '-', 'B', 'E', 'G', 'I', 'N', ' ']);
    assert("-----END "@ =~= seq!['-', '-', '-', '-', '-', 'E', 'N', 'D', ' ']);
    assert("Proc-Type"@ =~= seq!['P', 'r', 'o', 'c', '-', 'T', 'y', 'p', 'e']);
    assert("Content-Domain"@ =~= seq![
        'C',
        'o',
        'n',
        't',
        'e',
        'n',
        't',
        '-',
        'D',
        'o',
        'm',
        'a',
        'i',
        'n',
    ]);
    assert("DEK-Info"@ =~= seq!['D', 'E', 'K', '-', 'I', 'n', 'f', 'o']);
    assert("ENCRYPTED"@ =~= seq!['E', 'N', 'C', 'R', 'Y', 'P', 'T', 'E', 'D']);
    assert("MIC-ONLY"@ =~= seq!['M', 'I', 'C', '-', 'O', 'N', 'L', 'Y']);
    assert("MIC-CLEAR"@ =~= seq!['M', 'I', 'C', '-', 'C', 'L', 'E', 'A', 'R']);
    assert("CRL"@ =~= seq!['C', 'R', 'L']);
}

/// A field name as this library writes them: a letter first, no colon, no
/// line break.
pub open spec fn plain_name(n: Seq<char>) -> bool {
    &&& n.len() > 0
    &&& 'A' <= n[0] <= 'Z'
    &&& forall|i: int| 0 <= i < n.len() ==> #[trigger] n[i] != ':' && n[i] != '\n'
}

proof fn lemma_names_plain()
    ensures
        plain_name("Proc-Type"@),
        plain_name("Content-Domain"@),
        plain_name("DEK-Info"@),
        "Proc-Type"@ != "Content-Domain"@,
        "Proc-Type"@ != "DEK-Info"@,
        "Content-Domain"@ != "DEK-Info"@,
{
    lemma_literals();
    let a = "Proc-Type"@;
    let b = "Content-Domain"@;
    let c = "DEK-Info"@;
    assert(a.len() != b.len() && a.len() != c.len() && b.len() != c.len());
}

/// What a field line looks like to the header grammar.
proof fn lemma_field_line(name: Seq<char>, value: Seq<char>)
    requires
        plain_name(name),
        plain_value(value),
    ensures
        has_no_newline(field_line(name, value)),
        !is_blank(field_line(name, value)),
        !is_ws(field_line(name, value)[0]),
        !starts_with(field_line(name, value), "-----END "@),
        find_char(field_line(name, value), ':') == name.len(),
        field_line(name, value).take(name.len() as int) == name,
        trim_start(field_line(name, value).skip(name.len() as int + 1)) == value,
        field_line(name, value).len() == name.len() + 2 + value.len(),
{
    lemma_literals();
    let f = field_line(name, value);
    let n = name.len() as int;
    assert(f.len() == n + 2 + value.len());
    assert(f[n] == ':');
    assert(f[n + 1] == ' ');
    assert forall|i: int| 0 <= i < f.len() implies #[trigger] f[i] != '\n' by {
        if i < n {
            assert(f[i] == name[i]);
        } else if i >= n + 2 {
            assert(f[i] == value[i - n - 2]);
        }
    }
    assert(f[0] == name[0]);
    assert(!is_blank(f));
    assert forall|i: int| 0 <= i < n implies #[trigger] f[i] != ':' by {
        assert(f[i] == name[i]);
    }
    lemma_find_char_at(f, ':', n);
    assert(f.take(n) =~= name);
    let rest = f.skip(n + 1);
    assert(rest[0] == ' ');
    if value.len() > 0 {
        assert(rest[1] == value[0]);
    }
    lemma_trim_start_at(rest, 1);
    assert(rest.skip(1) =~= value);
    if f.len() >= 9 {
        assert(f.take(9)[0] != "-----END "@[0]);
    }
}

/// The names and values of the header lines of `h`.
pub open spec fn field_names(h: HeaderModel) -> Seq<Seq<char>> {
    seq!["Proc-Type"@] + (if h.content_domain is Some {
        seq!["Content-Domain"@]
    } else {
        Seq::<Seq<char>>::empty()
    }) + (if h.dek_info is Some {
        seq!["DEK-Info"@]
    } else {
        Seq::<Seq<char>>::empty()
    })
}

pub open spec fn field_values(h: HeaderModel) -> Seq<Seq<char>> {
    seq![proc_type_value(h.proc_type->Some_0)] + (if h.content_domain is Some {
        seq![h.content_domain->Some_0]
    } else {
        Seq::<Seq<char>>::empty()
    }) + (if h.dek_info is Some {
        seq![dek_value(h.dek_info->Some_0)]
    } else {
        Seq::<Seq<char>>::empty()
    })
}

proof fn lemma_proc_type_value(p: crate::headers::ProcType)
    ensures
        plain_value(proc_type_value(p)),
        proc_type_of(
            RawEntry {
                line: 0,
                name: "Proc-Type"@,
                vcol: 0,
                first_len: 0,
                value: proc_type_value(p),
            },
        ) == Ok::<crate::headers::ProcType, ErrAt>(p),
{
    lemma_literals();
    lemma_decimal_round_trip(p.0);
    let d = decimal(p.0 as nat);
    let t = specifier_text(p.1);
    let v = proc_type_value(p);
    assert(v == d + seq![','] + t);
    assert forall|i: int| 0 <= i < v.len() implies #[trigger] v[i] != '\n' by {
        if i < d.len() {
            assert(v[i] == d[i]);
            assert(is_digit(d[i]));
        } else if i > d.len() {
            assert(v[i] == t[i - d.len() - 1]);
        }
    }
    assert(v[0] == d[0] && is_digit(d[0]));
    assert forall|i: int| 0 <= i < d.len() implies #[trigger] v[i] != ',' by {
        assert(v[i] == d[i]);
        assert(is_digit(d[i]));
    }
    lemma_find_char_at(v, ',', d.len() as int);
    assert(v.take(d.len() as int) =~= d);
    assert(v.skip(d.len() as int + 1) =~= t);
    assert(specifier_of(t) == Some(p.1));
}

proof fn lemma_dek_value(k: DekModel)
    requires
        plain_value(k.algorithm),
        no_comma(k.algorithm),
    ensures
        plain_value(dek_value(k)),
        dek_of(
            RawEntry { line: 0, name: "DEK-Info"@, vcol: 0, first_len: 0, value: dek_value(k) },
        ) == Ok::<DekModel, ErrAt>(k),
{
    lemma_literals();
    let a = k.algorithm;
    let v = dek_value(k);
    if k.parameter.len() == 0 {
        lemma_find_char_at(a, ',', a.len() as int);
        assert(k.parameter =~= Seq::<u8>::empty());
    } else {
        lemma_hex_inverse(k.parameter);
        let x = hex_upper(k.parameter);
        assert(v == a + seq![','] + x);
        assert forall|i: int| 0 <= i < v.len() implies #[trigger] v[i] != '\n' by {
            if i < a.len() {
                assert(v[i] == a[i]);
            } else if i > a.len() {
                assert(v[i] == x[i - a.len() - 1]);
                assert(plain_char(x[i - a.len() - 1]));
            }
        }
        if a.len() > 0 {
            assert(v[0] == a[0]);
        }
        assert forall|i: int| 0 <= i < a.len() implies #[trigger] v[i] != ',' by {
            assert(v[i] == a[i]);
        }
        lemma_find_char_at(v, ',', a.len() as int);
        assert(v.take(a.len() as int) =~= a);
        assert(v.skip(a.len() as int + 1) =~= x);
    }
}

/// The header lines of `h` are its fields, written one per line.
proof fn lemma_header_fields(h: HeaderModel)
    requires
        h.proc_type is Some,
    ensures
        header_lines(h).len() == field_names(h).len(),
        field_values(h).len() == field_names(h).len(),
        1 <= field_names(h).len() <= 3,
        field_names(h)[0] == "Proc-Type"@,
        forall|j: int|
            0 <= j < header_lines(h).len() ==> #[trigger] header_lines(h)[j] == field_line(
                field_names(h)[j],
                field_values(h)[j],
            ),
{
    let names = field_names(h);
    let values = field_values(h);
    let hl = header_lines(h);
    assert forall|j: int| 0 <= j < hl.len() implies #[trigger] hl[j] == field_line(
        names[j],
        values[j],
    ) by {
        if j == 0 {
        } else if j == 1 {
            if h.content_domain is None {
                assert(names[1] == "DEK-Info"@);
            }
        }
    }
}

/// Field lines `lo..lo + n` give one entry each.
proof fn lemma_entries_of_fields(
    ls: Seq<Seq<char>>,
    lo: int,
    names: Seq<Seq<char>>,
    values: Seq<Seq<char>>,
)
    requires
        0 <= lo,
        lo + names.len() <= ls.len(),
        values.len() == names.len(),
        forall|j: int| 0 <= j < names.len() ==> plain_name(#[trigger] names[j]),
        forall|j: int| 0 <= j < names.len() ==> plain_value(#[trigger] values[j]),
        forall|j: int|
            0 <= j < names.len() ==> #[trigger] ls[lo + j] == field_line(names[j], values[j]),
    ensures
        entries_in(ls, lo, lo + names.len()) == Ok::<Seq<RawEntry>, ErrAt>(
            Seq::new(
                names.len(),
                |j: int|
                    RawEntry {
                        line: lo + j,
                        name: names[j],
                        vcol: names[j].len() as int + 2,
                        first_len: values[j].len() as int,
                        value: values[j],
                    },
            ),
        ),
    decreases names.len(),
{
    let n = names.len() as int;
    if n > 0 {
        let pn = names.drop_last();
        let pv = values.drop_last();
        assert forall|j: int| 0 <= j < pn.len() implies #[trigger] ls[lo + j] == field_line(
            pn[j],
            pv[j],
        ) by {
            assert(ls[lo + j] == field_line(names[j], values[j]));
        }
        assert forall|j: int| 0 <= j < pn.len() implies plain_name(#[trigger] pn[j]) by {
            assert(plain_name(names[j]));
        }
        assert forall|j: int| 0 <= j < pn.len() implies plain_value(#[trigger] pv[j]) by {
            assert(plain_value(values[j]));
        }
        lemma_entries_of_fields(ls, lo, pn, pv);
        assert(plain_name(names[n - 1]));
        assert(plain_value(values[n - 1]));
        assert(ls[lo + n - 1] == field_line(names[n - 1], values[n - 1]));
        lemma_field_line(names[n - 1], values[n - 1]);
        let expected = Seq::new(
            names.len(),
            |j: int|
                RawEntry {
                    line: lo + j,
                    name: names[j],
                    vcol: names[j].len() as int + 2,
                    first_len: values[j].len() as int,
                    value: values[j],
                },
        );
        let before = Seq::new(
            pn.len(),
            |j: int|
                RawEntry {
                    line: lo + j,
                    name: pn[j],
                    vcol: pn[j].len() as int + 2,
                    first_len: pv[j].len() as int,
                    value: pv[j],
                },
        );
        let l = ls[lo + n - 1];
        let c = find_char(l, ':');
        let v = trim_start(l.skip(c + 1));
        assert(v == values[n - 1]);
        assert(before.push(
            RawEntry {
                line: lo + n - 1,
                name: l.take(c),
                vcol: l.len() - v.len(),
                first_len: v.len() as int,
                value: v,
            },
        ) =~= expected);
    } else {
        assert(Seq::new(
            0,
            |j: int|
                RawEntry {
                    line: lo + j,
                    name: names[j],
                    vcol: names[j].len() as int + 2,
                    first_len: values[j].len() as int,
                    value: values[j],
                },
        ) =~= Seq::<RawEntry>::empty());
    }
}

/// The header lines of `h` decode to `h`.
proof fn lemma_header_block(ls: Seq<Seq<char>>, lo: int, h: HeaderModel)
    requires
        0 <= lo,
        lo + header_lines(h).len() <= ls.len(),
        h.proc_type is Some,
        h.content_domain is Some ==> plain_value(h.content_domain->Some_0),
        h.dek_info is Some ==> plain_value(h.dek_info->Some_0.algorithm) && no_comma(
            h.dek_info->Some_0.algorithm,
        ),
        forall|j: int|
            0 <= j < header_lines(h).len() ==> #[trigger] ls[lo + j] == header_lines(h)[j],
    ensures
        header_block(ls, lo, lo + header_lines(h).len()) == Ok::<HeaderModel, ErrAt>(h),
{
    lemma_names_plain();
    lemma_header_fields(h);
    let names = field_names(h);
    let values = field_values(h);
    let p = h.proc_type->Some_0;
    lemma_proc_type_value(p);
    if h.dek_info is Some {
        lemma_dek_value(h.dek_info->Some_0);
    }
    assert forall|j: int| 0 <= j < names.len() implies plain_name(#[trigger] names[j]) by {}
    assert forall|j: int| 0 <= j < names.len() implies plain_value(#[trigger] values[j]) by {}
    assert forall|j: int| 0 <= j < names.len() implies #[trigger] ls[lo + j] == field_line(
        names[j],
        values[j],
    ) by {
        assert(ls[lo + j] == header_lines(h)[j]);
    }
    lemma_entries_of_fields(ls, lo, names, values);
    let es = Seq::new(
        names.len(),
        |j: int|
            RawEntry {
                line: lo + j,
                name: names[j],
                vcol: names[j].len() as int + 2,
                first_len: values[j].len() as int,
                value: values[j],
            },
    );
    assert(proc_type_of(es[0]) == proc_type_of(
        RawEntry { line: 0, name: "Proc-Type"@, vcol: 0, first_len: 0, value: proc_type_value(p) },
    ));
    let h1 = HeaderModel { proc_type: Some(p), content_domain: None, dek_info: None };
    assert(es[0].name == "Proc-Type"@);
    assert(es[0].value == proc_type_value(p));
    assert(proc_type_of(es[0]) == Ok::<crate::headers::ProcType, ErrAt>(p));
    assert(es.take(1).drop_last() =~= Seq::<RawEntry>::empty());
    assert(es.take(1).last() == es[0]);
    assert(decode_entries(es.take(1).drop_last()) == Ok::<HeaderModel, ErrAt>(empty_header()));
    assert(decode_entries(es.take(1)) == Ok::<HeaderModel, ErrAt>(h1));
    if h.content_domain is Some {
        let h2 = HeaderModel {
            proc_type: Some(p),
            content_domain: h.content_domain,
            dek_info: None,
        };
        assert(es.take(2).drop_last() =~= es.take(1));
        assert(decode_entries(es.take(2)) == Ok::<HeaderModel, ErrAt>(h2));
        if h.dek_info is Some {
            let k = h.dek_info->Some_0;
            assert(dek_of(es[2]) == dek_of(
                RawEntry { line: 0, name: "DEK-Info"@, vcol: 0, first_len: 0, value: dek_value(k) },
            ));
            assert(es.take(3).drop_last() =~= es.take(2));
            assert(es.take(3) =~= es);
        } else {
            assert(es.take(2) =~= es);
        }
    } else {
        if h.dek_info is Some {
            let k = h.dek_info->Some_0;
            assert(dek_of(es[1]) == dek_of(
                RawEntry { line: 0, name: "DEK-Info"@, vcol: 0, first_len: 0, value: dek_value(k) },
            ));
            assert(es.take(2).drop_last() =~= es.take(1));
            assert(es.take(2) =~= es);
        } else {
            assert(es.take(1) =~= es);
        }
    }
}

/// The body lines of base64 text, trimmed and run together, give the text back.
pub proof fn lemma_body_lines_rejoin(b: Seq<u8>)
    ensures
        concat_trimmed(
            chunks64(base64_text(b)),
            0,
            chunks64(base64_text(b)).len() as int,
        ) == base64_text(b),
{
    lemma_base64_text_shape(b);
    let cs = chunks64(base64_text(b));
    assert forall|j: int| 0 <= j < cs.len() implies #[trigger] cs[0 + j] == cs[j] by {}
    lemma_concat_chunks(cs, 0, base64_text(b));
}

/// Wrapped lines of plain text, trimmed and run together, give the text back.
proof fn lemma_concat_chunks(ls: Seq<Seq<char>>, lo: int, s: Seq<char>)
    requires
        0 <= lo,
        lo + chunks64(s).len() <= ls.len(),
        all_plain(s),
        forall|j: int| 0 <= j < chunks64(s).len() ==> #[trigger] ls[lo + j] == chunks64(s)[j],
    ensures
        concat_trimmed(ls, lo, lo + chunks64(s).len()) == s,
{
    lemma_chunks64(s);
    let n = chunks64(s).len() as int;
    lemma_concat_chunks_prefix(ls, lo, s, n);
    assert(64 * n >= s.len()) by (nonlinear_arith)
        requires
            n == (s.len() + 63) / 64,
    ;
    assert(s.take(s.len() as int) =~= s);
}

proof fn lemma_concat_chunks_prefix(ls: Seq<Seq<char>>, lo: int, s: Seq<char>, j: int)
    requires
        0 <= lo,
        0 <= j <= chunks64(s).len(),
        lo + chunks64(s).len() <= ls.len(),
        all_plain(s),
        chunks64(s).len() == (s.len() + 63) / 64,
        forall|i: int|
            0 <= i < chunks64(s).len() ==> #[trigger] chunks64(s)[i] == s.subrange(
                64 * i,
                chunk_end(s, i),
            ),
        forall|i: int| 0 <= i < chunks64(s).len() ==> #[trigger] ls[lo + i] == chunks64(s)[i],
    ensures
        concat_trimmed(ls, lo, lo + j) == s.take(if 64 * j < s.len() {
            64 * j
        } else {
            s.len() as int
        }),
    decreases j,
{
    if j > 0 {
        lemma_concat_chunks_prefix(ls, lo, s, j - 1);
        let n = chunks64(s).len() as int;
        let c = chunks64(s)[j - 1];
        assert(ls[lo + j - 1] == c);
        assert(64 * (j - 1) < s.len()) by (nonlinear_arith)
            requires
                0 < j <= n,
                n == (s.len() + 63) / 64,
        ;
        assert(c == s.subrange(64 * (j - 1), chunk_end(s, j - 1)));
        assert forall|i: int| 0 <= i < c.len() implies !is_ws(#[trigger] c[i]) by {
            assert(c[i] == s[64 * (j - 1) + i]);
            assert(plain_char(s[64 * (j - 1) + i]));
        }
        lemma_trim_plain(c);
        assert(s.take(64 * (j - 1)) + c =~= s.take(chunk_end(s, j - 1)));
    } else {
        assert(s.take(0) =~= Seq::<char>::empty());
    }
}

/// Rendering a message and decoding the text gives the message back: the
/// envelope yields its label and header block and, as body, exactly the
/// base64 text of its content, which decodes to that content. With the
/// contracts of `pem_parser` and of `PemMessage::from_str`, decoding
/// `m.render()` either way gives `m`.
#[verifier::rlimit(80)]
pub proof fn lemma_round_trip(m: MessageModel)
    requires
        round_trips(m),
    ensures
        envelope_of(pem_text(m)) is Ok,
        envelope_of(pem_text(m))->Ok_0.label == m.label,
        envelope_of(pem_text(m))->Ok_0.headers == m.headers,
        envelope_of(pem_text(m))->Ok_0.body == base64_text(m.content),
        base64_strict(base64_text(m.content)) == Some(m.content),
{
    lemma_literals();
    lemma_base64_inverse(m.content);
    lemma_base64_text_shape(m.content);
    let text = base64_text(m.content);
    lemma_chunks64(text);
    let h = m.headers;
    let hl = header_lines(h);
    let sep = if h.proc_type is Some {
        seq![Seq::<char>::empty()]
    } else {
        Seq::<Seq<char>>::empty()
    };
    let cs = chunks64(text);
    let ls = pem_lines(m);
    let nh = hl.len() as int;
    let c0 = 1 + nh + sep.len();
    let e = c0 + cs.len();
    assert(ls == seq![begin_line(m.label)] + hl + sep + cs + seq![end_line(m.label)]);
    assert(ls.len() == e + 1);
    assert(ls[0] == begin_line(m.label));
    assert(ls[e] == end_line(m.label));
    assert forall|j: int| 0 <= j < nh implies #[trigger] ls[1 + j] == hl[j] by {}
    assert forall|j: int| 0 <= j < cs.len() implies #[trigger] ls[c0 + j] == cs[j] by {}
    if h.proc_type is Some {
        assert(ls[1 + nh] == Seq::<char>::empty());
        lemma_header_fields(h);
        lemma_names_plain();
        lemma_proc_type_value(h.proc_type->Some_0);
        if h.dek_info is Some {
            lemma_dek_value(h.dek_info->Some_0);
        }
    } else {
        assert(hl.len() == 0);
    }
    // the chunks: plain, non-empty lines
    assert forall|j: int| 0 <= j < cs.len() implies (#[trigger] cs[j]).len() > 0 && all_plain(
        cs[j],
    ) by {
        assert(64 * j < text.len()) by (nonlinear_arith)
            requires
                0 <= j < cs.len(),
                cs.len() == (text.len() + 63) / 64,
        ;
        let c = cs[j];
        assert(c == text.subrange(64 * j, chunk_end(text, j)));
        assert forall|i: int| 0 <= i < c.len() implies plain_char(#[trigger] c[i]) by {
            assert(c[i] == text[64 * j + i]);
        }
    }
    // the delimiter lines
    let b0 = begin_line(m.label);
    let e0 = end_line(m.label);
    assert(b0.last() == '-' && e0.last() == '-');
    lemma_trim_end_at(b0, b0.len() as int);
    lemma_trim_end_at(e0, e0.len() as int);
    assert(b0.take(b0.len() as int) =~= b0);
    assert(e0.take(e0.len() as int) =~= e0);
    assert(b0.take(11) =~= "-----BEGIN "@);
    assert(b0.skip(b0.len() - 5) =~= "-----"@);
    assert(is_begin_line(b0));
    assert(begin_label(b0) =~= m.label);
    assert(e0.take(9) =~= "-----END "@);
    // every line is free of line breaks
    assert forall|k: int| 0 <= k < ls.len() implies has_no_newline(#[trigger] ls[k]) by {
        if k == 0 {
            assert forall|i: int| 0 <= i < b0.len() implies #[trigger] b0[i] != '\n' by {
                if 11 <= i < 11 + m.label.len() {
                    assert(b0[i] == m.label[i - 11]);
                }
            }
        } else if k < 1 + nh {
            lemma_field_line(field_names(h)[k - 1], field_values(h)[k - 1]);
            assert(ls[k] == hl[k - 1]);
        } else if k < c0 {
        } else if k < e {
            assert(ls[k] == cs[k - c0]);
            assert(all_plain(cs[k - c0]));
        } else {
            assert forall|i: int| 0 <= i < e0.len() implies #[trigger] e0[i] != '\n' by {
                if 9 <= i < 9 + m.label.len() {
                    assert(e0[i] == m.label[i - 9]);
                }
            }
        }
    }
    lemma_lines_of_join(ls);
    assert(lines_of(pem_text(m)) == ls);
    // BEGIN is the first line, END the last
    lemma_first_from_at(ls, 0, 0, begin_pred());
    assert forall|k: int| 1 <= k < e implies !(#[trigger] end_pred()(ls[k])) by {
        if k < 1 + nh {
            lemma_field_line(field_names(h)[k - 1], field_values(h)[k - 1]);
            assert(ls[k] == hl[k - 1]);
        } else if k < c0 {
        } else {
            assert(ls[k] == cs[k - c0]);
            assert(plain_char(cs[k - c0][0]));
            if ls[k].len() >= 9 {
                assert(ls[k].take(9)[0] != "-----END "@[0]);
            }
        }
    }
    lemma_first_from_at(ls, 1, e, end_pred());
    assert(end_pred()(ls[e]));
    if h.proc_type is Some {
        lemma_field_line(field_names(h)[0], field_values(h)[0]);
        assert(ls[1] == hl[0]);
        assert forall|k: int| 1 <= k < 1 + nh implies !(#[trigger] blank_pred()(ls[k])) by {
            lemma_field_line(field_names(h)[k - 1], field_values(h)[k - 1]);
            assert(ls[k] == hl[k - 1]);
        }
        lemma_first_from_at(ls, 1, 1 + nh, blank_pred());
        lemma_header_block(ls, 1, h);
        lemma_concat_chunks(ls, c0, text);
    } else {
        if cs.len() > 0 {
            let c = cs[0];
            assert forall|i: int| 0 <= i < c.len() implies #[trigger] c[i] != ':' by {
                assert(plain_char(c[i]));
            }
            lemma_find_char_at(c, ':', c.len() as int);
        }
        lemma_concat_chunks(ls, 1, text);
        assert(h == empty_header());
    }
}

/// A body made of blank lines only, or of no lines, decodes to no bytes.
pub proof fn lemma_blank_body(ls: Seq<Seq<char>>, lo: int, hi: int)
    requires
        0 <= lo,
        hi <= ls.len(),
        forall|k: int| lo <= k < hi ==> is_blank(#[trigger] ls[k]),
    ensures
        concat_trimmed(ls, lo, hi) == Seq::<char>::empty(),
        base64_strict(concat_trimmed(ls, lo, hi)) == Some(Seq::<u8>::empty()),
{
    lemma_blank_lines_vanish(ls, lo, hi);
}

/// Decoding depends on the text alone: equal texts have equal outcomes, and
/// `pem_parser` and `PemMessage::from_str` both return what the outcome says.
pub proof fn lemma_decode_is_pure(t1: Seq<char>, t2: Seq<char>)
    requires
        t1 == t2,
    ensures
        decode_outcome(t1) == decode_outcome(t2),
        lines_of(t1) == lines_of(t2),
{
}

} // verus!
