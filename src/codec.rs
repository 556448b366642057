//! The two binary-to-text encodings of PEM: base64 for the body (and its
//! 64-column wrapping) and upper-case hexadecimal for the `DEK-Info` parameter.
use vstd::prelude::*;

verus! {

#[verifier::external_type_specification]
#[verifier::external_body]
pub struct ExDecodeError(base64::DecodeError);

#[verifier::external_type_specification]
#[verifier::external_body]
pub struct ExFromHexError(hex::FromHexError);

/// Symbol `i` (0 to 63) of the standard base64 alphabet.
pub open spec fn b64_symbol(i: int) -> char {
    if i < 26 {
        ((65 + i) as u32) as char
    } else if i < 52 {
        ((97 + i - 26) as u32) as char
    } else if i < 62 {
        ((48 + i - 52) as u32) as char
    } else if i == 62 {
        '+'
    } else {
        '/'
    }
}

/// The 6-bit value of a base64 symbol, or -1 for any other character.
pub open spec fn b64_value(c: char) -> int {
    if 'A' <= c <= 'Z' {
        c as u32 - 65
    } else if 'a' <= c <= 'z' {
        c as u32 - 97 + 26
    } else if '0' <= c <= '9' {
        c as u32 - 48 + 52
    } else if c == '+' {
        62
    } else if c == '/' {
        63
    } else {
        -1
    }
}

/// Standard base64 with `=` padding, in one unbroken run.
pub open spec fn base64_text(b: Seq<u8>) -> Seq<char>
    decreases b.len(),
{
    if b.len() == 0 {
        Seq::empty()
    } else if b.len() == 1 {
        seq![b64_symbol((b[0] as int) / 4), b64_symbol(((b[0] as int) % 4) * 16), '=', '=']
    } else if b.len() == 2 {
        seq![
            b64_symbol((b[0] as int) / 4),
            b64_symbol(((b[0] as int) % 4) * 16 + (b[1] as int) / 16),
            b64_symbol(((b[1] as int) % 16) * 4),
            '=',
        ]
    } else {
        seq![
            b64_symbol((b[0] as int) / 4),
            b64_symbol(((b[0] as int) % 4) * 16 + (b[1] as int) / 16),
            b64_symbol(((b[1] as int) % 16) * 4 + (b[2] as int) / 64),
            b64_symbol((b[2] as int) % 64),
        ] + base64_text(b.skip(3))
    }
}

/// Strictly padded base64: groups of four symbols, the last of which may end
/// in `=` or `==`; bits below the last full byte are ignored.
pub open spec fn base64_strict(s: Seq<char>) -> Option<Seq<u8>>
    decreases s.len(),
{
    if s.len() == 0 {
        Some(Seq::empty())
    } else if s.len() < 4 {
        None
    } else {
        let v0 = b64_value(s[0]);
        let v1 = b64_value(s[1]);
        let v2 = b64_value(s[2]);
        let v3 = b64_value(s[3]);
        if s.len() == 4 && s[2] == '=' && s[3] == '=' {
            if v0 >= 0 && v1 >= 0 {
                Some(seq![(v0 * 4 + v1 / 16) as u8])
            } else {
                None
            }
        } else if s.len() == 4 && s[3] == '=' {
            if v0 >= 0 && v1 >= 0 && v2 >= 0 {
                Some(seq![(v0 * 4 + v1 / 16) as u8, ((v1 % 16) * 16 + v2 / 4) as u8])
            } else {
                None
            }
        } else if v0 >= 0 && v1 >= 0 && v2 >= 0 && v3 >= 0 {
            match base64_strict(s.skip(4)) {
                Some(r) => Some(
                    seq![
                        (v0 * 4 + v1 / 16) as u8,
                        ((v1 % 16) * 16 + v2 / 4) as u8,
                        ((v2 % 4) * 64 + v3) as u8,
                    ] + r,
                ),
                None => None,
            }
        } else {
            None
        }
    }
}

/// The value of a hexadecimal digit of either case, or -1.
pub open spec fn hex_value(c: char) -> int {
    if '0' <= c <= '9' {
        c as u32 - 48
    } else if 'A' <= c <= 'F' {
        c as u32 - 55
    } else if 'a' <= c <= 'f' {
        c as u32 - 87
    } else {
        -1
    }
}

/// Upper-case hexadecimal digit for `d` (0 to 15).
pub open spec fn hex_digit_upper(d: int) -> char {
    if d < 10 {
        ((48 + d) as u32) as char
    } else {
        ((55 + d) as u32) as char
    }
}

/// Two upper-case hexadecimal digits per byte, high nibble first.
pub open spec fn hex_upper(b: Seq<u8>) -> Seq<char>
    decreases b.len(),
{
    if b.len() == 0 {
        Seq::empty()
    } else {
        seq![hex_digit_upper((b[0] as int) / 16), hex_digit_upper((b[0] as int) % 16)] + hex_upper(b.skip(1))
    }
}

/// Hexadecimal text of even length and either case, as bytes.
pub open spec fn hex_decoded(s: Seq<char>) -> Option<Seq<u8>>
    decreases s.len(),
{
    if s.len() == 0 {
        Some(Seq::empty())
    } else if s.len() == 1 {
        None
    } else {
        let h = hex_value(s[0]);
        let l = hex_value(s[1]);
        if h >= 0 && l >= 0 {
            match hex_decoded(s.skip(2)) {
                Some(r) => Some(seq![(h * 16 + l) as u8] + r),
                None => None,
            }
        } else {
            None
        }
    }
}

/// Relies on `base64::encode`: standard alphabet, padded, no line breaks.
#[verifier::external_body]
fn encode_base64(b: &Vec<u8>) -> (r: Vec<char>)
    ensures
        r@ == base64_text(b@),
{
    base64::encode(b).chars().collect()
}

/// What `base64::decode_config` (standard alphabet, trailing bits allowed)
/// makes of a text: its bytes, or `None` for an error.
pub uninterp spec fn base64_decoded(s: Seq<char>) -> Option<Seq<u8>>;

/// A symbol of the standard alphabet, or the padding `=`.
pub open spec fn b64_or_pad(c: char) -> bool {
    b64_value(c) >= 0 || c == '='
}

/// Text that no base64 decoding accepts: a character that is neither a
/// symbol nor padding, or a length that leaves a single 6-bit remainder.
pub open spec fn base64_rejects(s: Seq<char>) -> bool {
    ||| exists|i: int| 0 <= i < s.len() && !b64_or_pad(#[trigger] s[i])
    ||| s.len() % 4 == 1
}

/// Relies on `base64::decode_config` with the standard alphabet and trailing
/// bits allowed: the outcome depends on the text alone; strictly padded
/// base64 decodes to the bytes it encodes; a byte outside the alphabet and
/// `=`, or a length of 1 modulo 4, is an error.
#[verifier::external_body]
pub(crate) fn decode_base64(s: &Vec<char>) -> (r: Result<Vec<u8>, base64::DecodeError>)
    ensures
        r is Ok <==> base64_decoded(s@) is Some,
        r is Ok ==> r->Ok_0@ == base64_decoded(s@)->0,
        base64_strict(s@) is Some ==> (r is Ok && r->Ok_0@ == base64_strict(s@)->0),
        base64_rejects(s@) ==> r is Err,
{
    let text: String = s.iter().collect();
    let config = base64::Config::new(base64::CharacterSet::Standard, true);
    base64::decode_config(text, config.decode_allow_trailing_bits(true))
}

/// Relies on `hex::decode`: even length, digits of either case, else an error.
#[verifier::external_body]
pub(crate) fn decode_hex(s: &Vec<char>) -> (r: Result<Vec<u8>, hex::FromHexError>)
    ensures
        r is Ok <==> hex_decoded(s@) is Some,
        r is Ok ==> r->Ok_0@ == hex_decoded(s@)->0,
{
    let text: String = s.iter().collect();
    hex::decode(text)
}

/// Relies on `hex::encode_upper`: two upper-case digits per byte.
#[verifier::external_body]
pub(crate) fn encode_hex_upper(b: &Vec<u8>) -> (r: Vec<char>)
    ensures
        r@ == hex_upper(b@),
{
    hex::encode_upper(b).chars().collect()
}

/// Relies on `String::from_iter` over chars: the string holds exactly those characters.
#[verifier::external_body]
pub(crate) fn string_of(v: &Vec<char>) -> (r: String)
    ensures
        r@ == v@,
{
    v.iter().collect()
}

/// `s` cut into lines of 64 characters, the last one possibly shorter.
pub open spec fn chunks64(s: Seq<char>) -> Seq<Seq<char>>
    decreases s.len(),
{
    if s.len() == 0 {
        Seq::empty()
    } else if s.len() <= 64 {
        seq![s]
    } else {
        seq![s.take(64)] + chunks64(s.skip(64))
    }
}

/// The body lines of `content`: its base64 text cut into lines of 64 characters.
pub fn base64_lines(content: &Vec<u8>) -> (r: Vec<Vec<char>>)
    ensures
        crate::text::views(r@) == chunks64(base64_text(content@)),
{
    let text = encode_base64(content);
    let mut lines: Vec<Vec<char>> = Vec::new();
    let mut i: usize = 0;
    assert(text@.skip(0) =~= text@);
    assert(crate::text::views(lines@) + chunks64(text@) =~= chunks64(text@));
    while i < text.len()
        invariant
            i <= text.len(),
            chunks64(text@) == crate::text::views(lines@) + chunks64(text@.skip(i as int)),
        decreases text.len() - i,
    {
        let ghost rest = text@.skip(i as int);
        let end = if text.len() - i <= 64 {
            text.len()
        } else {
            i + 64
        };
        let ghost old_lines = lines@;
        lines.push(crate::text::copy_range(&text, i, end));
        proof {
            if text.len() - i <= 64 {
                assert(rest.len() <= 64);
                assert(rest =~= text@.subrange(i as int, end as int));
                assert(text@.skip(end as int) =~= Seq::<char>::empty());
            } else {
                assert(rest.take(64) =~= text@.subrange(i as int, end as int));
                assert(rest.skip(64) =~= text@.skip(end as int));
            }
            assert(crate::text::views(lines@) =~= crate::text::views(old_lines).push(
                text@.subrange(i as int, end as int),
            ));
            assert(chunks64(rest) =~= seq![text@.subrange(i as int, end as int)] + chunks64(
                text@.skip(end as int),
            ));
            assert(crate::text::views(lines@) + chunks64(text@.skip(end as int)) =~= crate::text::views(
                old_lines,
            ) + chunks64(rest));
        }
        i = end;
    }
    assert(text@.skip(i as int) =~= Seq::<char>::empty());
    assert(crate::text::views(lines@) + Seq::<Seq<char>>::empty() =~= crate::text::views(lines@));
    lines
}

/// A character that can stand in a body line without being read as anything
/// else: no delimiter dash, no header colon, no line break, no whitespace.
pub open spec fn plain_char(c: char) -> bool {
    c != '-' && c != ':' && c != ',' && c != '\n' && !crate::text::is_ws(c)
}

pub open spec fn all_plain(s: Seq<char>) -> bool {
    forall|i: int| 0 <= i < s.len() ==> plain_char(#[trigger] s[i])
}

proof fn lemma_b64_symbol(i: int)
    requires
        0 <= i < 64,
    ensures
        b64_value(b64_symbol(i)) == i,
        plain_char(b64_symbol(i)),
        b64_symbol(i) != '=',
{
    if i < 26 {
        assert((b64_symbol(i) as u32) == 65 + i);
    } else if i < 52 {
        assert((b64_symbol(i) as u32) == 97 + i - 26);
    } else if i < 62 {
        assert((b64_symbol(i) as u32) == 48 + i - 52);
    }
}

proof fn lemma_quad(x: int, y: int, z: int)
    requires
        0 <= x < 256,
        0 <= y < 256,
        0 <= z < 256,
    ensures
        0 <= x / 4 < 64,
        0 <= (x % 4) * 16 + y / 16 < 64,
        0 <= (y % 16) * 4 + z / 64 < 64,
        0 <= z % 64 < 64,
        (x / 4) * 4 + ((x % 4) * 16 + y / 16) / 16 == x,
        (((x % 4) * 16 + y / 16) % 16) * 16 + ((y % 16) * 4 + z / 64) / 4 == y,
        (((y % 16) * 4 + z / 64) % 4) * 64 + z % 64 == z,
{
    assert(0 <= x / 4 < 64) by (nonlinear_arith)
        requires
            0 <= x < 256,
    ;
    assert(((x % 4) * 16 + y / 16) / 16 == x % 4 && ((x % 4) * 16 + y / 16) % 16 == y / 16) by (
    nonlinear_arith)
        requires
            0 <= x < 256,
            0 <= y < 256,
    ;
    assert(((y % 16) * 4 + z / 64) / 4 == y % 16 && ((y % 16) * 4 + z / 64) % 4 == z / 64) by (
    nonlinear_arith)
        requires
            0 <= y < 256,
            0 <= z < 256,
    ;
    assert((x / 4) * 4 + x % 4 == x) by (nonlinear_arith);
    assert((y / 16) * 16 + y % 16 == y) by (nonlinear_arith);
    assert((z / 64) * 64 + z % 64 == z) by (nonlinear_arith);
    assert(0 <= (x % 4) * 16 + y / 16 < 64) by (nonlinear_arith)
        requires
            0 <= x < 256,
            0 <= y < 256,
    ;
    assert(0 <= (y % 16) * 4 + z / 64 < 64) by (nonlinear_arith)
        requires
            0 <= y < 256,
            0 <= z < 256,
    ;
}

/// Base64 text is four characters for every three bytes or part of three,
/// all of them symbols or padding.
pub proof fn lemma_base64_text_shape(b: Seq<u8>)
    ensures
        base64_text(b).len() == 4 * ((b.len() + 2) / 3),
        all_plain(base64_text(b)),
    decreases b.len(),
{
    let t = base64_text(b);
    if b.len() == 0 {
    } else {
        let x = b[0] as int;
        let y = if b.len() > 1 {
            b[1] as int
        } else {
            0
        };
        let z = if b.len() > 2 {
            b[2] as int
        } else {
            0
        };
        lemma_quad(x, y, z);
        lemma_b64_symbol(x / 4);
        lemma_b64_symbol((x % 4) * 16 + y / 16);
        lemma_b64_symbol((y % 16) * 4 + z / 64);
        lemma_b64_symbol(z % 64);
        lemma_b64_symbol((x % 4) * 16);
        lemma_b64_symbol((y % 16) * 4);
        assert(0 <= (x % 4) * 16 < 64);
        assert(0 <= (y % 16) * 4 < 64);
        if b.len() > 2 {
            lemma_base64_text_shape(b.skip(3));
            let r = base64_text(b.skip(3));
            assert(t.len() == 4 + r.len());
            assert forall|i: int| 0 <= i < t.len() implies plain_char(#[trigger] t[i]) by {
                if i >= 4 {
                    assert(t[i] == r[i - 4]);
                }
            }
        }
    }
}

/// Strict decoding undoes encoding.
pub proof fn lemma_base64_inverse(b: Seq<u8>)
    ensures
        base64_strict(base64_text(b)) == Some(b),
    decreases b.len(),
{
    let t = base64_text(b);
    if b.len() > 0 {
        let x = b[0] as int;
        let y = if b.len() > 1 {
            b[1] as int
        } else {
            0
        };
        let z = if b.len() > 2 {
            b[2] as int
        } else {
            0
        };
        lemma_quad(x, y, z);
        lemma_b64_symbol(x / 4);
        lemma_b64_symbol((x % 4) * 16 + y / 16);
        lemma_b64_symbol((y % 16) * 4 + z / 64);
        lemma_b64_symbol(z % 64);
        lemma_b64_symbol((x % 4) * 16);
        lemma_b64_symbol((y % 16) * 4);
        assert(((x % 4) * 16) / 16 == x % 4) by (nonlinear_arith)
            requires
                0 <= x < 256,
        ;
        assert(((x % 4) * 16) % 16 == 0) by (nonlinear_arith)
            requires
                0 <= x < 256,
        ;
        assert(((y % 16) * 4) / 4 == y % 16) by (nonlinear_arith)
            requires
                0 <= y < 256,
        ;
        if b.len() == 1 {
            assert(seq![(x / 4 * 4 + ((x % 4) * 16) / 16) as u8] =~= b);
        } else if b.len() == 2 {
            assert(((x % 4) * 16 + y / 16) % 16 == y / 16) by (nonlinear_arith)
                requires
                    0 <= x < 256,
                    0 <= y < 256,
            ;
            assert((y / 16) * 16 + y % 16 == y) by (nonlinear_arith);
            assert(seq![
                (x / 4 * 4 + ((x % 4) * 16 + y / 16) / 16) as u8,
                ((((x % 4) * 16 + y / 16) % 16) * 16 + ((y % 16) * 4) / 4) as u8,
            ] =~= b);
        } else {
            lemma_base64_inverse(b.skip(3));
            lemma_base64_text_shape(b.skip(3));
            let r = base64_text(b.skip(3));
            assert(t.skip(4) =~= r);
            assert(t[3] == b64_symbol(z % 64));
            assert(t.len() > 4 || t[3] != '=');
            assert(seq![b[0], b[1], b[2]] + b.skip(3) =~= b);
        }
    }
}

proof fn lemma_hex_digit(d: int)
    requires
        0 <= d < 16,
    ensures
        hex_value(hex_digit_upper(d)) == d,
        plain_char(hex_digit_upper(d)),
{
    if d < 10 {
        assert((hex_digit_upper(d) as u32) == 48 + d);
    } else {
        assert((hex_digit_upper(d) as u32) == 55 + d);
    }
}

/// Hexadecimal decoding undoes upper-case encoding, and the encoding has
/// only plain characters.
pub proof fn lemma_hex_inverse(b: Seq<u8>)
    ensures
        hex_decoded(hex_upper(b)) == Some(b),
        all_plain(hex_upper(b)),
    decreases b.len(),
{
    if b.len() > 0 {
        let x = b[0] as int;
        assert(0 <= x / 16 < 16 && 0 <= x % 16 < 16 && (x / 16) * 16 + x % 16 == x) by (
        nonlinear_arith)
            requires
                0 <= x < 256,
        ;
        lemma_hex_digit(x / 16);
        lemma_hex_digit(x % 16);
        lemma_hex_inverse(b.skip(1));
        let t = hex_upper(b);
        let r = hex_upper(b.skip(1));
        assert(t.skip(2) =~= r);
        assert(seq![b[0]] + b.skip(1) =~= b);
        assert forall|i: int| 0 <= i < t.len() implies plain_char(#[trigger] t[i]) by {
            if i >= 2 {
                assert(t[i] == r[i - 2]);
            }
        }
    }
}

pub open spec fn chunk_end(s: Seq<char>, i: int) -> int {
    if 64 * i + 64 < s.len() {
        64 * i + 64
    } else {
        s.len() as int
    }
}

/// Line `i` of the wrapped text is the run of characters from `64 * i`.
pub proof fn lemma_chunks64(s: Seq<char>)
    ensures
        chunks64(s).len() == (s.len() + 63) / 64,
        forall|i: int|
            0 <= i < chunks64(s).len() ==> #[trigger] chunks64(s)[i] == s.subrange(
                64 * i,
                chunk_end(s, i),
            ),
    decreases s.len(),
{
    if s.len() > 64 {
        let rest = s.skip(64);
        lemma_chunks64(rest);
        let cs = chunks64(s);
        assert forall|i: int| 0 <= i < cs.len() implies #[trigger] cs[i] == s.subrange(
            64 * i,
            chunk_end(s, i),
        ) by {
            if i == 0 {
                assert(s.take(64) =~= s.subrange(0, 64));
            } else {
                assert(cs[i] == chunks64(rest)[i - 1]);
                assert(chunks64(rest)[i - 1] == rest.subrange(64 * (i - 1), chunk_end(rest, i - 1)));
                assert(rest.subrange(64 * (i - 1), chunk_end(rest, i - 1)) =~= s.subrange(
                    64 * i,
                    chunk_end(s, i),
                ));
            }
        }
    } else if s.len() > 0 {
        assert(s.subrange(0, s.len() as int) =~= s);
    }
}

/// Every line of wrapped text but the last is 64 characters wide; the last
/// one holds the rest, between 1 and 64 characters.
pub proof fn lemma_chunk_widths(s: Seq<char>)
    ensures
        forall|i: int| 0 <= i < chunks64(s).len() - 1 ==> (#[trigger] chunks64(s)[i]).len() == 64,
        s.len() > 0 ==> chunks64(s).len() > 0 && 0 < chunks64(s).last().len() <= 64,
        s.len() % 64 != 0 ==> chunks64(s).last().len() == s.len() % 64,
{
    lemma_chunks64(s);
    let cs = chunks64(s);
    let n = cs.len() as int;
    assert forall|i: int| 0 <= i < n - 1 implies (#[trigger] cs[i]).len() == 64 by {
        assert(64 * i + 64 < s.len()) by (nonlinear_arith)
            requires
                0 <= i < n - 1,
                n == (s.len() + 63) / 64,
        ;
    }
    if s.len() > 0 {
        assert(n > 0);
        assert(64 * (n - 1) < s.len() && s.len() <= 64 * (n - 1) + 64) by (nonlinear_arith)
            requires
                n == (s.len() + 63) / 64,
                s.len() > 0,
        ;
        assert(cs.last() == cs[n - 1]);
        if s.len() % 64 != 0 {
            assert(s.len() - 64 * (n - 1) == s.len() % 64) by (nonlinear_arith)
                requires
                    n == (s.len() + 63) / 64,
                    s.len() > 0,
                    s.len() % 64 != 0,
            ;
        }
    }
}

/// Encoded content whose length is not a multiple of 48 bytes ends in a
/// line shorter than 64 characters, all earlier lines being 64 wide. (A
/// remainder of 46 or 47 bytes encodes to exactly 64 more characters, so
/// those lengths are left out.)
pub proof fn lemma_wrap_width(b: Seq<u8>)
    requires
        b.len() % 48 != 0,
        b.len() % 48 < 46,
    ensures
        chunks64(base64_text(b)).len() > 0,
        chunks64(base64_text(b)).last().len() < 64,
        forall|i: int|
            0 <= i < chunks64(base64_text(b)).len() - 1 ==> (#[trigger] chunks64(
                base64_text(b),
            )[i]).len() == 64,
{
    lemma_base64_text_shape(b);
    let t = base64_text(b);
    let n = b.len() as int;
    assert(t.len() % 64 != 0 && t.len() % 64 < 64 && t.len() > 0) by (nonlinear_arith)
        requires
            t.len() == 4 * ((n + 2) / 3),
            n % 48 != 0,
            n % 48 < 46,
            n > 0,
    ;
    lemma_chunk_widths(t);
}

/// Empty content has no body lines.
pub proof fn lemma_empty_content_has_no_body()
    ensures
        chunks64(base64_text(Seq::<u8>::empty())) == Seq::<Seq<char>>::empty(),
        base64_strict(Seq::empty()) == Some(Seq::<u8>::empty()),
{
}

} // verus!
