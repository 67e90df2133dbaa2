//! Percent-encoding SQL for the body of a `mailto:` link.
use vstd::prelude::*;
use crate::text::{digit_char, push_all, string_push};
use vstd::string::StringSliceAdditionalSpecFns;

verus! {

/// The bytes that stand for themselves: ASCII letters, digits, `-`, `_`, `.`, `~`.
pub open spec fn unreserved(b: u8) -> bool {
    (65 <= b <= 90) || (97 <= b <= 122) || (48 <= b <= 57) || b == 45 || b == 95 || b == 46 || b
        == 126
}

/// The upper-case hexadecimal digit for `d` (below sixteen).
pub open spec fn hex_digit(d: nat) -> char {
    if d < 10 {
        digit_char(d)
    } else {
        ((55 + d) as u8) as char
    }
}

/// What one byte becomes: itself if unreserved, `%0A` for a line feed,
/// nothing for a carriage return, else `%` and two upper-case hex digits.
pub open spec fn encode_byte(b: u8) -> Seq<char> {
    if unreserved(b) {
        seq![b as char]
    } else if b == 10 {
        seq!['%', '0', 'A']
    } else if b == 13 {
        Seq::empty()
    } else {
        seq!['%', hex_digit((b / 16) as nat), hex_digit((b % 16) as nat)]
    }
}

/// The percent-encoding of a byte string, byte by byte.
pub open spec fn percent_encoded(bytes: Seq<u8>) -> Seq<char>
    decreases bytes.len(),
{
    if bytes.len() == 0 {
        Seq::empty()
    } else {
        percent_encoded(bytes.drop_last()) + encode_byte(bytes.last())
    }
}

/// A character that can stand in a percent-encoded text: unreserved, `%`,
/// or an upper-case hex digit.
pub open spec fn uri_safe(c: char) -> bool {
    let n = c as u32;
    (65 <= n <= 90) || (97 <= n <= 122) || (48 <= n <= 57) || n == 45 || n == 95 || n == 46 || n
        == 126 || n == 37
}

/// The upper-case hexadecimal digit for `d`.
fn hex_char(d: u8) -> (c: char)
    requires
        d < 16,
    ensures
        c == hex_digit(d as nat),
{
    if d < 10 {
        (48u8 + d) as char
    } else {
        (55u8 + d) as char
    }
}

/// The UTF-8 bytes of `s` percent-encoded.
pub fn percent_encode(s: &str) -> (r: String)
    ensures
        r@ == percent_encoded(s.spec_bytes()),
{
    let bytes = s.as_bytes();
    let mut out = String::new();
    let mut i: usize = 0;
    while i < bytes.len()
        invariant
            i <= bytes.len(),
            bytes@ == s.spec_bytes(),
            out@ == percent_encoded(bytes@.take(i as int)),
        decreases bytes.len() - i,
    {
        let b = bytes[i];
        assert(bytes@.take(i + 1).drop_last() =~= bytes@.take(i as int));
        assert(bytes@.take(i + 1).last() == b);
        let ghost before = out@;
        if (65 <= b && b <= 90) || (97 <= b && b <= 122) || (48 <= b && b <= 57) || b == 45 || b
            == 95 || b == 46 || b == 126 {
            string_push(&mut out, b as char);
        } else if b == 10 {
            string_push(&mut out, '%');
            string_push(&mut out, '0');
            string_push(&mut out, 'A');
        } else if b == 13 {
        } else {
            string_push(&mut out, '%');
            string_push(&mut out, hex_char(b / 16));
            string_push(&mut out, hex_char(b % 16));
        }
        assert(out@ =~= before + encode_byte(b));
        i = i + 1;
    }
    assert(bytes@.take(bytes.len() as int) =~= bytes@);
    out
}

/// The `mailto:` link that opens a mail with subject "SQL Query" and `sql`
/// as its body.
pub open spec fn mailto_link(sql: Seq<u8>) -> Seq<char> {
    "mailto:?subject=SQL%20Query&body="@ + percent_encoded(sql)
}

/// The `mailto:` link for an SQL text.
pub fn mailto_uri(sql: &str) -> (r: String)
    ensures
        r@ == mailto_link(sql.spec_bytes()),
{
    let mut uri = String::new();
    push_all(&mut uri, "mailto:?subject=SQL%20Query&body=");
    let body = percent_encode(sql);
    push_all(&mut uri, body.as_str());
    uri
}

/// Percent-encoding leaves only unreserved characters, `%` and hex digits.
pub proof fn lemma_percent_encoded_safe(bytes: Seq<u8>)
    ensures
        forall|i: int| 0 <= i < percent_encoded(bytes).len() ==> uri_safe(#[trigger] percent_encoded(bytes)[i]),
    decreases bytes.len(),
{
    if bytes.len() > 0 {
        lemma_percent_encoded_safe(bytes.drop_last());
        let a = percent_encoded(bytes.drop_last());
        let e = encode_byte(bytes.last());
        let b = bytes.last();
        assert forall|k: int| 0 <= k < e.len() implies uri_safe(#[trigger] e[k]) by {
            if unreserved(b) {
                assert(e[k] == b as char);
                assert((b as char) as u32 == b);
            } else if b != 10 && b != 13 && k > 0 {
                let d = if k == 1 { (b / 16) as nat } else { (b % 16) as nat };
                assert(d < 16);
                assert(e[k] == hex_digit(d));
                assert(uri_safe(hex_digit(d))) by {
                    if d < 10 {
                        assert(48 <= 48 + d <= 57);
                    } else {
                        assert(65 <= 55 + d <= 70);
                    }
                }
            }
        }
        assert forall|i: int| 0 <= i < percent_encoded(bytes).len() implies uri_safe(#[trigger] percent_encoded(bytes)[i]) by {
            if i < a.len() {
                assert(percent_encoded(bytes)[i] == a[i]);
            } else {
                assert(percent_encoded(bytes)[i] == e[i - a.len()]);
            }
        }
    }
}

/// The value of an upper-case hexadecimal digit.
pub open spec fn hex_value(c: char) -> Option<nat> {
    if '0' <= c && c <= '9' {
        Some(((c as u32) - 48) as nat)
    } else if 'A' <= c && c <= 'F' {
        Some(((c as u32) - 55) as nat)
    } else {
        None
    }
}

/// The characters a URI carries as they are (RFC 3986 "unreserved").
pub open spec fn uri_unreserved(c: char) -> bool {
    ('A' <= c && c <= 'Z') || ('a' <= c && c <= 'z') || ('0' <= c && c <= '9') || c == '-' || c
        == '_' || c == '.' || c == '~'
}

/// Percent-decoding: `%` and two upper-case hex digits stand for one byte,
/// an unreserved character for its own byte; anything else is no valid
/// encoding (`None`).
pub open spec fn percent_decoded(s: Seq<char>) -> Option<Seq<u8>>
    decreases s.len(),
{
    if s.len() == 0 {
        Some(Seq::empty())
    } else if s[0] == '%' {
        if s.len() >= 3 {
            match (hex_value(s[1]), hex_value(s[2])) {
                (Some(h), Some(l)) => match percent_decoded(s.skip(3)) {
                    Some(rest) => Some(seq![(h * 16 + l) as u8] + rest),
                    None => None,
                },
                _ => None,
            }
        } else {
            None
        }
    } else if uri_unreserved(s[0]) {
        match percent_decoded(s.drop_first()) {
            Some(rest) => Some(seq![(s[0] as u32) as u8] + rest),
            None => None,
        }
    } else {
        None
    }
}

/// The bytes without carriage returns.
pub open spec fn without_cr(bytes: Seq<u8>) -> Seq<u8>
    decreases bytes.len(),
{
    if bytes.len() == 0 {
        Seq::empty()
    } else if bytes.last() == 13 {
        without_cr(bytes.drop_last())
    } else {
        without_cr(bytes.drop_last()).push(bytes.last())
    }
}

/// Decoding two valid encodings one after the other decodes each.
proof fn lemma_decode_concat(x: Seq<char>, y: Seq<char>)
    requires
        percent_decoded(x) is Some,
        percent_decoded(y) is Some,
    ensures
        percent_decoded(x + y) == Some(percent_decoded(x)->Some_0 + percent_decoded(y)->Some_0),
    decreases x.len(),
{
    let xy = x + y;
    if x.len() == 0 {
        assert(xy =~= y);
        assert(percent_decoded(x)->Some_0 + percent_decoded(y)->Some_0 =~= percent_decoded(y)->Some_0);
    } else if x[0] == '%' {
        assert(xy[0] == x[0] && xy[1] == x[1] && xy[2] == x[2]);
        assert(xy.skip(3) =~= x.skip(3) + y);
        lemma_decode_concat(x.skip(3), y);
        let h = hex_value(x[1])->Some_0;
        let l = hex_value(x[2])->Some_0;
        assert(seq![(h * 16 + l) as u8] + percent_decoded(x.skip(3))->Some_0 + percent_decoded(y)->Some_0
            =~= seq![(h * 16 + l) as u8] + (percent_decoded(x.skip(3))->Some_0 + percent_decoded(y)->Some_0));
    } else {
        assert(xy[0] == x[0]);
        assert(xy.drop_first() =~= x.drop_first() + y);
        lemma_decode_concat(x.drop_first(), y);
        let b = (x[0] as u32) as u8;
        assert(seq![b] + percent_decoded(x.drop_first())->Some_0 + percent_decoded(y)->Some_0 =~= seq![b]
            + (percent_decoded(x.drop_first())->Some_0 + percent_decoded(y)->Some_0));
    }
}

/// The hex digit of a value below sixteen has that value.
proof fn lemma_hex_value(d: nat)
    requires
        d < 16,
    ensures
        hex_value(hex_digit(d)) == Some(d),
        hex_digit(d) != '%',
{
    if d < 10 {
        assert(((48 + d) as u8) as char as u32 == 48 + d);
    } else {
        assert(((55 + d) as u8) as char as u32 == 55 + d);
    }
}

/// What one byte encodes to decodes back to it; a carriage return to nothing.
proof fn lemma_decode_byte(b: u8)
    ensures
        percent_decoded(encode_byte(b)) == Some(if b == 13 {
            Seq::<u8>::empty()
        } else {
            seq![b]
        }),
{
    let e = encode_byte(b);
    if unreserved(b) {
        assert((b as char) as u32 == b);
        assert(e[0] != '%');
        assert(e.drop_first() =~= Seq::<char>::empty());
        assert(percent_decoded(e.drop_first()) == Some(Seq::<u8>::empty()));
        assert(((e[0] as u32) as u8) == b);
        assert(seq![b] + Seq::<u8>::empty() =~= seq![b]);
    } else if b == 10 {
        assert(e.skip(3) =~= Seq::<char>::empty());
        assert(percent_decoded(e.skip(3)) == Some(Seq::<u8>::empty()));
        assert(hex_value('0') == Some(0nat));
        assert(hex_value('A') == Some(10nat));
        assert(seq![10u8] + Seq::<u8>::empty() =~= seq![b]);
    } else if b == 13 {
    } else {
        let h = (b / 16) as nat;
        let l = (b % 16) as nat;
        lemma_hex_value(h);
        lemma_hex_value(l);
        assert(e.skip(3) =~= Seq::<char>::empty());
        assert(percent_decoded(e.skip(3)) == Some(Seq::<u8>::empty()));
        assert(h * 16 + l == b) by (nonlinear_arith)
            requires
                h == (b / 16) as nat,
                l == (b % 16) as nat,
        ;
        assert(seq![(h * 16 + l) as u8] + Seq::<u8>::empty() =~= seq![b]);
    }
}

/// Percent-decoding the encoding of a byte string gives the bytes back, less
/// their carriage returns: every `%` starts an escape of two hex digits, and
/// every other character is an unreserved byte of the input.
pub proof fn lemma_percent_decode_encoded(bytes: Seq<u8>)
    ensures
        percent_decoded(percent_encoded(bytes)) == Some(without_cr(bytes)),
    decreases bytes.len(),
{
    if bytes.len() > 0 {
        let init = bytes.drop_last();
        let b = bytes.last();
        lemma_percent_decode_encoded(init);
        lemma_decode_byte(b);
        lemma_decode_concat(percent_encoded(init), encode_byte(b));
        if b == 13 {
            assert(without_cr(init) + Seq::<u8>::empty() =~= without_cr(init));
        } else {
            assert(without_cr(init) + seq![b] =~= without_cr(init).push(b));
        }
    } else {
        assert(percent_encoded(bytes) =~= Seq::<char>::empty());
    }
}

} // verus!
