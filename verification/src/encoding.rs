//! Percent-encoding of URL components.
//!
//! Three encoders share one scheme: the unreserved bytes of RFC 3986
//! (`A-Z a-z 0-9 - _ . ~`) stand for themselves and every other byte of the
//! UTF-8 form becomes `%XX` with upper-case hex digits. The form encoder used
//! for search queries additionally writes a space as `+`.
use vstd::prelude::*;
use crate::text::push_char;

verus! {

/// A byte that a URL component may carry unescaped.
pub open spec fn is_unreserved(b: u8) -> bool {
    (0x41 <= b <= 0x5a) || (0x61 <= b <= 0x7a) || (0x30 <= b <= 0x39)
        || b == 0x2d || b == 0x5f || b == 0x2e || b == 0x7e
}

/// The upper-case hex digit for `n < 16`.
pub open spec fn hex_char(n: u8) -> char {
    if n < 10 { (0x30 + n) as char } else { (0x41 + (n - 10)) as char }
}

/// The value of an upper- or lower-case hex digit.
pub open spec fn hex_value(c: char) -> Option<u8> {
    if '0' <= c <= '9' {
        Some((c as u32 - 0x30) as u8)
    } else if 'A' <= c <= 'F' {
        Some((c as u32 - 0x41 + 10) as u8)
    } else if 'a' <= c <= 'f' {
        Some((c as u32 - 0x61 + 10) as u8)
    } else {
        None
    }
}

/// `%XX` for one byte.
pub open spec fn percent_triplet(b: u8) -> Seq<char> {
    seq!['%', hex_char(b / 16), hex_char(b % 16)]
}

/// How one byte is written in a path or query component.
pub open spec fn escape_byte(b: u8) -> Seq<char> {
    if is_unreserved(b) { seq![b as char] } else { percent_triplet(b) }
}

/// How one byte is written in a form-encoded query: as above, but a space is `+`.
pub open spec fn form_escape_byte(b: u8) -> Seq<char> {
    if b == 0x20 { seq!['+'] } else { escape_byte(b) }
}

/// Percent-encoding of a byte string.
pub open spec fn url_escape(bytes: Seq<u8>) -> Seq<char>
    decreases bytes.len(),
{
    if bytes.len() == 0 {
        Seq::empty()
    } else {
        escape_byte(bytes[0]) + url_escape(bytes.drop_first())
    }
}

/// Form encoding of a byte string.
pub open spec fn form_escape(bytes: Seq<u8>) -> Seq<char>
    decreases bytes.len(),
{
    if bytes.len() == 0 {
        Seq::empty()
    } else {
        form_escape_byte(bytes[0]) + form_escape(bytes.drop_first())
    }
}

/// Decoding of percent-encoded text; `None` where a `%` is not followed by two
/// hex digits or a character is neither unreserved nor `%`. With `plus_is_space`
/// a `+` stands for a space.
pub open spec fn url_unescape(cs: Seq<char>, plus_is_space: bool) -> Option<Seq<u8>>
    decreases cs.len(),
{
    if cs.len() == 0 {
        Some(Seq::empty())
    } else if cs[0] == '%' {
        if cs.len() >= 3 && hex_value(cs[1]) is Some && hex_value(cs[2]) is Some {
            match url_unescape(cs.skip(3), plus_is_space) {
                Some(rest) => Some(
                    seq![(hex_value(cs[1])->0 * 16 + hex_value(cs[2])->0) as u8] + rest,
                ),
                None => None,
            }
        } else {
            None
        }
    } else if plus_is_space && cs[0] == '+' {
        match url_unescape(cs.drop_first(), plus_is_space) {
            Some(rest) => Some(seq![0x20u8] + rest),
            None => None,
        }
    } else if (cs[0] as u32) < 0x80 && is_unreserved(cs[0] as u32 as u8) {
        match url_unescape(cs.drop_first(), plus_is_space) {
            Some(rest) => Some(seq![cs[0] as u32 as u8] + rest),
            None => None,
        }
    } else {
        None
    }
}

/// A character that percent-encoded output may contain.
pub open spec fn is_url_safe_char(c: char) -> bool {
    ('A' <= c <= 'Z') || ('a' <= c <= 'z') || ('0' <= c <= '9') || c == '-' || c == '_'
        || c == '.' || c == '~' || c == '%'
}

proof fn lemma_hex_char(n: u8)
    requires
        n < 16,
    ensures
        hex_value(hex_char(n)) == Some(n),
        ('0' <= hex_char(n) <= '9') || ('A' <= hex_char(n) <= 'F'),
{
}

proof fn lemma_url_escape_append(a: Seq<u8>, b: Seq<u8>)
    ensures
        url_escape(a + b) == url_escape(a) + url_escape(b),
    decreases a.len(),
{
    if a.len() == 0 {
        assert(a + b =~= b);
    } else {
        lemma_url_escape_append(a.drop_first(), b);
        assert((a + b).drop_first() =~= a.drop_first() + b);
        assert(url_escape(a) + url_escape(b) =~= escape_byte(a[0]) + (url_escape(a.drop_first()) + url_escape(b)));
    }
}

proof fn lemma_form_escape_append(a: Seq<u8>, b: Seq<u8>)
    ensures
        form_escape(a + b) == form_escape(a) + form_escape(b),
    decreases a.len(),
{
    if a.len() == 0 {
        assert(a + b =~= b);
    } else {
        lemma_form_escape_append(a.drop_first(), b);
        assert((a + b).drop_first() =~= a.drop_first() + b);
        assert(form_escape(a) + form_escape(b) =~= form_escape_byte(a[0]) + (form_escape(a.drop_first()) + form_escape(b)));
    }
}

proof fn lemma_url_escape_take(bytes: Seq<u8>, i: int)
    requires
        0 <= i < bytes.len(),
    ensures
        url_escape(bytes.take(i + 1)) == url_escape(bytes.take(i)) + escape_byte(bytes[i]),
{
    assert(bytes.take(i + 1) =~= bytes.take(i) + seq![bytes[i]]);
    lemma_url_escape_append(bytes.take(i), seq![bytes[i]]);
    assert(url_escape(seq![bytes[i]]) =~= escape_byte(bytes[i]) + url_escape(seq![bytes[i]].drop_first()));
    assert(seq![bytes[i]].drop_first() =~= Seq::<u8>::empty());
    assert(url_escape(seq![bytes[i]]) =~= escape_byte(bytes[i]));
}

proof fn lemma_form_escape_take(bytes: Seq<u8>, i: int)
    requires
        0 <= i < bytes.len(),
    ensures
        form_escape(bytes.take(i + 1)) == form_escape(bytes.take(i)) + form_escape_byte(bytes[i]),
{
    assert(bytes.take(i + 1) =~= bytes.take(i) + seq![bytes[i]]);
    lemma_form_escape_append(bytes.take(i), seq![bytes[i]]);
    assert(form_escape(seq![bytes[i]]) =~= form_escape_byte(bytes[i]) + form_escape(seq![bytes[i]].drop_first()));
    assert(seq![bytes[i]].drop_first() =~= Seq::<u8>::empty());
    assert(form_escape(seq![bytes[i]]) =~= form_escape_byte(bytes[i]));
}

fn hex_digit(n: u8) -> (c: char)
    requires
        n < 16,
    ensures
        c == hex_char(n),
{
    if n < 10 { (0x30u8 + n) as char } else { (0x41u8 + (n - 10)) as char }
}

fn unreserved(b: u8) -> (r: bool)
    ensures
        r == is_unreserved(b),
{
    (0x41 <= b && b <= 0x5a) || (0x61 <= b && b <= 0x7a) || (0x30 <= b && b <= 0x39)
        || b == 0x2d || b == 0x5f || b == 0x2e || b == 0x7e
}

fn push_escaped(out: &mut String, b: u8, plus_for_space: bool)
    ensures
        final(out)@ == old(out)@ + (if plus_for_space { form_escape_byte(b) } else { escape_byte(b) }),
{
    if plus_for_space && b == 0x20 {
        push_char(out, '+');
    } else if unreserved(b) {
        push_char(out, b as char);
    } else {
        push_char(out, '%');
        push_char(out, hex_digit(b / 16));
        push_char(out, hex_digit(b % 16));
    }
}

fn escape_str(s: &str, plus_for_space: bool) -> (r: String)
    ensures
        r@ == (if plus_for_space { form_escape(vstd::utf8::encode_utf8(s@)) } else { url_escape(vstd::utf8::encode_utf8(s@)) }),
{
    let bytes = s.as_bytes();
    let mut out = String::new();
    let mut i: usize = 0;
    while i < bytes.len()
        invariant
            0 <= i <= bytes@.len(),
            bytes@ == vstd::utf8::encode_utf8(s@),
            out@ == (if plus_for_space { form_escape(bytes@.take(i as int)) } else {
                url_escape(bytes@.take(i as int))
            }),
        decreases bytes@.len() - i,
    {
        proof {
            lemma_url_escape_take(bytes@, i as int);
            lemma_form_escape_take(bytes@, i as int);
        }
        push_escaped(&mut out, bytes[i], plus_for_space);
        i = i + 1;
    }
    assert(bytes@.take(i as int) =~= bytes@);
    out
}

/// Form-encodes search terms for a plugin's `{query}` slot: unreserved bytes
/// stay, a space becomes `+`, every other byte of the UTF-8 form becomes `%XX`.
pub fn encode(s: &str) -> (r: String)
    ensures
        r@ == form_escape(vstd::utf8::encode_utf8(s@)),
{
    escape_str(s, true)
}

/// Percent-encodes a magnet-link parameter (display name or tracker URL).
pub fn urlencode(s: &str) -> (r: String)
    ensures
        r@ == url_escape(vstd::utf8::encode_utf8(s@)),
{
    escape_str(s, false)
}

/// Percent-encodes anything that would break the path segment. The filename is
/// there so players can see an extension and pick a demuxer.
pub fn urlencoding_path(s: &str) -> (r: String)
    ensures
        r@ == url_escape(vstd::utf8::encode_utf8(s@)),
{
    escape_str(s, false)
}

/// Decoding undoes percent-encoding: every byte string comes back unchanged.
pub proof fn law_url_escape_roundtrip(bytes: Seq<u8>)
    ensures
        url_unescape(url_escape(bytes), false) == Some(bytes),
        url_unescape(url_escape(bytes), true) == Some(bytes),
    decreases bytes.len(),
{
    if bytes.len() > 0 {
        let b = bytes[0];
        let rest = bytes.drop_first();
        law_url_escape_roundtrip(rest);
        let e = url_escape(bytes);
        assert(e == escape_byte(b) + url_escape(rest));
        if is_unreserved(b) {
            assert(e.drop_first() =~= url_escape(rest));
            assert(e[0] == b as char);
            assert((b as char) as u32 as u8 == b);
            assert(seq![b] + rest =~= bytes);
        } else {
            lemma_hex_char(b / 16);
            lemma_hex_char(b % 16);
            assert(e.skip(3) =~= url_escape(rest));
            assert(e[0] == '%');
            assert((b / 16) * 16 + b % 16 == b);
            assert(seq![b] + rest =~= bytes);
        }
    }
}

/// Decoding with `+` read as a space undoes the form encoding.
pub proof fn law_form_escape_roundtrip(bytes: Seq<u8>)
    ensures
        url_unescape(form_escape(bytes), true) == Some(bytes),
    decreases bytes.len(),
{
    if bytes.len() > 0 {
        let b = bytes[0];
        let rest = bytes.drop_first();
        law_form_escape_roundtrip(rest);
        let e = form_escape(bytes);
        assert(e == form_escape_byte(b) + form_escape(rest));
        assert(seq![b] + rest =~= bytes);
        if b == 0x20 {
            assert(e.drop_first() =~= form_escape(rest));
        } else if is_unreserved(b) {
            assert(e.drop_first() =~= form_escape(rest));
            assert((b as char) as u32 as u8 == b);
        } else {
            lemma_hex_char(b / 16);
            lemma_hex_char(b % 16);
            assert(e.skip(3) =~= form_escape(rest));
            assert((b / 16) * 16 + b % 16 == b);
        }
    }
}

/// Percent-encoded output holds only unreserved characters, `%` and hex digits.
pub proof fn law_url_escape_alphabet(bytes: Seq<u8>)
    ensures
        forall|i: int| 0 <= i < url_escape(bytes).len() ==> is_url_safe_char(#[trigger] url_escape(bytes)[i]),
    decreases bytes.len(),
{
    if bytes.len() > 0 {
        let b = bytes[0];
        law_url_escape_alphabet(bytes.drop_first());
        lemma_hex_char(b / 16);
        lemma_hex_char(b % 16);
        let e = url_escape(bytes);
        let h = escape_byte(b);
        let t = url_escape(bytes.drop_first());
        assert(e == h + t);
        assert forall|i: int| 0 <= i < e.len() implies is_url_safe_char(#[trigger] e[i]) by {
            if i < h.len() {
                assert(e[i] == h[i]);
            } else {
                assert(e[i] == t[i - h.len()]);
            }
        }
    }
}

} // verus!
