//! Presentation of peers: country flags and client names from peer ids.
use vstd::prelude::*;
use crate::text;
use crate::text::{chars_of, push_char, push_decimal};
use librqbit_core::hash_id::Id20;
use librqbit_core::peer_id::{generate_azereus_style, try_decode_peer_id, AzureusStyleKind as Kind, PeerId};

verus! {

/// `std::char::from_u32`: `Some` exactly for Unicode scalar values (below
/// 0xD800, or 0xE000 through 0x10FFFF), carrying that code point.
#[verifier::external_body]
fn char_from_u32(v: u32) -> (r: Option<char>)
    ensures
        r is Some <==> (v < 0xD800 || (0xE000 <= v <= 0x10FFFF)),
        r matches Some(c) ==> c as u32 == v,
{
    char::from_u32(v)
}

/// ASCII letter.
pub open spec fn is_ascii_letter(b: u8) -> bool {
    (0x41 <= b <= 0x5a) || (0x61 <= b <= 0x7a)
}

/// The regional indicator symbol for an ASCII letter.
pub open spec fn regional_indicator(b: u8) -> u32 {
    let upper = if 0x61 <= b <= 0x7a { b - 0x20 } else { b as int };
    (0x1F1E6 + (upper - 0x41)) as u32
}

/// ISO 3166-1 alpha-2 code as a flag: two regional indicator symbols, one per
/// letter (either case); `None` unless the code is exactly two ASCII letters.
pub open spec fn flag_spec(code: Seq<u8>) -> Option<Seq<u32>> {
    if code.len() == 2 && is_ascii_letter(code[0]) && is_ascii_letter(code[1]) {
        Some(seq![regional_indicator(code[0]), regional_indicator(code[1])])
    } else {
        None
    }
}

/// ISO 3166-1 alpha-2 -> regional indicator pair, which renders as a flag.
pub fn iso_to_flag(code: &str) -> (r: Option<String>)
    ensures
        match (r, flag_spec(vstd::utf8::encode_utf8(code@))) {
            (Some(s), Some(f)) => s@.len() == 2 && s@[0] as u32 == f[0] && s@[1] as u32 == f[1],
            (None, None) => true,
            _ => false,
        },
{
    let c = code.as_bytes();
    if c.len() != 2 || !((0x41 <= c[0] && c[0] <= 0x5a) || (0x61 <= c[0] && c[0] <= 0x7a))
        || !((0x41 <= c[1] && c[1] <= 0x5a) || (0x61 <= c[1] && c[1] <= 0x7a)) {
        return None;
    }
    let u0: u8 = if 0x61 <= c[0] && c[0] <= 0x7a { c[0] - 0x20 } else { c[0] };
    let u1: u8 = if 0x61 <= c[1] && c[1] <= 0x7a { c[1] - 0x20 } else { c[1] };
    let a = match char_from_u32(0x1F1E6 + (u0 - 0x41) as u32) {
        Some(ch) => ch,
        None => { return None; }
    };
    let b = match char_from_u32(0x1F1E6 + (u1 - 0x41) as u32) {
        Some(ch) => ch,
        None => { return None; }
    };
    let mut out = String::new();
    push_char(&mut out, a);
    push_char(&mut out, b);
    Some(out)
}

/// The client families that Azureus-style peer ids name.
#[derive(PartialEq, Eq, Structural, Debug, Clone, Copy)]
pub enum ClientKind {
    Deluge,
    LibTorrent,
    Transmission,
    QBittorrent,
    UTorrent,
    RQBit,
    /// Any other two-byte client code.
    Other(u8, u8),
}

/// The client code at bytes 1 and 2 of an Azureus-style id.
pub open spec fn client_kind(b1: u8, b2: u8) -> ClientKind {
    if b1 == 0x44 && b2 == 0x45 {
        ClientKind::Deluge
    } else if (b1 == 0x6c && b2 == 0x74) || (b1 == 0x4c && b2 == 0x54) {
        ClientKind::LibTorrent
    } else if b1 == 0x54 && b2 == 0x52 {
        ClientKind::Transmission
    } else if b1 == 0x71 && b2 == 0x42 {
        ClientKind::QBittorrent
    } else if b1 == 0x55 && b2 == 0x54 {
        ClientKind::UTorrent
    } else if b1 == 0x72 && b2 == 0x51 {
        ClientKind::RQBit
    } else {
        ClientKind::Other(b1, b2)
    }
}

/// The version digit an id byte stands for, as librqbit-core reads it.
pub open spec fn version_digit(d: u8) -> Option<u8> {
    if 0x30 <= d <= 0x39 {
        Some((d - 0x30) as u8)
    } else if 0x41 <= d <= 0x5a {
        Some((d - 0x30 - 10) as u8)
    } else if 0x61 <= d <= 0x7a {
        Some((d - 0x30 - 10 - 26) as u8)
    } else if d == 0x2e {
        Some(62)
    } else if d == 0x2d {
        Some(63)
    } else {
        None
    }
}

/// An Azureus-style peer id `-XXvvvv-...`: the client code and four version digits.
pub open spec fn azureus_spec(p: Seq<u8>) -> Option<(ClientKind, Seq<u8>)> {
    if p.len() == 20 && p[0] == 0x2d && p[7] == 0x2d && version_digit(p[3]) is Some
        && version_digit(p[4]) is Some && version_digit(p[5]) is Some && version_digit(p[6]) is Some {
        Some((client_kind(p[1], p[2]), seq![
            version_digit(p[3])->0, version_digit(p[4])->0, version_digit(p[5])->0, version_digit(p[6])->0,
        ]))
    } else {
        None
    }
}

/// `librqbit_core::peer_id::try_decode_peer_id` on a 20-byte id. Its source
/// accepts `-`, two client bytes, four version characters (`0-9`, `A-Z`,
/// `a-z`, `.`, `-`) and `-`; the contract restates that reading.
#[verifier::external_body]
fn decode_peer_id(bytes: &Vec<u8>) -> (r: Option<(ClientKind, Vec<u8>)>)
    requires
        bytes@.len() == 20,
    ensures
        match (r, azureus_spec(bytes@)) {
            (Some((k, v)), Some((sk, sv))) => k == sk && v@ == sv,
            (None, None) => true,
            _ => false,
        },
{
    let mut id = [0u8; 20];
    id.copy_from_slice(bytes.as_slice());
    match try_decode_peer_id(Id20::new(id)) {
        Some(PeerId::AzureusStyle(a)) => Some((match a.kind {
            Kind::Deluge => ClientKind::Deluge,
            Kind::LibTorrent => ClientKind::LibTorrent,
            Kind::Transmission => ClientKind::Transmission,
            Kind::QBittorrent => ClientKind::QBittorrent,
            Kind::UTorrent => ClientKind::UTorrent,
            Kind::RQBit => ClientKind::RQBit,
            Kind::Other(o) => ClientKind::Other(o[0], o[1]),
        }, a.version.to_vec())),
        None => None,
    }
}

/// What `String::from_utf8_lossy` makes of `bytes`.
pub uninterp spec fn lossy_text(bytes: Seq<u8>) -> Seq<char>;

/// `String::from_utf8_lossy`: claims only that the result is `lossy_text` of the input.
#[verifier::external_body]
pub(crate) fn utf8_lossy(bytes: &Vec<u8>) -> (r: String)
    ensures
        r@ == lossy_text(bytes@),
{
    String::from_utf8_lossy(bytes.as_slice()).to_string()
}

} // verus!

verus! {

/// Value of an ASCII hex digit of either case.
pub open spec fn hex_digit_value(b: u8) -> Option<u8> {
    if 0x30 <= b <= 0x39 {
        Some((b - 0x30) as u8)
    } else if 0x61 <= b <= 0x66 {
        Some((b - 0x61 + 10) as u8)
    } else if 0x41 <= b <= 0x46 {
        Some((b - 0x41 + 10) as u8)
    } else {
        None
    }
}

/// What `u8::from_str_radix(_, 16)` gives for a two-byte text: two hex
/// digits, or `+` and one hex digit.
pub open spec fn hex_pair(b1: u8, b2: u8) -> Option<u8> {
    if b1 == 0x2b {
        hex_digit_value(b2)
    } else {
        match (hex_digit_value(b1), hex_digit_value(b2)) {
            (Some(x), Some(y)) => Some((x * 16 + y) as u8),
            _ => None,
        }
    }
}

/// The 20 bytes of a peer id written in hex; `None` when the text is shorter
/// than 40 bytes or a pair does not read as a byte.
pub open spec fn peer_id_bytes(h: Seq<u8>) -> Option<Seq<u8>> {
    if h.len() >= 40 && forall|i: int| 0 <= i < 20 ==> (#[trigger] hex_pair(h[2 * i], h[2 * i + 1])) is Some {
        Some(Seq::new(20, |i: int| hex_pair(h[2 * i], h[2 * i + 1])->0))
    } else {
        None
    }
}

/// The display name of a client family.
pub open spec fn kind_name(k: ClientKind) -> Seq<char> {
    match k {
        ClientKind::Deluge => "Deluge"@,
        ClientKind::LibTorrent => "libtorrent"@,
        ClientKind::Transmission => "Transmission"@,
        ClientKind::QBittorrent => "qBittorrent"@,
        ClientKind::UTorrent => "uTorrent"@,
        ClientKind::RQBit => "rqbit"@,
        ClientKind::Other(a, b) => lossy_text(seq![a, b]),
    }
}

/// How many of the first `n` version components are shown: trailing zeros
/// are dropped, but never below two components.
pub open spec fn shown_components(v: Seq<u8>, n: int) -> int
    decreases n,
{
    if n > 2 && v[n - 1] == 0 { shown_components(v, n - 1) } else { n }
}

/// Trailing zero components are padding: a version shows at least two
/// components, no zero after the second, and only zeros are dropped
/// (qBittorrent's 5.2.3.0 reads 5.2.3, 4.6.0.0 reads 4.6).
pub proof fn law_version_drops_padding(v: Seq<u8>, n: int)
    requires
        2 <= n <= v.len(),
    ensures
        2 <= shown_components(v, n) <= n,
        shown_components(v, n) > 2 ==> v[shown_components(v, n) - 1] != 0,
        forall|k: int| shown_components(v, n) <= k < n ==> v[k] == 0,
    decreases n,
{
    if n > 2 && v[n - 1] == 0 {
        law_version_drops_padding(v, n - 1);
    }
}

/// The first `n` components of `v` joined by dots.
pub open spec fn dotted(v: Seq<u8>, n: int) -> Seq<char>
    decreases n,
{
    if n <= 1 {
        text::decimal(v[0] as nat)
    } else {
        dotted(v, n - 1) + seq!['.'] + text::decimal(v[n - 1] as nat)
    }
}

/// Printable ASCII other than space.
pub open spec fn is_ascii_graphic(b: u8) -> bool {
    0x21 <= b <= 0x7e
}

/// ASCII letter or digit.
pub open spec fn is_ascii_alnum(c: char) -> bool {
    ('0' <= c <= '9') || ('A' <= c <= 'Z') || ('a' <= c <= 'z')
}

/// Length of the run of graphic bytes at the start of the first `n` bytes.
pub open spec fn graphic_run(b: Seq<u8>, n: int) -> int
    decreases n,
{
    if n <= 0 {
        0
    } else if graphic_run(b, n - 1) == n - 1 && is_ascii_graphic(b[n - 1]) {
        n
    } else {
        graphic_run(b, n - 1)
    }
}

/// Number of ASCII letters and digits in `cs`.
pub open spec fn alnum_count(cs: Seq<char>) -> nat
    decreases cs.len(),
{
    if cs.len() == 0 {
        0
    } else {
        alnum_count(cs.drop_last()) + if is_ascii_alnum(cs.last()) { 1nat } else { 0nat }
    }
}

/// The printable prefix of an id's first eight bytes, as characters.
pub open spec fn printable_prefix(b: Seq<u8>) -> Seq<char> {
    Seq::new(graphic_run(b, 8) as nat, |i: int| b[i] as char)
}

/// The client name for a hex peer id: `-` when there is none or it is not 20
/// bytes of hex; for an Azureus-style id the client family and its version
/// (trailing zero components dropped down to two); otherwise the printable
/// prefix when it holds at least four letters or digits, else `Unknown`.
pub open spec fn client_name_spec(hex: Option<Seq<char>>) -> Seq<char> {
    match hex {
        None => "-"@,
        Some(h) => match peer_id_bytes(vstd::utf8::encode_utf8(h)) {
            None => "-"@,
            Some(b) => match azureus_spec(b) {
                Some((kind, v)) => kind_name(kind) + seq![' '] + dotted(v, shown_components(v, 4)),
                None => if alnum_count(printable_prefix(b)) >= 4 {
                    printable_prefix(b)
                } else {
                    "Unknown"@
                },
            },
        },
    }
}

fn hex_value(b: u8) -> (r: Option<u8>)
    ensures
        r == hex_digit_value(b),
{
    if 0x30 <= b && b <= 0x39 {
        Some(b - 0x30)
    } else if 0x61 <= b && b <= 0x66 {
        Some(b - 0x61 + 10)
    } else if 0x41 <= b && b <= 0x46 {
        Some(b - 0x41 + 10)
    } else {
        None
    }
}

fn pair_value(b1: u8, b2: u8) -> (r: Option<u8>)
    ensures
        r == hex_pair(b1, b2),
{
    if b1 == 0x2b {
        hex_value(b2)
    } else {
        match (hex_value(b1), hex_value(b2)) {
            (Some(x), Some(y)) => Some(x * 16 + y),
            _ => None,
        }
    }
}

fn decode_hex_id(hex: &str) -> (r: Option<Vec<u8>>)
    ensures
        match (r, peer_id_bytes(vstd::utf8::encode_utf8(hex@))) {
            (Some(v), Some(b)) => v@ == b,
            (None, None) => true,
            _ => false,
        },
{
    let h = hex.as_bytes();
    let ghost hs = vstd::utf8::encode_utf8(hex@);
    if h.len() < 40 {
        return None;
    }
    let mut out: Vec<u8> = Vec::new();
    let mut i: usize = 0;
    while i < 20
        invariant
            h@ == hs,
            hs == vstd::utf8::encode_utf8(hex@),
            hs.len() >= 40,
            i <= 20,
            out@.len() == i,
            forall|j: int| 0 <= j < i ==> (#[trigger] hex_pair(hs[2 * j], hs[2 * j + 1])) is Some
                && out@[j] == hex_pair(hs[2 * j], hs[2 * j + 1])->0,
        decreases 20 - i,
    {
        match pair_value(h[2 * i], h[2 * i + 1]) {
            Some(v) => { out.push(v); },
            None => {
                assert(hex_pair(hs[2 * (i as int)], hs[2 * (i as int) + 1]) is None);
                assert(peer_id_bytes(hs) is None);
                return None;
            },
        }
        i = i + 1;
    }
    assert(out@ =~= Seq::new(20, |j: int| hex_pair(hs[2 * j], hs[2 * j + 1])->0));
    Some(out)
}

fn push_kind_name(out: &mut String, k: ClientKind)
    ensures
        final(out)@ == old(out)@ + kind_name(k),
{
    match k {
        ClientKind::Deluge => out.append("Deluge"),
        ClientKind::LibTorrent => out.append("libtorrent"),
        ClientKind::Transmission => out.append("Transmission"),
        ClientKind::QBittorrent => out.append("qBittorrent"),
        ClientKind::UTorrent => out.append("uTorrent"),
        ClientKind::RQBit => out.append("rqbit"),
        ClientKind::Other(a, b) => {
            let mut code: Vec<u8> = Vec::new();
            code.push(a);
            code.push(b);
            assert(code@ =~= seq![a, b]);
            let name = utf8_lossy(&code);
            out.append(name.as_str());
        },
    }
}

fn push_version(out: &mut String, v: &Vec<u8>)
    requires
        v@.len() == 4,
    ensures
        final(out)@ == old(out)@ + dotted(v@, shown_components(v@, 4)),
{
    let mut n: usize = 4;
    while n > 2 && v[n - 1] == 0
        invariant
            2 <= n <= 4,
            v@.len() == 4,
            shown_components(v@, 4) == shown_components(v@, n as int),
        decreases n,
    {
        n = n - 1;
    }
    let ghost start = out@;
    push_decimal(out, v[0] as u128);
    let mut i: usize = 1;
    while i < n
        invariant
            1 <= i <= n <= 4,
            v@.len() == 4,
            out@ == start + dotted(v@, i as int),
        decreases n - i,
    {
        push_char(out, '.');
        push_decimal(out, v[i] as u128);
        i = i + 1;
        assert(out@ =~= start + dotted(v@, i as int));
    }
}

/// Turn a hex peer id into something like "qBittorrent 4.6.0.0". Falls back to
/// the printable ASCII prefix, which is what most non-Azureus clients use.
pub fn client_name(peer_id_hex: Option<&String>) -> (r: String)
    ensures
        r@ == client_name_spec(match peer_id_hex { Some(h) => Some(h@), None => None }),
{
    let hex = match peer_id_hex {
        Some(h) => h,
        None => {
            let mut s = String::new();
            s.append("-");
            return s;
        },
    };
    let bytes = match decode_hex_id(hex.as_str()) {
        Some(b) => b,
        None => {
            let mut s = String::new();
            s.append("-");
            return s;
        },
    };
    match decode_peer_id(&bytes) {
        Some((kind, version)) => {
            let mut s = String::new();
            push_kind_name(&mut s, kind);
            push_char(&mut s, ' ');
            push_version(&mut s, &version);
            s
        },
        None => {
            let mut run: usize = 0;
            let mut printable = String::new();
            let mut alnum: usize = 0;
            while run < 8 && 0x21 <= bytes[run] && bytes[run] <= 0x7e
                invariant
                    bytes@.len() == 20,
                    run <= 8,
                    graphic_run(bytes@, run as int) == run,
                    printable@ == Seq::new(run as nat, |i: int| bytes@[i] as char),
                    alnum == alnum_count(printable@),
                    alnum <= run,
                decreases 8 - run,
            {
                let c = bytes[run] as char;
                let is_alnum = ('0' <= c && c <= '9') || ('A' <= c && c <= 'Z') || ('a' <= c && c <= 'z');
                let ghost before = printable@;
                push_char(&mut printable, c);
                assert(printable@.drop_last() =~= before);
                if is_alnum {
                    alnum = alnum + 1;
                }
                run = run + 1;
                assert(printable@ =~= Seq::new(run as nat, |i: int| bytes@[i] as char));
            }
            proof { lemma_graphic_run_stops(bytes@, run as int); }
            if alnum >= 4 {
                printable
            } else {
                let mut s = String::new();
                s.append("Unknown");
                s
            }
        },
    }
}

proof fn lemma_graphic_run_stops(b: Seq<u8>, k: int)
    requires
        0 <= k <= 8,
        b.len() >= 8,
        graphic_run(b, k) == k,
        k == 8 || !is_ascii_graphic(b[k]),
    ensures
        graphic_run(b, 8) == k,
    decreases 8 - k,
{
    if k < 8 {
        lemma_graphic_run_stuck(b, 8, k);
    }
}

proof fn lemma_graphic_run_stuck(b: Seq<u8>, n: int, k: int)
    requires
        0 <= k < n <= 8,
        b.len() >= 8,
        graphic_run(b, k) == k,
        !is_ascii_graphic(b[k]),
    ensures
        graphic_run(b, n) == k,
    decreases n,
{
    if n - 1 > k {
        lemma_graphic_run_stuck(b, n - 1, k);
    }
}

} // verus!

verus! {

/// The two bytes this client announces itself with in its peer id.
pub const CLIENT_CODE: [u8; 2] = [0x71, 0x54];

/// The number a string of decimal digits spells, saturating at 255, read
/// byte by byte from the left.
pub open spec fn parse_u8_spec(b: Seq<u8>) -> u8
    decreases b.len(),
{
    if b.len() == 0 {
        0
    } else {
        let n = parse_u8_spec(b.drop_last());
        let m: int = if n * 10 > 255 { 255 } else { n * 10 };
        if m + (b.last() - 0x30) > 255 { 255 } else { (m + (b.last() - 0x30)) as u8 }
    }
}

/// Reads a version component such as "12"; saturates at 255. Every byte must
/// be at least `'0'`.
pub fn parse_u8(s: &str) -> (r: u8)
    requires
        forall|i: int| 0 <= i < vstd::utf8::encode_utf8(s@).len() ==> #[trigger] vstd::utf8::encode_utf8(s@)[i] >= 0x30,
    ensures
        r == parse_u8_spec(vstd::utf8::encode_utf8(s@)),
{
    let b = s.as_bytes();
    let mut n: u8 = 0;
    let mut i: usize = 0;
    while i < b.len()
        invariant
            b@ == vstd::utf8::encode_utf8(s@),
            forall|j: int| 0 <= j < b@.len() ==> #[trigger] b@[j] >= 0x30,
            i <= b@.len(),
            n == parse_u8_spec(b@.take(i as int)),
        decreases b@.len() - i,
    {
        assert(b@.take(i + 1 as int).drop_last() =~= b@.take(i as int));
        let m: u16 = n as u16 * 10;
        let m8: u8 = if m > 255 { 255 } else { m as u8 };
        let d: u8 = b[i] - 0x30;
        n = if m8 as u16 + d as u16 > 255 { 255 } else { m8 + d };
        i = i + 1;
    }
    assert(b@.take(b@.len() as int) =~= b@);
    n
}

/// The character that stands for a version number below 64 in an
/// Azureus-style peer id.
pub open spec fn version_char(d: u8) -> u8 {
    if d < 10 {
        (0x30 + d) as u8
    } else if d < 36 {
        (0x41 + d - 10) as u8
    } else if d < 62 {
        (0x61 + d - 36) as u8
    } else if d == 62 {
        0x2e
    } else {
        0x2d
    }
}

/// The first eight bytes of an Azureus-style peer id: `-`, the client code,
/// four version characters, `-`.
pub open spec fn azureus_fingerprint(client: [u8; 2], version: (u8, u8, u8, u8)) -> Seq<u8> {
    seq![
        0x2du8,
        client@[0],
        client@[1],
        version_char(version.0),
        version_char(version.1),
        version_char(version.2),
        version_char(version.3),
        0x2du8,
    ]
}

/// `librqbit_core::peer_id::generate_azereus_style`: its source writes the
/// fingerprint above, taking each version character from
/// "0123456789ABCDEFGHIJKLMNOPQRSTUVWXYZabcdefghijklmnopqrstuvwxyz.-", and
/// fills the other twelve bytes at random (nothing is claimed of them). A
/// version number of 64 or more makes it panic.
#[verifier::external_body]
fn azureus_peer_id(client: [u8; 2], version: (u8, u8, u8, u8)) -> (r: Vec<u8>)
    requires
        version.0 < 64,
        version.1 < 64,
        version.2 < 64,
        version.3 < 64,
    ensures
        r@.len() == 20,
        r@.take(8) == azureus_fingerprint(client, version),
{
    generate_azereus_style(client, version).0.to_vec()
}

/// This client's version for its peer id, from the three components of its
/// package version; the fourth is 0.
pub fn client_version(major: &str, minor: &str, patch: &str) -> (r: (u8, u8, u8, u8))
    requires
        forall|i: int| 0 <= i < vstd::utf8::encode_utf8(major@).len() ==> #[trigger] vstd::utf8::encode_utf8(major@)[i] >= 0x30,
        forall|i: int| 0 <= i < vstd::utf8::encode_utf8(minor@).len() ==> #[trigger] vstd::utf8::encode_utf8(minor@)[i] >= 0x30,
        forall|i: int| 0 <= i < vstd::utf8::encode_utf8(patch@).len() ==> #[trigger] vstd::utf8::encode_utf8(patch@)[i] >= 0x30,
    ensures
        r == (
            parse_u8_spec(vstd::utf8::encode_utf8(major@)),
            parse_u8_spec(vstd::utf8::encode_utf8(minor@)),
            parse_u8_spec(vstd::utf8::encode_utf8(patch@)),
            0u8,
        ),
{
    (parse_u8(major), parse_u8(minor), parse_u8(patch), 0)
}

/// A fresh peer id for this client: its fingerprint, then random bytes.
pub fn client_peer_id(version: (u8, u8, u8, u8)) -> (r: Vec<u8>)
    requires
        version.0 < 64,
        version.1 < 64,
        version.2 < 64,
        version.3 < 64,
    ensures
        r@.len() == 20,
        r@.take(8) == azureus_fingerprint(CLIENT_CODE, version),
{
    azureus_peer_id(CLIENT_CODE, version)
}

/// Each known client code names its own client: no two of the known
/// clients share a name.
pub proof fn law_known_clients_named_apart(a: ClientKind, b: ClientKind)
    requires
        !(a is Other),
        !(b is Other),
        a != b,
    ensures
        kind_name(a) != kind_name(b),
{
    reveal_strlit("Deluge");
    reveal_strlit("libtorrent");
    reveal_strlit("Transmission");
    reveal_strlit("qBittorrent");
    reveal_strlit("uTorrent");
    reveal_strlit("rqbit");
    assert("Deluge"@.len() == 6 && "libtorrent"@.len() == 10 && "Transmission"@.len() == 12);
    assert("qBittorrent"@.len() == 11 && "uTorrent"@.len() == 8 && "rqbit"@.len() == 5);
    assert(kind_name(a).len() != kind_name(b).len());
}

/// The client codes name their clients: DE Deluge, lt and LT libtorrent, TR
/// Transmission, qB qBittorrent, UT uTorrent, rQ rqbit.
pub proof fn law_client_codes_named(b1: u8, b2: u8)
    ensures
        b1 == 0x44 && b2 == 0x45 ==> kind_name(client_kind(b1, b2)) == "Deluge"@,
        (b1 == 0x6c && b2 == 0x74) || (b1 == 0x4c && b2 == 0x54) ==> kind_name(client_kind(b1, b2)) == "libtorrent"@,
        b1 == 0x54 && b2 == 0x52 ==> kind_name(client_kind(b1, b2)) == "Transmission"@,
        b1 == 0x71 && b2 == 0x42 ==> kind_name(client_kind(b1, b2)) == "qBittorrent"@,
        b1 == 0x55 && b2 == 0x54 ==> kind_name(client_kind(b1, b2)) == "uTorrent"@,
        b1 == 0x72 && b2 == 0x51 ==> kind_name(client_kind(b1, b2)) == "rqbit"@,
{
}

} // verus!
