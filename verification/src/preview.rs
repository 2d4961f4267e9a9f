//! The loopback preview server's request logic: which file a request path
//! names, how a `Range` header is read and answered, and the URL handed to a
//! media player. Socket handling lives outside the library.
use vstd::prelude::*;
use crate::text::{chars_of, trim_range, find_char_range, parse_u64_range, push_char, push_decimal};
use crate::text;
use crate::encoding;
use crate::encoding::urlencoding_path;

verus! {

/// Where the preview server listens and the secret path prefix it expects.
#[derive(Clone, Debug)]
pub struct PreviewServer {
    pub port: u16,
    pub token: String,
}

/// `"bytes="`.
pub open spec fn bytes_prefix() -> Seq<char> {
    seq!['b', 'y', 't', 'e', 's', '=']
}

/// The meaning of a `Range` header: `bytes=N-` and `bytes=N-M` (with `N <= M`)
/// are understood, anything else is ignored so that the whole file is served.
pub open spec fn range_spec(raw: Seq<char>) -> Option<(u64, Option<u64>)> {
    let t = text::trim(raw);
    if !(t.len() >= 6 && t.take(6) == bytes_prefix()) {
        None
    } else {
        let spec = t.skip(6);
        if text::find_char(spec, ',') is Some {
            None
        } else {
            match text::find_char(spec, '-') {
                None => None,
                Some(k) => match text::parse_u64_spec(text::trim(spec.take(k))) {
                    None => None,
                    Some(start) => {
                        let end = text::trim(spec.skip(k + 1));
                        if end.len() == 0 {
                            Some((start, None))
                        } else {
                            match text::parse_u64_spec(end) {
                                None => None,
                                Some(e) => if e < start { None } else { Some((start, Some(e))) },
                            }
                        }
                    },
                },
            }
        }
    }
}

/// `bytes=N-` and `bytes=N-M`. Anything else is ignored and the whole file is
/// served, which is what a player expects from a 200.
pub fn parse_range(raw: &str) -> (r: Option<(u64, Option<u64>)>)
    ensures
        r == range_spec(raw@),
{
    let cs = chars_of(raw);
    let n = cs.len();
    let (a, b) = trim_range(&cs, 0, n);
    let ghost t = cs@.subrange(a as int, b as int);
    assert(cs@.subrange(0, n as int) =~= raw@);
    if b - a < 6 || cs[a] != 'b' || cs[a + 1] != 'y' || cs[a + 2] != 't' || cs[a + 3] != 'e'
        || cs[a + 4] != 's' || cs[a + 5] != '=' {
        proof {
            if t.len() >= 6 && t.take(6) == bytes_prefix() {
                assert(t.take(6)[0] == 'b' && t.take(6)[1] == 'y' && t.take(6)[2] == 't');
                assert(t.take(6)[3] == 'e' && t.take(6)[4] == 's' && t.take(6)[5] == '=');
            }
        }
        return None;
    }
    assert(t.take(6) =~= bytes_prefix());
    let lo = a + 6;
    let ghost spec = t.skip(6);
    assert(spec =~= cs@.subrange(lo as int, b as int));
    if find_char_range(&cs, lo, b, ',').is_some() {
        return None;
    }
    let dash = match find_char_range(&cs, lo, b, '-') {
        Some(k) => k,
        None => { return None; }
    };
    proof { lemma_find_char_bound(spec, '-'); }
    let (s0, s1) = trim_range(&cs, lo, lo + dash);
    assert(cs@.subrange(lo as int, (lo + dash) as int) =~= spec.take(dash as int));
    let start = match parse_u64_range(&cs, s0, s1) {
        Some(v) => v,
        None => { return None; }
    };
    let (e0, e1) = trim_range(&cs, lo + dash + 1, b);
    assert(cs@.subrange((lo + dash + 1) as int, b as int) =~= spec.skip(dash + 1));
    if e0 == e1 {
        return Some((start, None));
    }
    let end = match parse_u64_range(&cs, e0, e1) {
        Some(v) => v,
        None => { return None; }
    };
    if end < start {
        return None;
    }
    Some((start, Some(end)))
}

proof fn lemma_find_char_bound(cs: Seq<char>, c: char)
    ensures
        text::find_char(cs, c) matches Some(i) ==> 0 <= i < cs.len(),
    decreases cs.len(),
{
    if cs.len() > 0 {
        lemma_find_char_bound(cs.drop_first(), c);
    }
}

/// How a request for a file of `total` bytes is answered.
#[derive(PartialEq, Eq, Structural, Debug, Clone, Copy)]
pub enum RangePlan {
    /// 200 with the whole file.
    Whole { length: u64 },
    /// 206 with bytes `start..=end`.
    Partial { start: u64, end: u64, length: u64 },
    /// 416: the range starts past the end of the file.
    Unsatisfiable,
}

/// The answer to a parsed range against a file of `total` bytes.
pub open spec fn plan_range_spec(range: Option<(u64, Option<u64>)>, total: u64) -> RangePlan {
    match range {
        None => RangePlan::Whole { length: total },
        Some((start, end)) => if start < total {
            let last = match end {
                Some(e) => if e < total - 1 { e } else { (total - 1) as u64 },
                None => (total - 1) as u64,
            };
            RangePlan::Partial { start, end: last, length: (last - start + 1) as u64 }
        } else {
            RangePlan::Unsatisfiable
        },
    }
}

/// A partial answer never reaches past the file: it starts and ends inside
/// it, its length is what lies between, and the whole-file answer sends
/// every byte.
pub proof fn law_range_within_file(range: Option<(u64, Option<u64>)>, total: u64)
    requires
        range matches Some((start, Some(end))) ==> start <= end,
    ensures
        plan_range_spec(range, total) matches RangePlan::Partial { start, end, length } ==> start <= end < total
            && length == end - start + 1,
        plan_range_spec(range, total) matches RangePlan::Whole { length } ==> length == total,
{
}

/// A request whose first path segment is not the token never reaches a
/// file.
pub proof fn law_token_guards_files(get_or_head: bool, path: Seq<char>, token: Seq<char>)
    ensures
        route_spec(get_or_head, path, token) is File ==> get_or_head && split_segment(trim_leading_slashes(path)).0
            == token,
{
}

/// Decides the status and body length for a parsed range against a file of
/// `total` bytes; an open or overlong end is clamped to the last byte.
pub fn plan_range(range: Option<(u64, Option<u64>)>, total: u64) -> (r: RangePlan)
    requires
        range matches Some((start, Some(end))) ==> start <= end,
    ensures
        r == plan_range_spec(range, total),
{
    match range {
        None => RangePlan::Whole { length: total },
        Some((start, end)) => {
            if start < total {
                let last = match end {
                    Some(e) => if e < total - 1 { e } else { total - 1 },
                    None => total - 1,
                };
                RangePlan::Partial { start, end: last, length: last - start + 1 }
            } else {
                RangePlan::Unsatisfiable
            }
        },
    }
}

} // verus!

verus! {

/// What `usize::from_str` gives for `cs`.
pub open spec fn parse_usize_spec(cs: Seq<char>) -> Option<usize> {
    match text::parse_u64_spec(cs) {
        Some(v) => if v <= usize::MAX { Some(v as usize) } else { None },
        None => None,
    }
}

/// `cs` without any leading `/`.
pub open spec fn trim_leading_slashes(cs: Seq<char>) -> Seq<char>
    decreases cs.len(),
{
    if cs.len() > 0 && cs[0] == '/' {
        trim_leading_slashes(cs.drop_first())
    } else {
        cs
    }
}

/// The first `/`-separated segment of `cs` and what follows that `/`, if there is one.
pub open spec fn split_segment(cs: Seq<char>) -> (Seq<char>, Option<Seq<char>>) {
    match text::find_char(cs, '/') {
        Some(k) => (cs.take(k), Some(cs.skip(k + 1))),
        None => (cs, None),
    }
}

/// Where a preview request is routed.
#[derive(PartialEq, Eq, Structural, Debug, Clone, Copy)]
pub enum Route {
    /// 405: only GET and HEAD are served.
    MethodNotAllowed,
    /// 404: the path is malformed or names no torrent file.
    NotFound,
    /// 403: the token segment does not match.
    Forbidden,
    /// The file `file_index` of torrent `id`.
    File { id: usize, file_index: usize },
}

/// The routing rule for `/{token}/{torrent_id}/{file_index}/{filename}`.
pub open spec fn route_spec(get_or_head: bool, path: Seq<char>, token: Seq<char>) -> Route {
    if !get_or_head {
        Route::MethodNotAllowed
    } else {
        let p = trim_leading_slashes(path);
        let (t, rest1) = split_segment(p);
        match rest1 {
            None => Route::NotFound,
            Some(r1) => {
                let (id, rest2) = split_segment(r1);
                match rest2 {
                    None => Route::NotFound,
                    Some(r2) => {
                        let (idx, _) = split_segment(r2);
                        if t != token {
                            Route::Forbidden
                        } else {
                            match (parse_usize_spec(id), parse_usize_spec(idx)) {
                                (Some(i), Some(f)) => Route::File { id: i, file_index: f },
                                _ => Route::NotFound,
                            }
                        }
                    },
                }
            },
        }
    }
}

proof fn lemma_trim_slashes_step(cs: Seq<char>, a: int)
    requires
        0 <= a < cs.len(),
        cs[a] == '/',
    ensures
        trim_leading_slashes(cs.skip(a)) == trim_leading_slashes(cs.skip(a + 1)),
{
    assert(cs.skip(a).drop_first() =~= cs.skip(a + 1));
}

/// Bounds of the segment of `cs` starting at `lo`, and the index after its `/`.
fn segment(cs: &Vec<char>, lo: usize) -> (r: (usize, Option<usize>))
    requires
        lo <= cs@.len(),
    ensures
        lo <= r.0 <= cs@.len(),
        split_segment(cs@.skip(lo as int)).0 == cs@.subrange(lo as int, r.0 as int),
        r.1 is None ==> split_segment(cs@.skip(lo as int)).1 is None,
        r.1 matches Some(n) ==> n == r.0 + 1 && n <= cs@.len()
            && split_segment(cs@.skip(lo as int)).1 == Some(cs@.skip(n as int)),
{
    let n = cs.len();
    assert(cs@.subrange(lo as int, n as int) =~= cs@.skip(lo as int));
    match find_char_range(cs, lo, n, '/') {
        Some(k) => {
            proof { lemma_find_char_bound(cs@.skip(lo as int), '/'); }
            assert(cs@.skip(lo as int).take(k as int) =~= cs@.subrange(lo as int, (lo + k) as int));
            assert(cs@.skip(lo as int).skip(k + 1) =~= cs@.skip((lo + k + 1) as int));
            (lo + k, Some(lo + k + 1))
        },
        None => {
            assert(cs@.subrange(lo as int, n as int) =~= cs@.skip(lo as int));
            (n, None)
        },
    }
}

fn parse_usize_range(cs: &Vec<char>, lo: usize, hi: usize) -> (r: Option<usize>)
    requires
        lo <= hi <= cs@.len(),
    ensures
        r == parse_usize_spec(cs@.subrange(lo as int, hi as int)),
{
    match parse_u64_range(cs, lo, hi) {
        Some(v) => if v <= usize::MAX as u64 { Some(v as usize) } else { None },
        None => None,
    }
}

/// Decides how the preview server answers a request: 405 for methods other
/// than GET and HEAD, 404 for a malformed path, 403 for a wrong token.
pub fn route_request(get_or_head: bool, path: &str, token: &str) -> (r: Route)
    ensures
        r == route_spec(get_or_head, path@, token@),
{
    if !get_or_head {
        return Route::MethodNotAllowed;
    }
    let cs = chars_of(path);
    let mut a: usize = 0;
    assert(cs@.skip(0) =~= cs@);
    while a < cs.len() && cs[a] == '/'
        invariant
            a <= cs@.len(),
            trim_leading_slashes(cs@) == trim_leading_slashes(cs@.skip(a as int)),
        decreases cs@.len() - a,
    {
        proof { lemma_trim_slashes_step(cs@, a as int); }
        a = a + 1;
    }
    let ghost p = cs@.skip(a as int);
    assert(trim_leading_slashes(p) == p);
    let (t_end, next1) = segment(&cs, a);
    let s1 = match next1 {
        Some(s) => s,
        None => { return Route::NotFound; }
    };
    let (id_end, next2) = segment(&cs, s1);
    let s2 = match next2 {
        Some(s) => s,
        None => { return Route::NotFound; }
    };
    let (idx_end, _) = segment(&cs, s2);
    let tok = chars_of(token);
    let same = t_end - a == tok.len() && {
        let mut i: usize = 0;
        let mut eq = true;
        assert(cs@.subrange(a as int, a as int) =~= tok@.take(0));
        while i < tok.len()
            invariant
                t_end - a == tok@.len(),
                a <= t_end <= cs@.len(),
                i <= tok@.len(),
                eq == (cs@.subrange(a as int, (a + i) as int) == tok@.take(i as int)),
            decreases tok@.len() - i,
        {
            let ghost before = eq;
            if cs[a + i] != tok[i] {
                eq = false;
            }
            proof {
                assert(cs@.subrange(a as int, (a + i) as int) =~= cs@.subrange(a as int, (a + i + 1) as int).drop_last());
                assert(tok@.take(i as int) =~= tok@.take(i + 1).drop_last());
                if before && cs@[a + i] == tok@[i as int] {
                    assert(cs@.subrange(a as int, (a + i + 1) as int) =~= tok@.take(i + 1));
                }
                if !eq && cs@.subrange(a as int, (a + i + 1) as int) == tok@.take(i + 1) {
                    if !before {
                        assert(cs@.subrange(a as int, (a + i + 1) as int).drop_last() == tok@.take(i + 1).drop_last());
                    } else {
                        assert(cs@.subrange(a as int, (a + i + 1) as int)[i as int] == tok@.take(i + 1)[i as int]);
                    }
                }
            }
            i = i + 1;
        }
        assert(tok@.take(i as int) =~= tok@);
        eq
    };
    proof {
        if t_end - a != tok@.len() {
            assert(cs@.subrange(a as int, t_end as int).len() != tok@.len());
        }
    }
    if !same {
        return Route::Forbidden;
    }
    match (parse_usize_range(&cs, s1, id_end), parse_usize_range(&cs, s2, idx_end)) {
        (Some(i), Some(f)) => Route::File { id: i, file_index: f },
        _ => Route::NotFound,
    }
}

/// `bytes {start}-{end}/{total}`, the `Content-Range` of a partial answer.
pub open spec fn content_range_spec(start: u64, end: u64, total: u64) -> Seq<char> {
    seq!['b', 'y', 't', 'e', 's', ' '] + text::decimal(start as nat) + seq!['-']
        + text::decimal(end as nat) + seq!['/'] + text::decimal(total as nat)
}

/// `bytes */{total}`, the `Content-Range` of a 416 answer.
pub open spec fn unsatisfied_range_spec(total: u64) -> Seq<char> {
    seq!['b', 'y', 't', 'e', 's', ' ', '*', '/'] + text::decimal(total as nat)
}

fn push_bytes_word(out: &mut String)
    ensures
        final(out)@ == old(out)@ + seq!['b', 'y', 't', 'e', 's', ' '],
{
    push_char(out, 'b');
    push_char(out, 'y');
    push_char(out, 't');
    push_char(out, 'e');
    push_char(out, 's');
    push_char(out, ' ');
    assert(out@ =~= old(out)@ + seq!['b', 'y', 't', 'e', 's', ' ']);
}

/// The `Content-Range` header of a partial answer.
pub fn content_range(start: u64, end: u64, total: u64) -> (r: String)
    ensures
        r@ == content_range_spec(start, end, total),
{
    let mut out = String::new();
    push_bytes_word(&mut out);
    push_decimal(&mut out, start as u128);
    push_char(&mut out, '-');
    push_decimal(&mut out, end as u128);
    push_char(&mut out, '/');
    push_decimal(&mut out, total as u128);
    assert(out@ =~= content_range_spec(start, end, total));
    out
}

/// The `Content-Range` header of a 416 answer.
pub fn unsatisfied_range(total: u64) -> (r: String)
    ensures
        r@ == unsatisfied_range_spec(total),
{
    let mut out = String::new();
    push_bytes_word(&mut out);
    push_char(&mut out, '*');
    push_char(&mut out, '/');
    push_decimal(&mut out, total as u128);
    assert(out@ =~= unsatisfied_range_spec(total));
    out
}

/// `http://127.0.0.1:`.
pub open spec fn loopback_prefix() -> Seq<char> {
    seq!['h', 't', 't', 'p', ':', '/', '/', '1', '2', '7', '.', '0', '.', '0', '.', '1', ':']
}

/// The URL a player opens for file `file_index` of torrent `id`.
pub open spec fn preview_url_spec(port: u16, token: Seq<char>, id: usize, file_index: usize, name: Seq<u8>) -> Seq<char> {
    loopback_prefix() + text::decimal(port as nat) + seq!['/'] + token + seq!['/']
        + text::decimal(id as nat) + seq!['/'] + text::decimal(file_index as nat) + seq!['/']
        + encoding::url_escape(name)
}

/// Builds `http://127.0.0.1:{port}/{token}/{id}/{file_index}/{name}` with the
/// file name percent-encoded.
pub fn preview_url(server: &PreviewServer, id: usize, file_index: usize, name: &str) -> (r: String)
    ensures
        r@ == preview_url_spec(server.port, server.token@, id, file_index, vstd::utf8::encode_utf8(name@)),
{
    let mut out = String::new();
    push_char(&mut out, 'h');
    push_char(&mut out, 't');
    push_char(&mut out, 't');
    push_char(&mut out, 'p');
    push_char(&mut out, ':');
    push_char(&mut out, '/');
    push_char(&mut out, '/');
    push_char(&mut out, '1');
    push_char(&mut out, '2');
    push_char(&mut out, '7');
    push_char(&mut out, '.');
    push_char(&mut out, '0');
    push_char(&mut out, '.');
    push_char(&mut out, '0');
    push_char(&mut out, '.');
    push_char(&mut out, '1');
    push_char(&mut out, ':');
    assert(out@ =~= loopback_prefix());
    push_decimal(&mut out, server.port as u128);
    push_char(&mut out, '/');
    out.append(server.token.as_str());
    push_char(&mut out, '/');
    push_decimal(&mut out, id as u128);
    push_char(&mut out, '/');
    push_decimal(&mut out, file_index as u128);
    push_char(&mut out, '/');
    let enc = urlencoding_path(name);
    out.append(enc.as_str());
    assert(out@ =~= preview_url_spec(server.port, server.token@, id, file_index, vstd::utf8::encode_utf8(name@)));
    out
}

} // verus!

verus! {

/// The characters a preview token is drawn from.
pub open spec fn token_alphabet() -> Seq<char> {
    "abcdefghijklmnopqrstuvwxyz0123456789"@
}

/// A random index below `n`: `rand::Rng::gen_range(0..n)` on the thread's
/// generator. Claims only that it is below `n`; an empty range panics there.
#[verifier::external_body]
fn random_below(n: usize) -> (r: usize)
    requires
        n > 0,
    ensures
        r < n,
{
    rand::Rng::gen_range(&mut rand::thread_rng(), 0..n)
}

/// Whether `d` holds 32 indices into the token alphabet.
pub open spec fn token_draws(d: Seq<usize>) -> bool {
    d.len() == 32 && forall|i: int| 0 <= i < 32 ==> #[trigger] d[i] < 36
}

/// The token spelled by 32 indices into the alphabet.
pub open spec fn token_of(d: Seq<usize>) -> Seq<char> {
    Seq::new(32, |i: int| token_alphabet()[d[i] as int])
}

/// The token for 32 draws from the alphabet, one character per draw.
pub fn token_from_draws(draws: &Vec<usize>) -> (r: String)
    requires
        token_draws(draws@),
    ensures
        r@ == token_of(draws@),
{
    let alphabet = chars_of("abcdefghijklmnopqrstuvwxyz0123456789");
    proof {
        reveal_strlit("abcdefghijklmnopqrstuvwxyz0123456789");
    }
    let mut out = String::new();
    let mut i: usize = 0;
    while i < 32
        invariant
            alphabet@ == token_alphabet(),
            alphabet@.len() == 36,
            token_draws(draws@),
            i <= 32,
            out@ == token_of(draws@).take(i as int),
        decreases 32 - i,
    {
        let k = draws[i];
        push_char(&mut out, alphabet[k]);
        assert(out@ =~= token_of(draws@).take(i + 1 as int));
        i = i + 1;
    }
    assert(token_of(draws@).take(32) =~= token_of(draws@));
    out
}

/// A fresh secret for the preview server's paths: 32 random lower-case
/// letters and digits, one uniform draw from the alphabet per character.
pub fn new_token() -> (r: String)
    ensures
        exists|d: Seq<usize>| token_draws(d) && r@ == token_of(d),
        r@.len() == 32,
        forall|i: int| 0 <= i < 32 ==> token_alphabet().contains(#[trigger] r@[i]),
{
    let alphabet = chars_of("abcdefghijklmnopqrstuvwxyz0123456789");
    proof {
        reveal_strlit("abcdefghijklmnopqrstuvwxyz0123456789");
    }
    let mut draws: Vec<usize> = Vec::new();
    while draws.len() < 32
        invariant
            alphabet@.len() == 36,
            draws@.len() <= 32,
            forall|i: int| 0 <= i < draws@.len() ==> #[trigger] draws@[i] < 36,
        decreases 32 - draws@.len(),
    {
        let k = random_below(alphabet.len());
        draws.push(k);
    }
    let r = token_from_draws(&draws);
    assert forall|i: int| 0 <= i < 32 implies token_alphabet().contains(#[trigger] r@[i]) by {
        assert(r@[i] == token_alphabet()[draws@[i] as int]);
    }
    r
}

/// The first MIME type that `mime_guess`'s table gives for a path's
/// extension, if it knows one.
pub uninterp spec fn guessed_mime(path: Seq<char>) -> Option<Seq<char>>;

/// `mime_guess::from_path(path).first_raw()`. Claims that the result is
/// `guessed_mime` of the path: the crate looks the extension up in a fixed
/// table, so the answer depends on the path alone.
#[verifier::external_body]
fn guess_mime(path: &str) -> (r: Option<String>)
    ensures
        text::opt_text(r) == guessed_mime(path@),
{
    match mime_guess::from_path(path).first_raw() {
        Some(m) => Some(m.to_string()),
        None => None,
    }
}

/// The Content-Type to send for a guess: the guessed type, or
/// `application/octet-stream`.
pub open spec fn content_type_spec(guess: Option<Seq<char>>) -> Seq<char> {
    match guess {
        Some(m) => m,
        None => "application/octet-stream"@,
    }
}

/// The Content-Type for a guessed MIME type.
pub fn content_type_from(guess: Option<String>) -> (r: String)
    ensures
        r@ == content_type_spec(text::opt_text(guess)),
{
    match guess {
        Some(m) => m,
        None => String::from_str("application/octet-stream"),
    }
}

/// The Content-Type of a preview response, guessed from the request path
/// (leading slashes removed, as routing does).
pub fn content_type(path: &str) -> (r: String)
    ensures
        r@ == content_type_spec(guessed_mime(trim_leading_slashes(path@))),
{
    let cs = chars_of(path);
    let mut a: usize = 0;
    assert(cs@.skip(0) =~= cs@);
    while a < cs.len() && cs[a] == '/'
        invariant
            a <= cs@.len(),
            cs@ == path@,
            trim_leading_slashes(cs@) == trim_leading_slashes(cs@.skip(a as int)),
        decreases cs@.len() - a,
    {
        proof { lemma_trim_slashes_step(cs@, a as int); }
        a = a + 1;
    }
    assert(trim_leading_slashes(cs@.skip(a as int)) == cs@.skip(a as int));
    let rest = text::string_from_range(&cs, a, cs.len());
    assert(rest@ =~= cs@.skip(a as int));
    content_type_from(guess_mime(rest.as_str()))
}

} // verus!
