//! Orderings and address handling for the torrent detail view and the
//! network-interface picker.
use vstd::prelude::*;
use crate::text;
use crate::text::{chars_of, lex_less, string_from_range};
use crate::sort::{Ranked, stable_sort, is_stable_sort_of};

verus! {

/// What a peer row is ordered by: traffic both ways, then address. `slot`
/// is the row's position before sorting.
#[derive(Clone, Debug)]
pub struct PeerKey {
    pub addr: String,
    pub down_bytes: u64,
    pub up_bytes: u64,
    pub slot: usize,
}

/// Total traffic with a peer.
pub open spec fn traffic(p: PeerKey) -> int {
    p.down_bytes + p.up_bytes
}

impl Ranked for PeerKey {
    /// More traffic first; equal traffic by address.
    open spec fn before(&self, other: &Self) -> bool {
        traffic(*self) > traffic(*other) || (traffic(*self) == traffic(*other) && text::lex_lt(self.addr@, other.addr@))
    }

    proof fn lemma_irreflexive(a: &Self) {
        text::lemma_lex_irreflexive(a.addr@);
    }

    proof fn lemma_transitive(a: &Self, b: &Self, c: &Self) {
        if traffic(*a) == traffic(*b) && traffic(*b) == traffic(*c) {
            text::lemma_lex_transitive(a.addr@, b.addr@, c.addr@);
        }
    }

    proof fn lemma_split(a: &Self, b: &Self, c: &Self) {
        if traffic(*a) == traffic(*b) && traffic(*b) == traffic(*c) {
            text::lemma_lex_split(a.addr@, b.addr@, c.addr@);
        }
    }

    fn precedes(&self, other: &Self) -> (r: bool) {
        let x = self.down_bytes as u128 + self.up_bytes as u128;
        let y = other.down_bytes as u128 + other.up_bytes as u128;
        if x != y {
            x > y
        } else {
            let a = chars_of(self.addr.as_str());
            let b = chars_of(other.addr.as_str());
            lex_less(&a, &b)
        }
    }
}

/// Orders the peers of a torrent: most traffic first, ties by address, rows
/// that compare equal kept in their order.
pub fn sort_peers(peers: Vec<PeerKey>) -> (r: Vec<PeerKey>)
    ensures
        exists|perm: Seq<int>| is_stable_sort_of(r@, peers@, perm),
{
    stable_sort(peers)
}

/// A network interface the engine could bind to.
#[derive(Clone, Debug)]
pub struct NetworkInterface {
    pub name: String,
    pub ip: String,
    pub is_loopback: bool,
}

/// Interfaces other than loopback first, then by name, then by address.
pub open spec fn interface_before(a: NetworkInterface, b: NetworkInterface) -> bool {
    (!a.is_loopback && b.is_loopback) || (a.is_loopback == b.is_loopback && (text::lex_lt(a.name@, b.name@) || (
    a.name@ == b.name@ && text::lex_lt(a.ip@, b.ip@))))
}

impl Ranked for NetworkInterface {
    open spec fn before(&self, other: &Self) -> bool {
        interface_before(*self, *other)
    }

    proof fn lemma_irreflexive(a: &Self) {
        text::lemma_lex_irreflexive(a.name@);
        text::lemma_lex_irreflexive(a.ip@);
    }

    proof fn lemma_transitive(a: &Self, b: &Self, c: &Self) {
        if a.is_loopback == b.is_loopback && b.is_loopback == c.is_loopback {
            text::lemma_lex_total(a.name@, c.name@);
            if text::lex_lt(a.name@, b.name@) && text::lex_lt(b.name@, c.name@) {
                text::lemma_lex_transitive(a.name@, b.name@, c.name@);
            } else if a.name@ == b.name@ && b.name@ == c.name@ {
                text::lemma_lex_transitive(a.ip@, b.ip@, c.ip@);
            }
        }
    }

    proof fn lemma_split(a: &Self, b: &Self, c: &Self) {
        text::lemma_lex_total(a.name@, b.name@);
        text::lemma_lex_total(b.name@, c.name@);
        text::lemma_lex_total(a.ip@, b.ip@);
        text::lemma_lex_total(b.ip@, c.ip@);
        if a.is_loopback == b.is_loopback && b.is_loopback == c.is_loopback {
            if text::lex_lt(a.name@, c.name@) {
                text::lemma_lex_split(a.name@, b.name@, c.name@);
            } else {
                text::lemma_lex_split(a.ip@, b.ip@, c.ip@);
            }
        }
    }

    fn precedes(&self, other: &Self) -> (r: bool) {
        if self.is_loopback != other.is_loopback {
            return !self.is_loopback;
        }
        let a = chars_of(self.name.as_str());
        let b = chars_of(other.name.as_str());
        if lex_less(&a, &b) {
            return true;
        }
        if !text::string_eq_str(&self.name, other.name.as_str()) {
            return false;
        }
        let x = chars_of(self.ip.as_str());
        let y = chars_of(other.ip.as_str());
        lex_less(&x, &y)
    }
}

/// Orders interfaces for the picker: non-loopback first, then by name and
/// address; equal rows keep their order.
pub fn sort_interfaces(interfaces: Vec<NetworkInterface>) -> (r: Vec<NetworkInterface>)
    ensures
        exists|perm: Seq<int>| is_stable_sort_of(r@, interfaces@, perm),
{
    stable_sort(interfaces)
}

/// A tracker URL, ordered as text.
#[derive(Clone, Debug)]
pub struct Tracker {
    pub url: String,
}

impl Ranked for Tracker {
    open spec fn before(&self, other: &Self) -> bool {
        text::lex_lt(self.url@, other.url@)
    }

    proof fn lemma_irreflexive(a: &Self) {
        text::lemma_lex_irreflexive(a.url@);
    }

    proof fn lemma_transitive(a: &Self, b: &Self, c: &Self) {
        text::lemma_lex_transitive(a.url@, b.url@, c.url@);
    }

    proof fn lemma_split(a: &Self, b: &Self, c: &Self) {
        text::lemma_lex_split(a.url@, b.url@, c.url@);
    }

    fn precedes(&self, other: &Self) -> (r: bool) {
        let a = chars_of(self.url.as_str());
        let b = chars_of(other.url.as_str());
        lex_less(&a, &b)
    }
}

/// Orders a torrent's trackers alphabetically.
pub fn sort_trackers(trackers: Vec<Tracker>) -> (r: Vec<Tracker>)
    ensures
        exists|perm: Seq<int>| is_stable_sort_of(r@, trackers@, perm),
{
    stable_sort(trackers)
}

/// Index of the last `c` in `cs`.
pub open spec fn last_index_of(cs: Seq<char>, c: char) -> Option<int>
    decreases cs.len(),
{
    if cs.len() == 0 {
        None
    } else if cs.last() == c {
        Some(cs.len() - 1)
    } else {
        last_index_of(cs.drop_last(), c)
    }
}

/// A character that occurs has a last occurrence.
pub proof fn lemma_last_index_of_some(cs: Seq<char>, c: char, k: int)
    requires
        0 <= k < cs.len(),
        cs[k] == c,
    ensures
        last_index_of(cs, c) is Some,
    decreases cs.len(),
{
    if cs.last() != c {
        assert(cs.drop_last()[k] == c);
        lemma_last_index_of_some(cs.drop_last(), c, k);
    }
}

/// `[` or `]`.
pub open spec fn is_bracket(c: char) -> bool {
    c == '[' || c == ']'
}

/// `cs` without the brackets at its start.
pub open spec fn strip_leading_brackets(cs: Seq<char>) -> Seq<char>
    decreases cs.len(),
{
    if cs.len() > 0 && is_bracket(cs[0]) {
        strip_leading_brackets(cs.drop_first())
    } else {
        cs
    }
}

/// `cs` without the brackets at its end.
pub open spec fn strip_trailing_brackets(cs: Seq<char>) -> Seq<char>
    decreases cs.len(),
{
    if cs.len() > 0 && is_bracket(cs.last()) {
        strip_trailing_brackets(cs.drop_last())
    } else {
        cs
    }
}

/// The host of a peer address `host:port`, IPv6 brackets removed; `None`
/// without a `:`.
pub open spec fn peer_host_spec(addr: Seq<char>) -> Option<Seq<char>> {
    match last_index_of(addr, ':') {
        Some(k) => Some(strip_trailing_brackets(strip_leading_brackets(addr.take(k)))),
        None => None,
    }
}

proof fn lemma_last_index_of(cs: Seq<char>, c: char, i: int)
    requires
        0 <= i <= cs.len(),
        forall|j: int| i <= j < cs.len() ==> cs[j] != c,
    ensures
        last_index_of(cs, c) == last_index_of(cs.take(i), c),
    decreases cs.len() - i,
{
    if i < cs.len() {
        assert(cs.drop_last() =~= cs.take(cs.len() - 1));
        lemma_last_index_of(cs.drop_last(), c, i);
        assert(cs.drop_last().take(i) =~= cs.take(i));
    } else {
        assert(cs.take(i) =~= cs);
    }
}

proof fn lemma_strip_leading(cs: Seq<char>, i: int)
    requires
        0 <= i <= cs.len(),
        forall|j: int| 0 <= j < i ==> is_bracket(#[trigger] cs[j]),
    ensures
        strip_leading_brackets(cs) == strip_leading_brackets(cs.skip(i)),
    decreases i,
{
    if i > 0 {
        lemma_strip_leading(cs.drop_first(), i - 1);
        assert(cs.drop_first().skip(i - 1) =~= cs.skip(i));
    } else {
        assert(cs.skip(0) =~= cs);
    }
}

proof fn lemma_strip_trailing(cs: Seq<char>, i: int)
    requires
        0 <= i <= cs.len(),
        forall|j: int| i <= j < cs.len() ==> is_bracket(#[trigger] cs[j]),
    ensures
        strip_trailing_brackets(cs) == strip_trailing_brackets(cs.take(i)),
    decreases cs.len() - i,
{
    if i < cs.len() {
        lemma_strip_trailing(cs.drop_last(), i);
        assert(cs.drop_last().take(i) =~= cs.take(i));
    } else {
        assert(cs.take(i) =~= cs);
    }
}

/// The host part of a peer's `host:port` address, for the country lookup.
pub fn peer_host(addr: &str) -> (r: Option<String>)
    ensures
        text::opt_text(r) == peer_host_spec(addr@),
{
    let cs = chars_of(addr);
    let mut k: usize = cs.len();
    while k > 0 && cs[k - 1] != ':'
        invariant
            k <= cs@.len(),
            cs@ == addr@,
            forall|j: int| k <= j < cs@.len() ==> cs@[j] != ':',
        decreases k,
    {
        k = k - 1;
    }
    proof {
        lemma_last_index_of(cs@, ':', k as int);
    }
    if k == 0 {
        return None;
    }
    let colon = k - 1;
    assert(cs@.take(k as int).last() == ':');
    assert(last_index_of(cs@, ':') == Some(colon as int));
    let mut lo: usize = 0;
    while lo < colon && (cs[lo] == '[' || cs[lo] == ']')
        invariant
            lo <= colon,
            colon < cs@.len(),
            forall|j: int| 0 <= j < lo ==> is_bracket(#[trigger] cs@[j]),
        decreases colon - lo,
    {
        lo = lo + 1;
    }
    let ghost head = cs@.take(colon as int);
    proof {
        assert forall|j: int| 0 <= j < lo implies is_bracket(#[trigger] head[j]) by {
            assert(head[j] == cs@[j]);
        }
        lemma_strip_leading(head, lo as int);
        if lo < colon {
            assert(head.skip(lo as int)[0] == cs@[lo as int]);
        }
        assert(strip_leading_brackets(head.skip(lo as int)) == head.skip(lo as int));
    }
    let mut hi: usize = colon;
    while hi > lo && (cs[hi - 1] == '[' || cs[hi - 1] == ']')
        invariant
            lo <= hi <= colon,
            colon < cs@.len(),
            forall|j: int| hi <= j < colon ==> is_bracket(#[trigger] cs@[j]),
        decreases hi,
    {
        hi = hi - 1;
    }
    let ghost mid = head.skip(lo as int);
    proof {
        assert forall|j: int| hi - lo <= j < mid.len() implies is_bracket(#[trigger] mid[j]) by {
            assert(mid[j] == cs@[lo + j]);
        }
        lemma_strip_trailing(mid, hi - lo);
        if hi > lo {
            assert(mid.take(hi - lo).last() == cs@[hi - 1]);
        }
        assert(strip_trailing_brackets(mid.take(hi - lo)) == mid.take(hi - lo));
        assert(mid.take(hi - lo) =~= cs@.subrange(lo as int, hi as int));
    }
    Some(string_from_range(&cs, lo, hi))
}

} // verus!
