//! The download queue and seeding limits, as decisions taken on each tick of
//! the torrent manager. The caller performs the pauses and resumes the
//! decisions ask for and reports back how they went.
use vstd::prelude::*;
use crate::sort::{Ranked, stable_sort, is_stable_sort_of};

verus! {

/// A torrent as the manager sees it on one tick.
#[derive(Clone, Copy)]
pub struct TorrentSnap {
    pub id: usize,
    pub finished: bool,
    pub paused: bool,
    pub live: bool,
}

/// The first snapshot of torrent `id`.
pub open spec fn find_snap(snaps: Seq<TorrentSnap>, id: usize) -> Option<TorrentSnap>
    decreases snaps.len(),
{
    if snaps.len() == 0 {
        None
    } else if snaps[0].id == id {
        Some(snaps[0])
    } else {
        find_snap(snaps.drop_first(), id)
    }
}

/// A downloading torrent that is running.
pub open spec fn is_active(s: TorrentSnap) -> bool {
    s.live && !s.finished
}

/// A finished torrent that is seeding.
pub open spec fn is_seeding(s: TorrentSnap) -> bool {
    s.live && s.finished
}

/// The ids of the snapshots that satisfy `keep`, in snapshot order.
pub open spec fn ids_where(snaps: Seq<TorrentSnap>, keep: spec_fn(TorrentSnap) -> bool) -> Seq<usize>
    decreases snaps.len(),
{
    if snaps.len() == 0 {
        Seq::empty()
    } else if keep(snaps.last()) {
        ids_where(snaps.drop_last(), keep).push(snaps.last().id)
    } else {
        ids_where(snaps.drop_last(), keep)
    }
}

/// `r` is `s` in ascending order.
pub open spec fn ascending_of(r: Seq<usize>, s: Seq<usize>) -> bool {
    exists|perm: Seq<int>| is_stable_sort_of(r, s, perm)
}

/// `r` lists the elements of `s` once each, ascending.
pub open spec fn ascending_set(r: Seq<usize>, s: Set<usize>) -> bool {
    &&& forall|i: int, j: int| 0 <= i < j < r.len() ==> #[trigger] r[i] < #[trigger] r[j]
    &&& r.to_set() == s
}

impl Ranked for usize {
    open spec fn before(&self, other: &Self) -> bool {
        *self < *other
    }

    proof fn lemma_irreflexive(a: &Self) {
    }

    proof fn lemma_transitive(a: &Self, b: &Self, c: &Self) {
    }

    proof fn lemma_split(a: &Self, b: &Self, c: &Self) {
    }

    fn precedes(&self, other: &Self) -> (r: bool) {
        *self < *other
    }
}

/// Whether `v` holds `x`.
pub fn holds(v: &Vec<usize>, x: usize) -> (r: bool)
    ensures
        r == v@.contains(x),
{
    let mut i: usize = 0;
    while i < v.len()
        invariant
            i <= v@.len(),
            forall|j: int| 0 <= j < i ==> v@[j] != x,
        decreases v@.len() - i,
    {
        if v[i] == x {
            return true;
        }
        i = i + 1;
    }
    false
}

proof fn lemma_push_contains(s: Seq<usize>, x: usize, a: usize)
    ensures
        s.push(x).contains(a) <==> (s.contains(a) || a == x),
{
    if s.contains(a) {
        let k = choose|k: int| 0 <= k < s.len() && s[k] == a;
        assert(s.push(x)[k] == a);
    }
    if a == x {
        assert(s.push(x)[s.len() as int] == x);
    }
    if s.push(x).contains(a) {
        let k = choose|k: int| 0 <= k < s.len() + 1 && s.push(x)[k] == a;
        if k < s.len() {
            assert(s[k] == a);
        }
    }
}

/// In a sequence without duplicates, no element occurs before its place.
proof fn lemma_fresh(v: Seq<usize>, i: int)
    requires
        v.no_duplicates(),
        0 <= i < v.len(),
    ensures
        !v.take(i).contains(v[i]),
{
    if v.take(i).contains(v[i]) {
        let k = choose|k: int| 0 <= k < i && v.take(i)[k] == v[i];
        assert(v[k] == v[i]);
    }
}

/// `v` with `x` added unless it is there.
fn with_id(v: &Vec<usize>, x: usize) -> (r: Vec<usize>)
    requires
        v@.no_duplicates(),
    ensures
        r@.no_duplicates(),
        r@.to_set() == v@.to_set().insert(x),
{
    let mut r = v.clone();
    assert(r@ == v@);
    if !holds(&r, x) {
        r.push(x);
        assert forall|a: usize| r@.to_set().contains(a) <==> v@.to_set().insert(x).contains(a) by {
            lemma_push_contains(v@, x, a);
        }
    }
    assert(r@.to_set() =~= v@.to_set().insert(x));
    r
}

/// `v` without `x`.
fn without_id(v: &Vec<usize>, x: usize) -> (r: Vec<usize>)
    requires
        v@.no_duplicates(),
    ensures
        r@.no_duplicates(),
        r@.to_set() == v@.to_set().remove(x),
{
    let mut r: Vec<usize> = Vec::new();
    let mut i: usize = 0;
    while i < v.len()
        invariant
            i <= v@.len(),
            v@.no_duplicates(),
            r@.no_duplicates(),
            r@.to_set() == v@.take(i as int).to_set().remove(x),
        decreases v@.len() - i,
    {
        assert(v@.take(i + 1 as int) =~= v@.take(i as int).push(v@[i as int]));
        let ghost old_r = r@;
        proof {
            lemma_fresh(v@, i as int);
        }
        if v[i] != x {
            assert(!r@.to_set().contains(v@[i as int]));
            r.push(v[i]);
        }
        assert forall|a: usize| r@.to_set().contains(a) <==> v@.take(i + 1 as int).to_set().remove(x).contains(a) by {
            lemma_push_contains(v@.take(i as int), v@[i as int], a);
            assert(old_r.to_set().contains(a) == v@.take(i as int).to_set().remove(x).contains(a));
            if v@[i as int] != x {
                assert(r@ == old_r.push(v@[i as int]));
                lemma_push_contains(old_r, v@[i as int], a);
            } else {
                assert(r@ == old_r);
            }
        }
        assert(r@.to_set() =~= v@.take(i + 1 as int).to_set().remove(x));
        i = i + 1;
    }
    assert(v@.take(v@.len() as int) =~= v@);
    r
}

/// `v` without the ids that `alive` lacks.
fn only_alive(v: &Vec<usize>, alive: &Vec<usize>) -> (r: Vec<usize>)
    requires
        v@.no_duplicates(),
    ensures
        r@.no_duplicates(),
        r@.to_set() == v@.to_set().intersect(alive@.to_set()),
{
    let mut r: Vec<usize> = Vec::new();
    let mut i: usize = 0;
    while i < v.len()
        invariant
            i <= v@.len(),
            v@.no_duplicates(),
            r@.no_duplicates(),
            r@.to_set() == v@.take(i as int).to_set().intersect(alive@.to_set()),
        decreases v@.len() - i,
    {
        assert(v@.take(i + 1 as int) =~= v@.take(i as int).push(v@[i as int]));
        let ghost old_r = r@;
        proof {
            lemma_fresh(v@, i as int);
        }
        if holds(alive, v[i]) {
            assert(!r@.to_set().contains(v@[i as int]));
            r.push(v[i]);
        }
        assert forall|a: usize| r@.to_set().contains(a) <==> v@.take(i + 1 as int).to_set().intersect(alive@.to_set()).contains(a) by {
            lemma_push_contains(v@.take(i as int), v@[i as int], a);
            assert(old_r.to_set().contains(a) == v@.take(i as int).to_set().intersect(alive@.to_set()).contains(a));
            if alive@.contains(v@[i as int]) {
                assert(r@ == old_r.push(v@[i as int]));
                lemma_push_contains(old_r, v@[i as int], a);
            } else {
                assert(r@ == old_r);
            }
        }
        assert(r@.to_set() =~= v@.take(i + 1 as int).to_set().intersect(alive@.to_set()));
        i = i + 1;
    }
    assert(v@.take(v@.len() as int) =~= v@);
    r
}

/// The clock readings in `v`, by torrent id.
pub open spec fn times_by_id(v: Seq<(usize, u64)>) -> Map<usize, u64>
    decreases v.len(),
{
    if v.len() == 0 {
        Map::empty()
    } else {
        times_by_id(v.drop_last()).insert(v.last().0, v.last().1)
    }
}

/// No torrent id occurs twice in `v`.
pub open spec fn ids_unique(v: Seq<(usize, u64)>) -> bool {
    forall|a: int, b: int| 0 <= a < b < v.len() ==> #[trigger] v[a].0 != #[trigger] v[b].0
}

proof fn lemma_times_by_id(v: Seq<(usize, u64)>)
    requires
        ids_unique(v),
    ensures
        forall|id: usize| #[trigger] times_by_id(v).contains_key(id) <==> exists|i: int| 0 <= i < v.len() && v[i].0 == id,
        forall|i: int| 0 <= i < v.len() ==> times_by_id(v)[#[trigger] v[i].0] == v[i].1,
    decreases v.len(),
{
    if v.len() > 0 {
        let w = v.drop_last();
        let n = v.len() - 1;
        assert forall|a: int, b: int| 0 <= a < b < w.len() implies #[trigger] w[a].0 != #[trigger] w[b].0 by {
            assert(w[a] == v[a] && w[b] == v[b]);
        }
        lemma_times_by_id(w);
        assert forall|id: usize| #[trigger] times_by_id(v).contains_key(id) <==> exists|i: int| 0 <= i < v.len() && v[i].0 == id by {
            if times_by_id(v).contains_key(id) {
                if id == v[n].0 {
                } else {
                    assert(times_by_id(w).contains_key(id));
                    let i = choose|i: int| 0 <= i < w.len() && w[i].0 == id;
                    assert(v[i] == w[i]);
                }
            }
            if exists|i: int| 0 <= i < v.len() && v[i].0 == id {
                let i = choose|i: int| 0 <= i < v.len() && v[i].0 == id;
                if i < n {
                    assert(w[i] == v[i]);
                    assert(times_by_id(w).contains_key(id));
                }
            }
        }
        assert forall|i: int| 0 <= i < v.len() implies times_by_id(v)[#[trigger] v[i].0] == v[i].1 by {
            if i < n {
                assert(w[i] == v[i]);
                assert(v[i].0 != v[n].0);
                assert(times_by_id(w)[w[i].0] == w[i].1);
            }
        }
    }
}

/// Appending an entry for an id that `v` lacks keeps the ids unique and
/// adds that entry to the map.
proof fn lemma_push_fresh(v: Seq<(usize, u64)>, p: (usize, u64))
    requires
        ids_unique(v),
        !times_by_id(v).contains_key(p.0),
    ensures
        ids_unique(v.push(p)),
        times_by_id(v.push(p)) == times_by_id(v).insert(p.0, p.1),
{
    lemma_times_by_id(v);
    assert forall|a: int, b: int| 0 <= a < b < v.len() + 1 implies #[trigger] v.push(p)[a].0 != #[trigger] v.push(p)[b].0 by {
        assert(v.push(p)[a] == v[a]);
        if b < v.len() {
            assert(v.push(p)[b] == v[b]);
        } else if v[a].0 == p.0 {
            assert(exists|i: int| 0 <= i < v.len() && v[i].0 == p.0);
        }
    }
    assert(v.push(p).drop_last() =~= v);
}

/// An entry of `v` (ids unique) is new to the entries before it.
proof fn lemma_fresh_entry(v: Seq<(usize, u64)>, i: int)
    requires
        ids_unique(v),
        0 <= i < v.len(),
    ensures
        !times_by_id(v.take(i)).contains_key(v[i].0),
        times_by_id(v.take(i + 1)) == times_by_id(v.take(i)).insert(v[i].0, v[i].1),
{
    let pre = v.take(i);
    assert forall|a: int, b: int| 0 <= a < b < pre.len() implies #[trigger] pre[a].0 != #[trigger] pre[b].0 by {
        assert(pre[a] == v[a] && pre[b] == v[b]);
    }
    lemma_times_by_id(pre);
    if times_by_id(pre).contains_key(v[i].0) {
        let k = choose|k: int| 0 <= k < pre.len() && pre[k].0 == v[i].0;
        assert(pre[k] == v[k]);
    }
    assert(v.take(i + 1).drop_last() =~= pre);
    assert(v.take(i + 1).last() == v[i]);
}

/// The reading kept for `id`, if any.
fn time_of(v: &Vec<(usize, u64)>, id: usize) -> (r: Option<u64>)
    requires
        ids_unique(v@),
    ensures
        r == (if times_by_id(v@).contains_key(id) {
            Some(times_by_id(v@)[id])
        } else {
            None
        }),
{
    let mut i: usize = 0;
    while i < v.len()
        invariant
            i <= v@.len(),
            ids_unique(v@),
            forall|j: int| 0 <= j < i ==> v@[j].0 != id,
        decreases v@.len() - i,
    {
        if v[i].0 == id {
            proof {
                lemma_times_by_id(v@);
                assert(times_by_id(v@)[v@[i as int].0] == v@[i as int].1);
            }
            return Some(v[i].1);
        }
        i = i + 1;
    }
    proof {
        lemma_times_by_id(v@);
    }
    None
}

/// `v` with an entry for an id that it lacks appended.
fn times_with(v: &Vec<(usize, u64)>, p: (usize, u64)) -> (r: Vec<(usize, u64)>)
    requires
        ids_unique(v@),
        !times_by_id(v@).contains_key(p.0),
    ensures
        ids_unique(r@),
        times_by_id(r@) == times_by_id(v@).insert(p.0, p.1),
{
    let mut r: Vec<(usize, u64)> = Vec::new();
    let mut i: usize = 0;
    while i < v.len()
        invariant
            i <= v@.len(),
            r@ == v@.take(i as int),
        decreases v@.len() - i,
    {
        r.push(v[i]);
        assert(r@ =~= v@.take(i + 1 as int));
        i = i + 1;
    }
    assert(r@ =~= v@);
    proof {
        lemma_push_fresh(v@, p);
    }
    r.push(p);
    r
}

/// The entries of `v` for the ids that `alive` holds, in order.
fn times_alive(v: &Vec<(usize, u64)>, alive: &Vec<usize>) -> (r: Vec<(usize, u64)>)
    requires
        ids_unique(v@),
    ensures
        ids_unique(r@),
        times_by_id(r@) == times_by_id(v@).restrict(alive@.to_set()),
{
    let mut r: Vec<(usize, u64)> = Vec::new();
    let mut i: usize = 0;
    assert(times_by_id(r@) =~= times_by_id(v@.take(0)).restrict(alive@.to_set()));
    while i < v.len()
        invariant
            i <= v@.len(),
            ids_unique(v@),
            ids_unique(r@),
            times_by_id(r@) == times_by_id(v@.take(i as int)).restrict(alive@.to_set()),
        decreases v@.len() - i,
    {
        let ghost old_r = r@;
        proof {
            lemma_fresh_entry(v@, i as int);
        }
        let p = v[i];
        if holds(alive, p.0) {
            proof {
                lemma_push_fresh(old_r, p);
            }
            r.push(p);
        }
        assert(times_by_id(r@) =~= times_by_id(v@.take(i + 1 as int)).restrict(alive@.to_set()));
        i = i + 1;
    }
    assert(v@.take(v@.len() as int) =~= v@);
    r
}

/// The entries of `v` for ids other than `id`, in order.
fn times_without(v: &Vec<(usize, u64)>, id: usize) -> (r: Vec<(usize, u64)>)
    requires
        ids_unique(v@),
    ensures
        ids_unique(r@),
        times_by_id(r@) == times_by_id(v@).remove(id),
{
    let mut r: Vec<(usize, u64)> = Vec::new();
    let mut i: usize = 0;
    assert(times_by_id(r@) =~= times_by_id(v@.take(0)).remove(id));
    while i < v.len()
        invariant
            i <= v@.len(),
            ids_unique(v@),
            ids_unique(r@),
            times_by_id(r@) == times_by_id(v@.take(i as int)).remove(id),
        decreases v@.len() - i,
    {
        let ghost old_r = r@;
        proof {
            lemma_fresh_entry(v@, i as int);
        }
        let p = v[i];
        if p.0 != id {
            proof {
                lemma_push_fresh(old_r, p);
            }
            r.push(p);
        }
        assert(times_by_id(r@) =~= times_by_id(v@.take(i + 1 as int)).remove(id));
        i = i + 1;
    }
    assert(v@.take(v@.len() as int) =~= v@);
    r
}

/// Torrents the queue paused for lack of a download slot, and finished
/// torrents that reached a seeding limit.
pub struct QueueState {
    queued: Vec<usize>,
    seed_done: Vec<usize>,
    seed_since: Vec<(usize, u64)>,
}

/// The queue state: two sets of torrent ids, and the clock reading at which
/// each seeding torrent was first seen seeding.
pub struct QueueView {
    pub queued: Set<usize>,
    pub seed_done: Set<usize>,
    pub seed_since: Map<usize, u64>,
}

impl View for QueueState {
    type V = QueueView;

    closed spec fn view(&self) -> QueueView {
        QueueView {
            queued: self.queued@.to_set(),
            seed_done: self.seed_done@.to_set(),
            seed_since: times_by_id(self.seed_since@),
        }
    }
}

impl QueueState {
    #[verifier::type_invariant]
    spec fn inv(&self) -> bool {
        self.queued@.no_duplicates() && self.seed_done@.no_duplicates() && ids_unique(self.seed_since@)
    }

    /// Nothing queued, nothing done seeding, no seeding clock started.
    pub fn new() -> (r: Self)
        ensures
            r@.queued == Set::<usize>::empty(),
            r@.seed_done == Set::<usize>::empty(),
            r@.seed_since == Map::<usize, u64>::empty(),
    {
        let r = QueueState { queued: Vec::new(), seed_done: Vec::new(), seed_since: Vec::new() };
        assert(r.queued@.to_set() =~= Set::<usize>::empty());
        assert(r.seed_done@.to_set() =~= Set::<usize>::empty());
        r
    }

    /// When torrent `id` was first seen seeding: the reading kept for it, or
    /// `now`, which is kept from then on.
    pub fn seeding_since(&mut self, id: usize, now: u64) -> (r: u64)
        ensures
            final(self)@ == apply_step(old(self)@, TickStep::StartSeeding(id, now)),
            old(self)@.seed_since.contains_key(id) ==> r == old(self)@.seed_since[id]
                && final(self)@.seed_since == old(self)@.seed_since,
            !old(self)@.seed_since.contains_key(id) ==> r == now
                && final(self)@.seed_since == old(self)@.seed_since.insert(id, now),
            final(self)@.queued == old(self)@.queued,
            final(self)@.seed_done == old(self)@.seed_done,
    {
        proof {
            use_type_invariant(&*self);
        }
        match time_of(&self.seed_since, id) {
            Some(t) => t,
            None => {
                let t = times_with(&self.seed_since, (id, now));
                self.seed_since = t;
                now
            },
        }
    }

    /// Whether the queue paused torrent `id`.
    pub fn is_queued(&self, id: usize) -> (r: bool)
        ensures
            r == self@.queued.contains(id),
    {
        holds(&self.queued, id)
    }

    /// Whether torrent `id` reached a seeding limit.
    pub fn is_seed_done(&self, id: usize) -> (r: bool)
        ensures
            r == self@.seed_done.contains(id),
    {
        holds(&self.seed_done, id)
    }

    /// The queued ids, ascending.
    pub fn queued_ids(&self) -> (r: Vec<usize>)
        ensures
            ascending_set(r@, self@.queued),
    {
        proof {
            use_type_invariant(self);
        }
        ascending_unique(&self.queued)
    }

    /// Forgets torrents that are gone.
    pub fn forget_missing(&mut self, alive: &Vec<usize>)
        ensures
            final(self)@ == forget_gone(old(self)@, alive@.to_set()),
            final(self)@.queued == old(self)@.queued.intersect(alive@.to_set()),
            final(self)@.seed_done == old(self)@.seed_done.intersect(alive@.to_set()),
            final(self)@.seed_since == old(self)@.seed_since.restrict(alive@.to_set()),
            final(self)@.queued.subset_of(alive@.to_set()),
            final(self)@.seed_done.subset_of(alive@.to_set()),
            final(self)@.seed_since.dom().subset_of(alive@.to_set()),
    {
        proof {
            use_type_invariant(&*self);
        }
        let q = only_alive(&self.queued, alive);
        let d = only_alive(&self.seed_done, alive);
        let t = times_alive(&self.seed_since, alive);
        self.queued = q;
        self.seed_done = d;
        self.seed_since = t;
    }

    /// The queue paused torrent `id`.
    pub fn mark_queued(&mut self, id: usize)
        ensures
            final(self)@ == apply_step(old(self)@, TickStep::MarkQueued(id)),
            final(self)@.queued == old(self)@.queued.insert(id),
            final(self)@.seed_done == old(self)@.seed_done,
            final(self)@.seed_since == old(self)@.seed_since,
    {
        proof {
            use_type_invariant(&*self);
        }
        let q = with_id(&self.queued, id);
        self.queued = q;
    }

    /// Torrent `id` left the queue: it was resumed, or it no longer waits.
    pub fn dequeue(&mut self, id: usize)
        ensures
            final(self)@ == apply_step(old(self)@, TickStep::Dequeue(id)),
            final(self)@.queued == old(self)@.queued.remove(id),
            final(self)@.seed_done == old(self)@.seed_done,
            final(self)@.seed_since == old(self)@.seed_since,
    {
        proof {
            use_type_invariant(&*self);
        }
        let q = without_id(&self.queued, id);
        self.queued = q;
    }

    /// Torrent `id` was paused at a seeding limit: it stays paused by the
    /// limit and leaves the queue.
    pub fn finish_seeding(&mut self, id: usize)
        ensures
            final(self)@ == apply_step(old(self)@, TickStep::FinishSeeding(id)),
            final(self)@.seed_since == old(self)@.seed_since,
            final(self)@.seed_done == old(self)@.seed_done.insert(id),
            final(self)@.queued == old(self)@.queued.remove(id),
    {
        proof {
            use_type_invariant(&*self);
        }
        let d = with_id(&self.seed_done, id);
        let q = without_id(&self.queued, id);
        self.seed_done = d;
        self.queued = q;
    }

    /// The user resumed torrent `id`. Resuming a finished torrent means
    /// seeding past the limit, so the limit no longer applies to it.
    pub fn user_resumed(&mut self, id: usize, finished: bool)
        ensures
            final(self)@.queued == old(self)@.queued.remove(id),
            final(self)@.seed_since == old(self)@.seed_since.remove(id),
            final(self)@.seed_done == (if finished {
                old(self)@.seed_done.insert(id)
            } else {
                old(self)@.seed_done
            }),
    {
        proof {
            use_type_invariant(&*self);
        }
        let q = without_id(&self.queued, id);
        self.queued = q;
        let t = times_without(&self.seed_since, id);
        self.seed_since = t;
        if finished {
            let d = with_id(&self.seed_done, id);
            self.seed_done = d;
        }
    }

    /// Seeding torrents whose limits are still to be checked, in snapshot
    /// order: a torrent that already hit its limit stays hit.
    pub fn seeding_candidates(&self, snaps: &Vec<TorrentSnap>) -> (r: Vec<usize>)
        ensures
            r@ == ids_where(snaps@, |s: TorrentSnap| is_seeding(s) && !self@.seed_done.contains(s.id)),
    {
        let ghost keep = |s: TorrentSnap| is_seeding(s) && !self@.seed_done.contains(s.id);
        let mut r: Vec<usize> = Vec::new();
        let mut i: usize = 0;
        while i < snaps.len()
            invariant
                i <= snaps@.len(),
                keep == (|s: TorrentSnap| is_seeding(s) && !self@.seed_done.contains(s.id)),
                r@ == ids_where(snaps@.take(i as int), keep),
            decreases snaps@.len() - i,
        {
            assert(snaps@.take(i + 1 as int).drop_last() =~= snaps@.take(i as int));
            let s = snaps[i];
            if s.live && s.finished && !self.is_seed_done(s.id) {
                r.push(s.id);
            }
            i = i + 1;
        }
        assert(snaps@.take(snaps@.len() as int) =~= snaps@);
        r
    }
}

/// One bookkeeping step of a manager tick, as the queue's methods take it.
pub enum TickStep {
    /// `seeding_since(id, now)`.
    StartSeeding(usize, u64),
    /// `finish_seeding(id)`.
    FinishSeeding(usize),
    /// `mark_queued(id)`.
    MarkQueued(usize),
    /// `dequeue(id)`, or `fill_result` after a resume.
    Dequeue(usize),
    /// `release` on a snapshot.
    Release(Seq<TorrentSnap>),
    /// `fill_next` from a cursor (waiting ids, next index, free slots) on a
    /// snapshot.
    Fill(Seq<usize>, int, nat, Seq<TorrentSnap>),
}

/// The queue state after one step.
pub open spec fn apply_step(v: QueueView, s: TickStep) -> QueueView {
    match s {
        TickStep::StartSeeding(id, now) => QueueView {
            seed_since: if v.seed_since.contains_key(id) {
                v.seed_since
            } else {
                v.seed_since.insert(id, now)
            },
            ..v
        },
        TickStep::FinishSeeding(id) => QueueView { seed_done: v.seed_done.insert(id), queued: v.queued.remove(id), ..v },
        TickStep::MarkQueued(id) => QueueView { queued: v.queued.insert(id), ..v },
        TickStep::Dequeue(id) => QueueView { queued: v.queued.remove(id), ..v },
        TickStep::Release(snaps) => QueueView { queued: v.queued.difference(unpaused(v.queued, snaps)), ..v },
        TickStep::Fill(waiting, next, slots, snaps) => QueueView {
            queued: fill_scan(v.queued, waiting, next, slots, snaps).0,
            ..v
        },
    }
}

/// The queue state after the steps, in order.
pub open spec fn apply_steps(v: QueueView, steps: Seq<TickStep>) -> QueueView
    decreases steps.len(),
{
    if steps.len() == 0 {
        v
    } else {
        apply_step(apply_steps(v, steps.drop_last()), steps.last())
    }
}

/// The queue state once the torrents not in `alive` are forgotten.
pub open spec fn forget_gone(v: QueueView, alive: Set<usize>) -> QueueView {
    QueueView {
        queued: v.queued.intersect(alive),
        seed_done: v.seed_done.intersect(alive),
        seed_since: v.seed_since.restrict(alive),
    }
}

/// Every id the queue keeps is in `ids`.
pub open spec fn only_names(v: QueueView, ids: Set<usize>) -> bool {
    &&& v.queued.subset_of(ids)
    &&& v.seed_done.subset_of(ids)
    &&& v.seed_since.dom().subset_of(ids)
}

/// Whether a step names only torrents in `ids`.
pub open spec fn step_within(s: TickStep, ids: Set<usize>) -> bool {
    match s {
        TickStep::StartSeeding(id, _) => ids.contains(id),
        TickStep::FinishSeeding(id) => ids.contains(id),
        TickStep::MarkQueued(id) => ids.contains(id),
        _ => true,
    }
}

proof fn lemma_fill_scan_shrinks(queued: Set<usize>, waiting: Seq<usize>, next: int, slots: nat, snaps: Seq<TorrentSnap>)
    ensures
        fill_scan(queued, waiting, next, slots, snaps).0.subset_of(queued),
    decreases waiting.len() - next,
{
    if !(next < 0 || next >= waiting.len() || slots == 0) {
        let id = waiting[next];
        match find_snap(snaps, id) {
            None => lemma_fill_scan_shrinks(queued, waiting, next + 1, slots, snaps),
            Some(s) => if !s.paused || s.finished {
                lemma_fill_scan_shrinks(queued.remove(id), waiting, next + 1, slots, snaps);
            },
        }
    }
}

/// A manager tick drops the bookkeeping of removed torrents: once the queue
/// forgets the torrents missing from the snapshot, and every later step
/// names only torrents of the snapshot, the queued ids, the ids done
/// seeding and the seeding clocks all belong to live torrents.
pub proof fn law_tick_keeps_only_live(v: QueueView, alive: Set<usize>, steps: Seq<TickStep>)
    requires
        forall|i: int| 0 <= i < steps.len() ==> step_within(#[trigger] steps[i], alive),
    ensures
        only_names(apply_steps(forget_gone(v, alive), steps), alive),
    decreases steps.len(),
{
    if steps.len() > 0 {
        let rest = steps.drop_last();
        assert forall|i: int| 0 <= i < rest.len() implies step_within(#[trigger] rest[i], alive) by {
            assert(rest[i] == steps[i]);
        }
        law_tick_keeps_only_live(v, alive, rest);
        let a = apply_steps(forget_gone(v, alive), rest);
        let s = steps.last();
        assert(step_within(steps[steps.len() - 1], alive));
        match s {
            TickStep::Fill(waiting, next, slots, snaps) => {
                lemma_fill_scan_shrinks(a.queued, waiting, next, slots, snaps);
            },
            _ => {},
        }
    }
}

/// The ids of running downloads, in snapshot order.
pub open spec fn active_ids(snaps: Seq<TorrentSnap>) -> Seq<usize> {
    ids_where(snaps, |s: TorrentSnap| is_active(s))
}

/// The download limit in force: the setting when it is set and not 0.
pub open spec fn download_limit(max: Option<u32>) -> Option<nat> {
    match max {
        Some(m) => if m > 0 { Some(m as nat) } else { None },
        None => None,
    }
}

/// Where the queue stands in resuming waiting torrents on one tick: the
/// waiting ids, lowest first; the next one to look at; the free slots.
#[derive(Clone, Debug)]
pub struct FillCursor {
    pub waiting: Vec<usize>,
    pub next: usize,
    pub slots: usize,
}

/// What the download queue does on one tick.
pub enum QueuePlan {
    /// No limit is set: every queued torrent may go.
    Release,
    /// More downloads run than the limit allows: pause these, the highest
    /// ids, and queue each one that pauses.
    Pause(Vec<usize>),
    /// There is room: resume waiting torrents through the cursor.
    Fill(FillCursor),
}

/// The queue's walk over the waiting ids from `next` with `slots` free:
/// ids whose torrent is gone are passed over, ids whose torrent is no longer
/// paused or has finished leave the queue, and the first still paused one is
/// to be resumed. Gives the queue after the walk, where it stopped, and the
/// id to resume, if any.
pub open spec fn fill_scan(
    queued: Set<usize>,
    waiting: Seq<usize>,
    next: int,
    slots: nat,
    snaps: Seq<TorrentSnap>,
) -> (Set<usize>, int, Option<usize>)
    decreases waiting.len() - next,
{
    if next < 0 || next >= waiting.len() || slots == 0 {
        (queued, next, None)
    } else {
        let id = waiting[next];
        match find_snap(snaps, id) {
            None => fill_scan(queued, waiting, next + 1, slots, snaps),
            Some(s) => if !s.paused || s.finished {
                fill_scan(queued.remove(id), waiting, next + 1, slots, snaps)
            } else {
                (queued, next + 1, Some(id))
            },
        }
    }
}

/// The first snapshot of torrent `id`.
fn find_snap_in(snaps: &Vec<TorrentSnap>, id: usize) -> (r: Option<TorrentSnap>)
    ensures
        r == find_snap(snaps@, id),
{
    let mut i: usize = 0;
    assert(snaps@.skip(0) =~= snaps@);
    while i < snaps.len()
        invariant
            i <= snaps@.len(),
            find_snap(snaps@, id) == find_snap(snaps@.skip(i as int), id),
        decreases snaps@.len() - i,
    {
        assert(snaps@.skip(i as int).drop_first() =~= snaps@.skip(i + 1 as int));
        if snaps[i].id == id {
            return Some(snaps[i]);
        }
        i = i + 1;
    }
    assert(snaps@.skip(i as int) =~= Seq::<TorrentSnap>::empty());
    None
}

/// The ids of running downloads, in snapshot order.
fn active_in(snaps: &Vec<TorrentSnap>) -> (r: Vec<usize>)
    ensures
        r@ == active_ids(snaps@),
{
    let ghost keep = |s: TorrentSnap| is_active(s);
    let mut r: Vec<usize> = Vec::new();
    let mut i: usize = 0;
    while i < snaps.len()
        invariant
            i <= snaps@.len(),
            keep == (|s: TorrentSnap| is_active(s)),
            r@ == ids_where(snaps@.take(i as int), keep),
        decreases snaps@.len() - i,
    {
        assert(snaps@.take(i + 1 as int).drop_last() =~= snaps@.take(i as int));
        if snaps[i].live && !snaps[i].finished {
            r.push(snaps[i].id);
        }
        i = i + 1;
    }
    assert(snaps@.take(snaps@.len() as int) =~= snaps@);
    r
}

/// The paused queued torrents that may be resumed now that no limit is set.
pub open spec fn releasable(queued: Set<usize>, snaps: Seq<TorrentSnap>) -> Set<usize> {
    queued.filter(|id: usize| find_snap(snaps, id) matches Some(s) && s.paused)
}

/// Queued torrents that are no longer paused.
pub open spec fn unpaused(queued: Set<usize>, snaps: Seq<TorrentSnap>) -> Set<usize> {
    queued.filter(|id: usize| find_snap(snaps, id) matches Some(s) && !s.paused)
}

impl QueueState {
    /// Decides the download queue's work for this tick, from the snapshots
    /// and the `max_active_downloads` setting.
    pub fn plan_queue(&self, snaps: &Vec<TorrentSnap>, max: Option<u32>) -> (r: QueuePlan)
        ensures
            download_limit(max) is None ==> r is Release,
            download_limit(max) matches Some(m) ==> (if active_ids(snaps@).len() > m {
                r matches QueuePlan::Pause(p) && exists|sorted: Seq<usize>|
                    ascending_of(sorted, active_ids(snaps@)) && p@ == #[trigger] sorted.skip(m as int)
            } else {
                r matches QueuePlan::Fill(c) && c.next == 0 && c.slots == m - active_ids(snaps@).len()
                    && ascending_set(c.waiting@, self@.queued)
            }),
    {
        let m = match max {
            Some(m) => if m > 0 {
                m as usize
            } else {
                return QueuePlan::Release;
            },
            None => {
                return QueuePlan::Release;
            },
        };
        let active = active_in(snaps);
        if active.len() > m {
            let sorted = stable_sort(active);
            let mut over: Vec<usize> = Vec::new();
            let mut i: usize = m;
            while i < sorted.len()
                invariant
                    m <= i <= sorted@.len(),
                    over@ == sorted@.subrange(m as int, i as int),
                decreases sorted@.len() - i,
            {
                over.push(sorted[i]);
                i = i + 1;
            }
            assert(over@ =~= sorted@.skip(m as int));
            QueuePlan::Pause(over)
        } else {
            let waiting = self.queued_ids();
            QueuePlan::Fill(FillCursor { waiting, next: 0, slots: m - active.len() })
        }
    }

    /// Walks the waiting ids as `fill_scan` says, dequeuing those that no
    /// longer wait, and gives the next id to resume, if any.
    pub fn fill_next(&mut self, cursor: &mut FillCursor, snaps: &Vec<TorrentSnap>) -> (r: Option<usize>)
        ensures
            final(self)@ == apply_step(
                old(self)@,
                TickStep::Fill(old(cursor).waiting@, old(cursor).next as int, old(cursor).slots as nat, snaps@),
            ),
            ({
                let (q, n, id) = fill_scan(old(self)@.queued, old(cursor).waiting@, old(cursor).next as int, old(cursor).slots as nat, snaps@);
                &&& final(self)@.queued == q
                &&& final(cursor).next == n
                &&& r == id
            }),
            final(self)@.seed_done == old(self)@.seed_done,
            final(self)@.seed_since == old(self)@.seed_since,
            final(cursor).waiting@ == old(cursor).waiting@,
            final(cursor).slots == old(cursor).slots,
            r matches Some(id) ==> final(cursor).slots > 0 && (find_snap(snaps@, id) matches Some(s) && s.paused
                && !s.finished),
    {
        proof {
            law_fill_offers_paused(self@.queued, cursor.waiting@, cursor.next as int, cursor.slots as nat, snaps@);
        }
        loop
            invariant
                fill_scan(old(self)@.queued, old(cursor).waiting@, old(cursor).next as int, old(cursor).slots as nat, snaps@)
                    == fill_scan(self@.queued, cursor.waiting@, cursor.next as int, cursor.slots as nat, snaps@),
                self@.seed_done == old(self)@.seed_done,
                self@.seed_since == old(self)@.seed_since,
                cursor.waiting@ == old(cursor).waiting@,
                cursor.slots == old(cursor).slots,
            decreases cursor.waiting@.len() - cursor.next,
        {
            if cursor.next >= cursor.waiting.len() || cursor.slots == 0 {
                return None;
            }
            let id = cursor.waiting[cursor.next];
            cursor.next = cursor.next + 1;
            match find_snap_in(snaps, id) {
                None => {},
                Some(s) => {
                    if !s.paused || s.finished {
                        self.dequeue(id);
                    } else {
                        return Some(id);
                    }
                },
            }
        }
    }

    /// Reports whether resuming `id` worked: if it did, `id` leaves the
    /// queue and takes a slot.
    pub fn fill_result(&mut self, cursor: &mut FillCursor, id: usize, resumed: bool)
        ensures
            final(self)@ == (if resumed { apply_step(old(self)@, TickStep::Dequeue(id)) } else { old(self)@ }),
            final(self)@.queued == (if resumed {
                old(self)@.queued.remove(id)
            } else {
                old(self)@.queued
            }),
            final(self)@.seed_done == old(self)@.seed_done,
            final(self)@.seed_since == old(self)@.seed_since,
            final(cursor).waiting@ == old(cursor).waiting@,
            final(cursor).next == old(cursor).next,
            final(cursor).slots == (if resumed && old(cursor).slots > 0 {
                (old(cursor).slots - 1) as usize
            } else {
                old(cursor).slots
            }),
    {
        if resumed {
            self.dequeue(id);
            if cursor.slots > 0 {
                cursor.slots = cursor.slots - 1;
            }
        }
    }

    /// With no limit set: queued torrents that are no longer paused leave
    /// the queue now; the paused ones are given, lowest id first, to be
    /// resumed (each leaves the queue once it resumes).
    pub fn release(&mut self, snaps: &Vec<TorrentSnap>) -> (r: Vec<usize>)
        ensures
            final(self)@ == apply_step(old(self)@, TickStep::Release(snaps@)),
            final(self)@.queued == old(self)@.queued.difference(unpaused(old(self)@.queued, snaps@)),
            final(self)@.seed_done == old(self)@.seed_done,
            final(self)@.seed_since == old(self)@.seed_since,
            ascending_set(r@, releasable(old(self)@.queued, snaps@)),
    {
        let waiting = self.queued_ids();
        let ghost q0 = self@.queued;
        let mut r: Vec<usize> = Vec::new();
        let mut k: usize = 0;
        while k < waiting.len()
            invariant
                k <= waiting@.len(),
                ascending_set(waiting@, q0),
                self@.seed_done == old(self)@.seed_done,
                self@.seed_since == old(self)@.seed_since,
                q0 == old(self)@.queued,
                self@.queued == q0.difference(unpaused(waiting@.take(k as int).to_set(), snaps@)),
                forall|i: int, j: int| 0 <= i < j < r@.len() ==> #[trigger] r@[i] < #[trigger] r@[j],
                forall|i: int| 0 <= i < r@.len() ==> waiting@.take(k as int).contains(#[trigger] r@[i]),
                r@.to_set() == releasable(waiting@.take(k as int).to_set(), snaps@),
            decreases waiting@.len() - k,
        {
            let id = waiting[k];
            let ghost before = waiting@.take(k as int);
            assert(waiting@.take(k + 1 as int) =~= before.push(id));
            proof {
                assert forall|a: usize| #[trigger] before.push(id).to_set().contains(a) <==> (before.to_set().contains(a) || a == id) by {
                    lemma_push_contains(before, id, a);
                }
                assert forall|i: int| 0 <= i < r@.len() implies #[trigger] r@[i] < id by {
                    let j = choose|j: int| 0 <= j < before.len() && before[j] == r@[i];
                    assert(waiting@[j] == r@[i]);
                }
            }
            let ghost old_r = r@;
            match find_snap_in(snaps, id) {
                None => {},
                Some(s) => {
                    if !s.paused {
                        self.dequeue(id);
                    } else {
                        r.push(id);
                    }
                },
            }
            proof {
                assert forall|a: usize| r@.to_set().contains(a) <==> releasable(waiting@.take(k + 1 as int).to_set(), snaps@).contains(a) by {
                    lemma_push_contains(old_r, id, a);
                    lemma_push_contains(before, id, a);
                    assert(old_r.to_set().contains(a) == releasable(before.to_set(), snaps@).contains(a));
                    if find_snap(snaps@, id) matches Some(s) && s.paused {
                        assert(r@ == old_r.push(id));
                    } else {
                        assert(r@ == old_r);
                    }
                }
                assert(r@.to_set() =~= releasable(waiting@.take(k + 1 as int).to_set(), snaps@));
                assert(self@.queued =~= q0.difference(unpaused(waiting@.take(k + 1 as int).to_set(), snaps@)));
                assert forall|i: int| 0 <= i < r@.len() implies waiting@.take(k + 1 as int).contains(#[trigger] r@[i]) by {
                    if i < old_r.len() {
                        assert(before.contains(old_r[i]));
                        lemma_push_contains(before, id, old_r[i]);
                    } else {
                        lemma_push_contains(before, id, id);
                    }
                }
            }
            k = k + 1;
        }
        assert(waiting@.take(waiting@.len() as int) =~= waiting@);
        r
    }
}

/// Whether a torrent has seeded long enough: the limit in minutes is set,
/// not 0, and reached.
pub fn seed_time_reached(limit_minutes: Option<u32>, elapsed_secs: u64) -> (r: bool)
    ensures
        r == (limit_minutes matches Some(m) && m > 0 && elapsed_secs >= m * 60),
{
    match limit_minutes {
        Some(m) => m > 0 && elapsed_secs >= m as u64 * 60,
        None => false,
    }
}

/// When the limit is exceeded, the torrents paused are the highest ids:
/// every one paused has a higher id than every one kept running, and as
/// many are paused as run over the limit.
pub proof fn law_queue_pauses_highest(active: Seq<usize>, sorted: Seq<usize>, m: nat)
    requires
        ascending_of(sorted, active),
        m < active.len(),
    ensures
        sorted.skip(m as int).len() == active.len() - m,
        forall|i: int, j: int| 0 <= i < m <= j < sorted.len() ==> #[trigger] sorted[i] <= #[trigger] sorted[j],
{
    let perm = choose|perm: Seq<int>| is_stable_sort_of(sorted, active, perm);
    assert forall|i: int, j: int| 0 <= i < m <= j < sorted.len() implies #[trigger] sorted[i] <= #[trigger] sorted[j] by {
        assert(!sorted[j].before(&sorted[i]));
    }
}

/// The queue's walk only ever offers a torrent that is still paused and
/// unfinished, and only while a slot is free.
pub proof fn law_fill_offers_paused(
    queued: Set<usize>,
    waiting: Seq<usize>,
    next: int,
    slots: nat,
    snaps: Seq<TorrentSnap>,
)
    ensures
        fill_scan(queued, waiting, next, slots, snaps).2 matches Some(id) ==> slots > 0 && (find_snap(snaps, id) matches Some(s)
            && s.paused && !s.finished),
    decreases waiting.len() - next,
{
    if !(next < 0 || next >= waiting.len() || slots == 0) {
        let id = waiting[next];
        match find_snap(snaps, id) {
            None => law_fill_offers_paused(queued, waiting, next + 1, slots, snaps),
            Some(s) => if !s.paused || s.finished {
                law_fill_offers_paused(queued.remove(id), waiting, next + 1, slots, snaps)
            },
        }
    }
}

proof fn lemma_ids_where_member(snaps: Seq<TorrentSnap>, keep: spec_fn(TorrentSnap) -> bool, id: usize)
    requires
        forall|i: int| 0 <= i < snaps.len() && (#[trigger] snaps[i]).id == id ==> !keep(snaps[i]),
    ensures
        !ids_where(snaps, keep).contains(id),
    decreases snaps.len(),
{
    if snaps.len() > 0 {
        assert forall|i: int| 0 <= i < snaps.drop_last().len() && (#[trigger] snaps.drop_last()[i]).id == id implies !keep(
            snaps.drop_last()[i],
        ) by {
            assert(snaps.drop_last()[i] == snaps[i]);
        }
        lemma_ids_where_member(snaps.drop_last(), keep, id);
        let rest = ids_where(snaps.drop_last(), keep);
        if keep(snaps.last()) {
            assert(snaps.last().id != id);
            assert forall|k: int| 0 <= k < rest.len() + 1 implies rest.push(snaps.last().id)[k] != id by {
                if k < rest.len() {
                    assert(rest.push(snaps.last().id)[k] == rest[k]);
                }
            }
        }
    }
}

/// A torrent paused at its seeding limit stays done: it is never again a
/// candidate for the limit check, so the limit does not undo a manual
/// resume.
pub proof fn law_seed_limit_sticks(st: QueueView, snaps: Seq<TorrentSnap>, id: usize)
    requires
        st.seed_done.contains(id),
    ensures
        !ids_where(snaps, |s: TorrentSnap| is_seeding(s) && !st.seed_done.contains(s.id)).contains(id),
{
    lemma_ids_where_member(snaps, |s: TorrentSnap| is_seeding(s) && !st.seed_done.contains(s.id), id);
}

/// The elements of `v` (no duplicates) in ascending order.
fn ascending_unique(v: &Vec<usize>) -> (r: Vec<usize>)
    requires
        v@.no_duplicates(),
    ensures
        ascending_set(r@, v@.to_set()),
{
    let r = stable_sort(v.clone());
    proof {
        let perm = choose|perm: Seq<int>| is_stable_sort_of(r@, v@, perm);
        assert forall|a: usize| r@.contains(a) <==> v@.contains(a) by {
            if r@.contains(a) {
                let k = choose|k: int| 0 <= k < r@.len() && r@[k] == a;
                assert(r@[k] == v@[perm[k]]);
            }
            if v@.contains(a) {
                let j = choose|j: int| 0 <= j < v@.len() && v@[j] == a;
                crate::sort::lemma_perm_onto(perm, v@.len() as int, j);
                let k = choose|k: int| 0 <= k < perm.len() && perm[k] == j;
                assert(r@[k] == a);
            }
        }
        assert(r@.to_set() =~= v@.to_set());
        assert forall|i: int, j: int| 0 <= i < j < r@.len() implies #[trigger] r@[i] < #[trigger] r@[j] by {
            assert(!r@[j].before(&r@[i]));
            assert(perm[i] != perm[j]);
            assert(r@[i] == v@[perm[i]] && r@[j] == v@[perm[j]]);
        }
    }
    r
}

} // verus!
