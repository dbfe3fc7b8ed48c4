//! Filters and bounded collections of listening positions: which positions
//! a query selects, and keeping only the largest items seen.
use vstd::prelude::*;
use crate::audio_meta::TimeStamp;
use crate::numbers::{parse_usize, spec_parse_usize};

verus! {

/// Selects positions by finished flag and by a window of time stamps.
#[derive(Clone, Copy, Debug, PartialEq, Eq)]
pub struct PositionFilter {
    finished: Option<bool>,
    from: Option<TimeStamp>,
    to: Option<TimeStamp>,
}

impl PositionFilter {
    pub closed spec fn finished_v(&self) -> Option<bool> {
        self.finished
    }

    pub closed spec fn from_v(&self) -> Option<TimeStamp> {
        self.from
    }

    pub closed spec fn to_v(&self) -> Option<TimeStamp> {
        self.to
    }

    pub fn new(finished: Option<bool>, from: Option<TimeStamp>, to: Option<TimeStamp>) -> (r: Self)
        ensures
            r.finished_v() == finished && r.from_v() == from && r.to_v() == to,
    {
        Self { finished, from, to }
    }

    /// The filter, or `None` where it has no criterion.
    pub fn into_option(self) -> (r: Option<Self>)
        ensures
            r == (if self.finished_v() is None && self.from_v() is None && self.to_v() is None {
                None
            } else {
                Some(self)
            }),
    {
        if self.finished.is_none() && self.from.is_none() && self.to.is_none() {
            None
        } else {
            Some(self)
        }
    }

    /// A position passes where its finished flag is the one asked for, its
    /// time stamp is at or after `to` and before `from`; a missing criterion
    /// passes everything.
    pub open spec fn spec_accepts(&self, timestamp: TimeStamp, folder_finished: bool) -> bool {
        (match self.finished_v() {
            Some(f) => f == folder_finished,
            None => true,
        }) && (match self.to_v() {
            Some(t) => timestamp.0 >= t.0,
            None => true,
        }) && (match self.from_v() {
            Some(f) => timestamp.0 < f.0,
            None => true,
        })
    }

    /// Whether a position with this time stamp and finished flag passes.
    pub fn filter(&self, timestamp: TimeStamp, folder_finished: bool) -> (r: bool)
        ensures
            r == self.spec_accepts(timestamp, folder_finished),
    {
        let finished = match self.finished {
            Some(f) => f == folder_finished,
            None => true,
        };
        let before = match self.to {
            Some(t) => timestamp.0 >= t.0,
            None => true,
        };
        let after = match self.from {
            Some(f) => timestamp.0 < f.0,
            None => true,
        };
        finished && before && after
    }
}

/// `s` with `x` placed after the items that are not smaller than it.
pub open spec fn insert_desc(s: Seq<i64>, x: i64) -> Seq<i64> {
    s.filter(|y: i64| y >= x) + seq![x] + s.filter(|y: i64| y < x)
}

/// The first `n` items of `s`, or all where there are fewer.
pub open spec fn keep_first(s: Seq<i64>, n: nat) -> Seq<i64> {
    if s.len() <= n {
        s
    } else {
        s.take(n as int)
    }
}

pub open spec fn is_desc(s: Seq<i64>) -> bool {
    forall|i: int, j: int| 0 <= i < j < s.len() ==> s[i] >= s[j]
}

/// Whether a filter may answer `accepted` for `item`; without a filter
/// every item is accepted.
pub open spec fn filter_gave<F: Fn(i64) -> bool>(filter: Option<F>, item: i64, accepted: bool) -> bool {
    match filter {
        Some(f) => call_ensures(f, (item,), accepted),
        None => accepted,
    }
}

/// Keeps the largest of the items it is given, at most `max_size` of them.
pub struct Collector<F> {
    kept: Kept,
    max_size: usize,
    filter: Option<F>,
}

/// The items a collector keeps, largest first, with the items it accepted,
/// in the order they came.
struct Kept {
    items: Vec<i64>,
    accepted: Ghost<Seq<i64>>,
}

impl<F> Collector<F> {
    #[verifier::type_invariant]
    spec fn well_formed(&self) -> bool {
        &&& is_desc(self.kept.items@)
        &&& self.kept.items@.len() <= self.max_size
        &&& self.kept.items@ == collected(self.kept.accepted@, self.max_size as nat)
    }
}

impl<F: Fn(i64) -> bool> Collector<F> {
    /// The items kept, largest first.
    pub closed spec fn items_v(&self) -> Seq<i64> {
        self.kept.items@
    }

    pub closed spec fn max_size_v(&self) -> nat {
        self.max_size as nat
    }

    pub closed spec fn filter_v(&self) -> Option<F> {
        self.filter
    }

    /// The items accepted so far, in the order they came.
    pub closed spec fn accepted_v(&self) -> Seq<i64> {
        self.kept.accepted@
    }

    /// An empty collector that keeps everything offered.
    pub fn new(max_size: usize) -> (r: Self)
        ensures
            r.items_v() == Seq::<i64>::empty(),
            r.max_size_v() == max_size,
            r.filter_v() is None,
            r.accepted_v() == Seq::<i64>::empty(),
    {
        Collector { kept: Kept { items: Vec::new(), accepted: Ghost(Seq::empty()) }, max_size, filter: None }
    }

    /// An empty collector that keeps what `filter` accepts.
    pub fn with_capacity_and_filter(max_size: usize, capacity: usize, filter: F) -> (r: Self)
        ensures
            r.items_v() == Seq::<i64>::empty(),
            r.max_size_v() == max_size,
            r.filter_v() == Some(filter),
            r.accepted_v() == Seq::<i64>::empty(),
    {
        Collector { kept: Kept { items: Vec::new(), accepted: Ghost(Seq::empty()) }, max_size, filter: Some(filter) }
    }

    /// An empty collector with an optional filter.
    pub fn with_optional_filter(max_size: usize, filter: Option<F>) -> (r: Self)
        ensures
            r.items_v() == Seq::<i64>::empty(),
            r.max_size_v() == max_size,
            r.filter_v() == filter,
            r.accepted_v() == Seq::<i64>::empty(),
    {
        Collector { kept: Kept { items: Vec::new(), accepted: Ghost(Seq::empty()) }, max_size, filter }
    }

    /// Offers `item`: where the filter accepts it, it joins the items and
    /// the smallest item is dropped if there are more than `max_size`.
    pub fn add(&mut self, item: i64)
        requires
            old(self).filter_v() matches Some(f) ==> call_requires(f, (item,)),
        ensures
            final(self).max_size_v() == old(self).max_size_v(),
            final(self).filter_v() == old(self).filter_v(),
            exists|accepted: bool|
                #[trigger] filter_gave(old(self).filter_v(), item, accepted) && final(self).items_v()
                    == if accepted {
                    keep_first(insert_desc(old(self).items_v(), item), old(self).max_size_v())
                } else {
                    old(self).items_v()
                } && final(self).accepted_v() == if accepted {
                    old(self).accepted_v().push(item)
                } else {
                    old(self).accepted_v()
                },
            final(self).items_v() == collected(final(self).accepted_v(), final(self).max_size_v()),
    {
        proof {
            use_type_invariant(&*self);
        }
        let accepted = match &self.filter {
            Some(f) => f(item),
            None => true,
        };
        proof {
            assert(filter_gave(self.filter, item, accepted));
        }
        if accepted {
            let ghost acc = self.kept.accepted@;
            let nv = insert_desc_vec(&self.kept.items, item, self.max_size);
            proof {
                assert(acc.push(item).drop_last() =~= acc);
            }
            self.kept = Kept { items: nv, accepted: Ghost(acc.push(item)) };
        }
    }

    /// The items kept, largest first.
    pub fn into_vec(self) -> (r: Vec<i64>)
        ensures
            r@ == self.items_v(),
            r@ == collected(self.accepted_v(), self.max_size_v()),
            is_desc(r@),
            r@.len() <= self.max_size_v(),
    {
        proof {
            use_type_invariant(&self);
        }
        self.kept.items
    }
}

/// The items `s` in descending order, inserted in turn.
pub open spec fn sorted_desc(s: Seq<i64>) -> Seq<i64>
    decreases s.len(),
{
    if s.len() == 0 {
        Seq::empty()
    } else {
        insert_desc(sorted_desc(s.drop_last()), s.last())
    }
}

/// What a collector keeping `m` items holds once the items `s` have been
/// accepted in turn: each step of `Collector::add` that accepts.
pub open spec fn collected(s: Seq<i64>, m: nat) -> Seq<i64>
    decreases s.len(),
{
    if s.len() == 0 {
        Seq::empty()
    } else {
        keep_first(insert_desc(collected(s.drop_last(), m), s.last()), m)
    }
}

/// Where `x` goes into the descending `t`: after the items not smaller.
proof fn insert_point(t: Seq<i64>, x: i64) -> (k: int)
    requires
        is_desc(t),
    ensures
        0 <= k <= t.len(),
        forall|j: int| 0 <= j < k ==> t[j] >= x,
        forall|j: int| k <= j < t.len() ==> t[j] < x,
        insert_desc(t, x) == t.insert(k, x),
    decreases t.len(),
{
    if t.len() == 0 {
        lemma_desc_split(t, x, 0);
        assert(insert_desc(t, x) =~= t.insert(0, x));
        0
    } else {
        let d = t.drop_last();
        assert(is_desc(d));
        let k0 = insert_point(d, x);
        let k = if k0 < d.len() || t.last() < x {
            k0
        } else {
            t.len() as int
        };
        assert forall|j: int| k <= j < t.len() implies t[j] < x by {
            if j < d.len() {
                assert(d[j] == t[j]);
            } else if k0 < d.len() {
                assert(t[k0] == d[k0]);
                assert(t[k0] >= t[j]);
            }
        }
        assert forall|j: int| 0 <= j < k implies t[j] >= x by {
            if j < d.len() {
                assert(d[j] == t[j]);
            }
        }
        lemma_desc_split(t, x, k);
        assert(insert_desc(t, x) =~= t.insert(k, x));
        k
    }
}

proof fn lemma_insert_desc_desc(t: Seq<i64>, x: i64)
    requires
        is_desc(t),
    ensures
        is_desc(insert_desc(t, x)),
        insert_desc(t, x).to_multiset() == t.to_multiset().insert(x),
{
    let k = insert_point(t, x);
    let u = t.insert(k, x);
    assert forall|a: int, b: int| 0 <= a < b < u.len() implies u[a] >= u[b] by {
        if a < k && b < k {
        } else if a < k && b == k {
        } else if a < k {
            assert(u[b] == t[b - 1]);
        } else if a == k {
            assert(u[b] == t[b - 1]);
        } else {
            assert(u[a] == t[a - 1]);
            assert(u[b] == t[b - 1]);
        }
    }
    vstd::seq_lib::to_multiset_insert(t, k, x);
}

/// Cutting before inserting keeps the same first `m` items.
proof fn lemma_cut_then_insert(t: Seq<i64>, x: i64, m: nat)
    requires
        is_desc(t),
    ensures
        keep_first(insert_desc(keep_first(t, m), x), m) == keep_first(insert_desc(t, x), m),
{
    if t.len() > m {
        let tm = t.take(m as int);
        assert(is_desc(tm));
        let k = insert_point(t, x);
        let k2 = insert_point(tm, x);
        assert(k2 == if k < m { k } else { m as int }) by {
            if k2 < k && k2 < m {
                assert(tm[k2] == t[k2]);
            }
            if k < k2 {
                assert(tm[k] == t[k]);
            }
        }
        let l = tm.insert(k2, x);
        let r = t.insert(k, x);
        assert(keep_first(l, m) =~= keep_first(r, m)) by {
            assert forall|j: int| 0 <= j < m implies l[j] == r[j] by {
                if j < k2 {
                    assert(l[j] == tm[j]);
                } else if j == k2 {
                } else {
                    assert(l[j] == tm[j - 1]);
                }
            }
        }
    }
}

proof fn lemma_sorted_desc(s: Seq<i64>)
    ensures
        is_desc(sorted_desc(s)),
        sorted_desc(s).to_multiset() == s.to_multiset(),
    decreases s.len(),
{
    if s.len() > 0 {
        let d = s.drop_last();
        lemma_sorted_desc(d);
        lemma_insert_desc_desc(sorted_desc(d), s.last());
        assert(d.push(s.last()) =~= s);
        vstd::seq_lib::to_multiset_build(d, s.last());
        assert(s.to_multiset() =~= d.to_multiset().insert(s.last()));
        assert(sorted_desc(s) == insert_desc(sorted_desc(d), s.last()));
        assert(sorted_desc(s).to_multiset() =~= d.to_multiset().insert(s.last()));
    } else {
        assert(sorted_desc(s) =~= s);
    }
}

proof fn lemma_collected_cut(s: Seq<i64>, m: nat)
    ensures
        collected(s, m) == keep_first(sorted_desc(s), m),
    decreases s.len(),
{
    if s.len() > 0 {
        let d = s.drop_last();
        lemma_collected_cut(d, m);
        lemma_sorted_desc(d);
        lemma_cut_then_insert(sorted_desc(d), s.last(), m);
    }
}

/// Two descending sequences with the same items are the same.
proof fn lemma_desc_unique(a: Seq<i64>, b: Seq<i64>)
    requires
        is_desc(a),
        is_desc(b),
        a.to_multiset() == b.to_multiset(),
    ensures
        a == b,
    decreases a.len(),
{
    broadcast use vstd::seq_lib::group_to_multiset_ensures;
    assert(a.len() == a.to_multiset().len());
    assert(b.len() == b.to_multiset().len());
    if a.len() > 0 {
        assert(a.contains(a[0]));
        assert(b.to_multiset().count(a[0]) > 0);
        assert(b.contains(a[0]));
        let i = choose|i: int| 0 <= i < b.len() && b[i] == a[0];
        assert(b[0] >= a[0]);
        assert(b.contains(b[0]));
        assert(a.to_multiset().count(b[0]) > 0);
        assert(a.contains(b[0]));
        let j = choose|j: int| 0 <= j < a.len() && a[j] == b[0];
        assert(a[0] >= b[0]);
        let a1 = a.remove(0);
        let b1 = b.remove(0);
        vstd::seq_lib::to_multiset_remove(a, 0);
        vstd::seq_lib::to_multiset_remove(b, 0);
        assert(is_desc(a1)) by {
            assert forall|p: int, q: int| 0 <= p < q < a1.len() implies a1[p] >= a1[q] by {
                assert(a1[p] == a[p + 1] && a1[q] == a[q + 1]);
            }
        }
        assert(is_desc(b1)) by {
            assert forall|p: int, q: int| 0 <= p < q < b1.len() implies b1[p] >= b1[q] by {
                assert(b1[p] == b[p + 1] && b1[q] == b[q + 1]);
            }
        }
        lemma_desc_unique(a1, b1);
        assert(a =~= b) by {
            assert forall|p: int| 0 <= p < a.len() implies a[p] == b[p] by {
                if p > 0 {
                    assert(a[p] == a1[p - 1]);
                    assert(b[p] == b1[p - 1]);
                }
            }
        }
    }
}

/// A collector keeping `m` items holds, once it has accepted the items `s`
/// in turn, the `m` largest of them (all of them where there are fewer),
/// largest first; so it holds the same whatever the order in which they
/// came: `t`, any reordering of `s`, gives the same. (`Collector::add` and
/// `Collector::into_vec` state that a collector holds `collected` of the
/// items it accepted.)
pub proof fn lemma_collected_is_largest(s: Seq<i64>, t: Seq<i64>, m: nat)
    requires
        s.to_multiset() == t.to_multiset(),
    ensures
        collected(s, m) == keep_first(sorted_desc(s), m),
        is_desc(sorted_desc(s)),
        sorted_desc(s).to_multiset() == s.to_multiset(),
        collected(s, m) == collected(t, m),
{
    lemma_collected_cut(s, m);
    lemma_collected_cut(t, m);
    lemma_sorted_desc(s);
    lemma_sorted_desc(t);
    lemma_desc_unique(sorted_desc(s), sorted_desc(t));
}

proof fn lemma_filter_len(s: Seq<i64>, x: i64)
    ensures
        s.filter(|y: i64| y >= x).len() + s.filter(|y: i64| y < x).len() == s.len(),
    decreases s.len(),
{
    reveal_with_fuel(Seq::<_>::filter, 1);
    if s.len() > 0 {
        lemma_filter_len(s.drop_last(), x);
    }
}

/// The items of a descending sequence from `k` on that are at least `x`
/// are exactly its prefix up to the first smaller item.
proof fn lemma_desc_split(s: Seq<i64>, x: i64, k: int)
    requires
        is_desc(s),
        0 <= k <= s.len(),
        forall|j: int| 0 <= j < k ==> s[j] >= x,
        k == s.len() || s[k] < x,
    ensures
        s.filter(|y: i64| y >= x) == s.subrange(0, k),
        s.filter(|y: i64| y < x) == s.subrange(k, s.len() as int),
    decreases s.len(),
{
    reveal_with_fuel(Seq::<_>::filter, 1);
    if s.len() > 0 {
        let t = s.drop_last();
        assert(is_desc(t));
        if k == s.len() {
            lemma_desc_split(t, x, k - 1);
            assert(s.filter(|y: i64| y >= x) =~= t.filter(|y: i64| y >= x).push(s.last()));
            assert(t.subrange(0, k - 1).push(s.last()) =~= s.subrange(0, k));
            assert(s.subrange(k, s.len() as int) =~= Seq::<i64>::empty());
            assert(t.filter(|y: i64| y < x) =~= t.subrange(k - 1, t.len() as int));
        } else {
            lemma_desc_split(t, x, k);
            assert(s.last() < x);
            assert(t.subrange(0, k) =~= s.subrange(0, k));
            assert(t.subrange(k, t.len() as int).push(s.last()) =~= s.subrange(k, s.len() as int));
        }
    }
}

fn insert_desc_vec(v: &Vec<i64>, x: i64, max_size: usize) -> (r: Vec<i64>)
    requires
        is_desc(v@),
        v@.len() <= max_size,
    ensures
        r@ == keep_first(insert_desc(v@, x), max_size as nat),
        is_desc(r@),
        r@.len() <= max_size,
{
    let mut k: usize = 0;
    while k < v.len() && v[k] >= x
        invariant
            k <= v@.len(),
            forall|j: int| 0 <= j < k ==> v@[j] >= x,
        decreases v@.len() - k,
    {
        k += 1;
    }
    proof {
        lemma_desc_split(v@, x, k as int);
    }
    let mut out: Vec<i64> = Vec::new();
    let mut i: usize = 0;
    let ghost full = insert_desc(v@, x);
    proof {
        assert(full =~= v@.subrange(0, k as int) + seq![x] + v@.subrange(k as int, v@.len() as int));
    }
    while i <= v.len() && i < max_size
        invariant
            k <= v@.len(),
            i <= v@.len() + 1,
            i <= max_size,
            v@.len() <= max_size,
            full == v@.subrange(0, k as int) + seq![x] + v@.subrange(k as int, v@.len() as int),
            out@ == full.subrange(0, i as int),
        decreases v@.len() + 1 - i,
    {
        let y = if i < k {
            v[i]
        } else if i == k {
            x
        } else {
            v[i - 1]
        };
        proof {
            assert(full[i as int] == y);
            assert(full.subrange(0, i + 1) =~= full.subrange(0, i as int).push(y));
        }
        out.push(y);
        i += 1;
    }
    proof {
        assert(full.len() == v@.len() + 1);
        assert(out@ =~= keep_first(full, max_size as nat));
        assert forall|a: int, b: int| 0 <= a < b < full.len() implies full[a] >= full[b] by {
            if a < k && b < k {
            } else if a < k && b == k {
            } else if a < k {
                assert(full[b] == v@[b - 1]);
            } else if a == k {
                assert(full[b] == v@[b - 1]);
                assert(v@[b - 1] < x) by {
                    if b - 1 > k {
                        assert(v@[k as int] >= v@[b - 1]);
                    }
                }
            } else {
                assert(full[a] == v@[a - 1]);
                assert(full[b] == v@[b - 1]);
            }
        }
    }
    out
}

/// A file of saved positions to restore from, by its format: the current
/// one, or the older one.
#[derive(Clone, Debug, PartialEq, Eq)]
pub enum BackupFile<P> {
    V1(P),
    Legacy(P),
}

/// How many listening groups a folder keeps positions for.
pub const MAX_GROUPS: usize = 100;

/// How close, in seconds, a position in the last file of a folder must come
/// to that file's end for the folder to count as finished.
pub const EOB_LIMIT: u32 = 10;

/// What becomes of a position sent for a folder.
#[derive(Clone, Copy, Debug, PartialEq, Eq, Structural)]
pub enum PositionUpdate {
    /// it is dropped: the folder is unknown or has no playable file, or the
    /// group's stored position is newer than the one sent
    Ignored,
    /// it is refused: the folder already holds positions of as many groups
    /// as it may
    TooManyGroups,
    /// it is stored, with these two values
    Store { folder_finished: bool, timestamp: TimeStamp },
}

/// Whether a position `position` seconds (rounded) into `file` lies within
/// the last `EOB_LIMIT` seconds of the folder's last file.
pub open spec fn near_end_of_book(file: Seq<char>, last_file: Seq<char>, duration: Option<u32>, position: u32) -> bool {
    &&& file == last_file
    &&& duration matches Some(d)
    &&& position <= d
    &&& d - position < EOB_LIMIT
}

/// The decision on a position sent for a folder, from what the store knows:
/// `last_file` is the folder's last playable file with its duration in
/// seconds (`None` for an unknown or empty folder), `current` the time stamp
/// of the group's stored position there, `groups` how many groups hold
/// positions there, `ts` the time stamp sent with the position, `use_ts`
/// whether to keep it, and `now` the time of the call.
pub open spec fn spec_position_update(
    file: Seq<char>,
    position: u32,
    finished: bool,
    last_file: Option<(Seq<char>, Option<u32>)>,
    current: Option<TimeStamp>,
    groups: nat,
    ts: Option<TimeStamp>,
    use_ts: bool,
    now: TimeStamp,
) -> PositionUpdate {
    match last_file {
        None => PositionUpdate::Ignored,
        Some((last, duration)) => {
            if ts is Some && current is Some && current.unwrap().0 > ts.unwrap().0 {
                PositionUpdate::Ignored
            } else if current is None && groups >= MAX_GROUPS {
                PositionUpdate::TooManyGroups
            } else {
                PositionUpdate::Store {
                    folder_finished: finished || near_end_of_book(file, last, duration, position),
                    timestamp: if use_ts && ts is Some { ts->0 } else { now },
                }
            }
        },
    }
}

/// Decides what becomes of a position sent for a folder; see
/// `spec_position_update` for the meaning of the arguments. `position` is
/// the position in seconds, rounded.
pub fn position_update(
    file: &str,
    position: u32,
    finished: bool,
    last_file: Option<(&str, Option<u32>)>,
    current: Option<TimeStamp>,
    groups: usize,
    ts: Option<TimeStamp>,
    use_ts: bool,
    now: TimeStamp,
) -> (r: PositionUpdate)
    ensures
        r == spec_position_update(
            file@,
            position,
            finished,
            match last_file {
                Some((l, d)) => Some((l@, d)),
                None => None,
            },
            current,
            groups as nat,
            ts,
            use_ts,
            now,
        ),
        r is Store && current is Some && ts is Some ==> current.unwrap().0 <= ts.unwrap().0,
        r is Store ==> (current is Some || groups < MAX_GROUPS),
{
    let (last, duration) = match last_file {
        None => return PositionUpdate::Ignored,
        Some(x) => x,
    };
    if let (Some(t), Some(c)) = (ts, current) {
        if c.0 > t.0 {
            return PositionUpdate::Ignored;
        }
    }
    if current.is_none() && groups >= MAX_GROUPS {
        return PositionUpdate::TooManyGroups;
    }
    let near_end = if crate::util::str_equal(file, last) {
        match duration {
            Some(d) => position <= d && d - position < EOB_LIMIT,
            None => false,
        }
    } else {
        false
    };
    let timestamp = match ts {
        Some(t) => if use_ts { t } else { now },
        None => now,
    };
    PositionUpdate::Store { folder_finished: finished || near_end, timestamp }
}

/// The latest of the positions found in the collections, by index: the
/// first of those with the greatest time stamp, `None` when there is none.
pub open spec fn is_latest_position(stamps: Seq<Option<TimeStamp>>, r: Option<usize>) -> bool {
    match r {
        None => forall|j: int| 0 <= j < stamps.len() ==> #[trigger] stamps[j] is None,
        Some(i) => {
            &&& i < stamps.len()
            &&& stamps[i as int] is Some
            &&& forall|j: int| 0 <= j < stamps.len() && #[trigger] stamps[j] is Some
                ==> stamps[j].unwrap().0 <= stamps[i as int].unwrap().0
            &&& forall|j: int| 0 <= j < i && #[trigger] stamps[j] is Some
                ==> stamps[j].unwrap().0 < stamps[i as int].unwrap().0
        },
    }
}

/// Picks the latest position among those found in each collection, given
/// their time stamps: a later one replaces an earlier pick only when it is
/// strictly newer.
pub fn latest_position(stamps: &[Option<TimeStamp>]) -> (r: Option<usize>)
    ensures
        is_latest_position(stamps@, r),
{
    let mut res: Option<usize> = None;
    let mut k: usize = 0;
    while k < stamps.len()
        invariant
            k <= stamps.len(),
            is_latest_position(stamps@.subrange(0, k as int), res),
        decreases stamps.len() - k,
    {
        let ghost prev = stamps@.subrange(0, k as int);
        let ghost next = stamps@.subrange(0, k + 1);
        assert(forall|j: int| 0 <= j < k ==> next[j] == prev[j]);
        assert(next[k as int] == stamps@[k as int]);
        match stamps[k] {
            Some(t) => {
                match res {
                    None => {
                        res = Some(k);
                    },
                    Some(i) => {
                        assert(prev[i as int] is Some);
                        let pt = stamps[i].unwrap();
                        if t.0 > pt.0 {
                            res = Some(k);
                        }
                    },
                }
            },
            None => {},
        }
        k = k + 1;
    }
    assert(stamps@.subrange(0, stamps.len() as int) =~= stamps@);
    res
}

// ---------------------------------------------------------------------
// positions of the old backup format

/// A position of the old backup format, as far as merging reads it: the
/// listening group, the key `collection/folder`, and its time stamp. The
/// rest of the position stays with the caller under the same index.
#[derive(Clone, Debug, PartialEq, Eq)]
pub struct LegacyEntry {
    pub group: String,
    pub key: String,
    pub timestamp: TimeStamp,
}

/// A merged position: collection number, folder, group, and the index of
/// the entry kept for them.
#[derive(Clone, Debug, PartialEq, Eq)]
pub struct LegacyRecord {
    pub collection: usize,
    pub folder: String,
    pub group: String,
    pub entry: usize,
}

/// Why old positions cannot be merged: a key whose collection part is not a
/// number.
#[derive(Clone, Debug, PartialEq, Eq)]
pub enum LegacyError {
    CollectionNotNumber(String),
}

pub struct LegacyEntryV {
    pub group: Seq<char>,
    pub key: Seq<char>,
    pub timestamp: u64,
}

impl View for LegacyEntry {
    type V = LegacyEntryV;

    open spec fn view(&self) -> LegacyEntryV {
        LegacyEntryV { group: self.group@, key: self.key@, timestamp: self.timestamp.0 }
    }
}

pub struct LegacyRecordV {
    pub collection: nat,
    pub folder: Seq<char>,
    pub group: Seq<char>,
    pub entry: nat,
}

impl View for LegacyRecord {
    type V = LegacyRecordV;

    open spec fn view(&self) -> LegacyRecordV {
        LegacyRecordV {
            collection: self.collection as nat,
            folder: self.folder@,
            group: self.group@,
            entry: self.entry as nat,
        }
    }
}

pub open spec fn entries_view(es: Seq<LegacyEntry>) -> Seq<LegacyEntryV> {
    es.map_values(|e: LegacyEntry| e@)
}

pub open spec fn records_view(rs: Seq<LegacyRecord>) -> Seq<LegacyRecordV> {
    rs.map_values(|r: LegacyRecord| r@)
}

/// The index of the first `/` in `s` at or after `i`.
pub open spec fn first_slash_from(s: Seq<char>, i: int) -> Option<int>
    decreases s.len() - i,
{
    if i < 0 || i >= s.len() {
        None
    } else if s[i] == '/' {
        Some(i)
    } else {
        first_slash_from(s, i + 1)
    }
}

/// A key cut at its first `/` into collection and folder; a key without one
/// is all collection, with an empty folder.
pub open spec fn spec_split_key(s: Seq<char>) -> (Seq<char>, Seq<char>) {
    match first_slash_from(s, 0) {
        Some(i) => (s.take(i), s.skip(i + 1)),
        None => (s, Seq::empty()),
    }
}

/// Whether a group is of the kind a faulty client once stored: its name
/// starts with `null`.
pub open spec fn is_null_group(g: Seq<char>) -> bool {
    g.len() >= 4 && g.take(4) == seq!['n', 'u', 'l', 'l']
}

/// The record for collection `c`, folder `f` and group `g` among `recs`.
pub open spec fn find_record(recs: Seq<LegacyRecordV>, c: nat, f: Seq<char>, g: Seq<char>) -> Option<int>
    decreases recs.len(),
{
    if recs.len() == 0 {
        None
    } else {
        let last = recs.last();
        if last.collection == c && last.folder == f && last.group == g {
            Some(recs.len() - 1)
        } else {
            find_record(recs.drop_last(), c, f, g)
        }
    }
}

/// Adds entry `k` for collection `c`, folder `f` and group `g`: a new
/// record, or else it replaces the entry of the record where it is strictly
/// newer.
pub open spec fn upsert(recs: Seq<LegacyRecordV>, es: Seq<LegacyEntryV>, c: nat, f: Seq<char>, g: Seq<char>, k: nat) -> Seq<LegacyRecordV> {
    match find_record(recs, c, f, g) {
        Some(j) => if es[k as int].timestamp > es[recs[j].entry as int].timestamp {
            recs.update(j, LegacyRecordV { collection: c, folder: f, group: g, entry: k })
        } else {
            recs
        },
        None => recs.push(LegacyRecordV { collection: c, folder: f, group: g, entry: k }),
    }
}

/// The merge of the first `n` entries of `es`, in order: entries of groups
/// starting with `null` are skipped; a key whose collection is not a number
/// stops the merge with that key.
pub open spec fn spec_merge_legacy(es: Seq<LegacyEntryV>, n: nat) -> Result<Seq<LegacyRecordV>, Seq<char>>
    decreases n,
{
    if n == 0 {
        Ok(Seq::empty())
    } else {
        match spec_merge_legacy(es, (n - 1) as nat) {
            Err(k) => Err(k),
            Ok(recs) => {
                let e = es[n - 1];
                if is_null_group(e.group) {
                    Ok(recs)
                } else {
                    let (c, f) = spec_split_key(e.key);
                    match spec_parse_usize(c) {
                        None => Err(e.key),
                        Some(col) => Ok(upsert(recs, es, col as nat, f, e.group, (n - 1) as nat)),
                    }
                }
            },
        }
    }
}

/// Cuts a key at its first `/`.
pub fn split_key(s: &str) -> (r: (String, String))
    ensures
        (r.0@, r.1@) == spec_split_key(s@),
{
    let n = s.unicode_len();
    let mut i: usize = 0;
    while i < n
        invariant
            i <= n,
            n == s@.len(),
            first_slash_from(s@, 0) == first_slash_from(s@, i as int),
        decreases n - i,
    {
        if s.get_char(i) == '/' {
            proof {
                assert(first_slash_from(s@, i as int) == Some(i as int));
            }
            let a = s.substring_char(0, i).to_owned();
            let b = s.substring_char(i + 1, n).to_owned();
            proof {
                assert(s@.subrange(0, i as int) =~= s@.take(i as int));
                assert(s@.subrange(i + 1, n as int) =~= s@.skip(i + 1));
            }
            return (a, b);
        }
        i = i + 1;
    }
    (s.to_owned(), String::new())
}

/// Whether a group name starts with `null`.
pub fn is_null_group_name(g: &str) -> (r: bool)
    ensures
        r == is_null_group(g@),
{
    if g.unicode_len() < 4 {
        return false;
    }
    let r = g.get_char(0) == 'n' && g.get_char(1) == 'u' && g.get_char(2) == 'l' && g.get_char(3) == 'l';
    proof {
        if r {
            assert(g@.take(4) =~= seq!['n', 'u', 'l', 'l']);
        } else {
            if g@.take(4) == seq!['n', 'u', 'l', 'l'] {
                assert(g@.take(4)[0] == g@[0]);
                assert(g@.take(4)[1] == g@[1]);
                assert(g@.take(4)[2] == g@[2]);
                assert(g@.take(4)[3] == g@[3]);
            }
        }
    }
    r
}

proof fn lemma_find_record(recs: Seq<LegacyRecordV>, c: nat, f: Seq<char>, g: Seq<char>)
    ensures
        find_record(recs, c, f, g) matches Some(j) ==> 0 <= j < recs.len() && recs[j].collection == c
            && recs[j].folder == f && recs[j].group == g,
    decreases recs.len(),
{
    if recs.len() > 0 {
        lemma_find_record(recs.drop_last(), c, f, g);
    }
}

proof fn lemma_merge_err_stays(es: Seq<LegacyEntryV>, m: nat, n: nat)
    requires
        m <= n,
        spec_merge_legacy(es, m) is Err,
    ensures
        spec_merge_legacy(es, n) == spec_merge_legacy(es, m),
    decreases n - m,
{
    if m < n {
        lemma_merge_err_stays(es, m, (n - 1) as nat);
    }
}

/// The index of the record for collection `c`, folder `f` and group `g`.
fn find_record_index(recs: &Vec<LegacyRecord>, c: usize, f: &str, g: &str) -> (r: Option<usize>)
    ensures
        match r {
            Some(j) => find_record(records_view(recs@), c as nat, f@, g@) == Some(j as int),
            None => find_record(records_view(recs@), c as nat, f@, g@) is None,
        },
{
    let mut i: usize = recs.len();
    proof {
        assert(recs@.take(recs@.len() as int) =~= recs@);
    }
    while i > 0
        invariant
            i <= recs.len(),
            find_record(records_view(recs@), c as nat, f@, g@) == find_record(records_view(recs@.take(i as int)), c as nat, f@, g@),
        decreases i,
    {
        let rec = &recs[i - 1];
        proof {
            assert(records_view(recs@.take(i as int)).drop_last() =~= records_view(recs@.take(i - 1)));
            assert(records_view(recs@.take(i as int)).last() == recs@[i - 1]@);
        }
        if rec.collection == c && crate::util::str_equal(rec.folder.as_str(), f) && crate::util::str_equal(rec.group.as_str(), g) {
            return Some(i - 1);
        }
        i = i - 1;
    }
    proof {
        assert(records_view(recs@.take(0)) =~= Seq::<LegacyRecordV>::empty());
    }
    None
}

/// Merges the positions of the old backup format, in the order given: one
/// record per collection, folder and group, holding the newest of their
/// entries (the first of equally new ones). Entries of groups starting with
/// `null` are skipped. A key whose collection part is not a number stops the
/// merge with an error.
pub fn merge_legacy_positions(entries: &Vec<LegacyEntry>) -> (r: Result<Vec<LegacyRecord>, LegacyError>)
    ensures
        match spec_merge_legacy(entries_view(entries@), entries@.len()) {
            Ok(recs) => r matches Ok(v) && records_view(v@) == recs,
            Err(k) => r matches Err(LegacyError::CollectionNotNumber(key)) && key@ == k,
        },
{
    let ghost es = entries_view(entries@);
    let mut out: Vec<LegacyRecord> = Vec::new();
    proof {
        assert(records_view(out@) =~= Seq::<LegacyRecordV>::empty());
    }
    let mut i: usize = 0;
    while i < entries.len()
        invariant
            i <= entries.len(),
            es == entries_view(entries@),
            spec_merge_legacy(es, i as nat) == Ok::<Seq<LegacyRecordV>, Seq<char>>(records_view(out@)),
            forall|j: int| 0 <= j < out@.len() ==> #[trigger] out@[j].entry < i,
        decreases entries.len() - i,
    {
        let e = &entries[i];
        assert(es[i as int] == e@);
        if is_null_group_name(e.group.as_str()) {
            i = i + 1;
            continue;
        }
        let (c, f) = split_key(e.key.as_str());
        let col = match parse_usize(c.as_str()) {
            Some(col) => col,
            None => {
                proof {
                    lemma_merge_err_stays(es, (i + 1) as nat, entries@.len());
                }
                return Err(LegacyError::CollectionNotNumber(e.key.clone()));
            },
        };
        let ghost before = records_view(out@);
        let ghost old_out = out@;
        let ghost up = upsert(before, es, col as nat, f@, e.group@, i as nat);
        proof {
            lemma_find_record(before, col as nat, f@, e.group@);
            assert(spec_split_key(es[i as int].key) == (c@, f@));
            assert(spec_merge_legacy(es, (i + 1) as nat) == Ok::<Seq<LegacyRecordV>, Seq<char>>(up));
        }
        match find_record_index(&out, col, f.as_str(), e.group.as_str()) {
            Some(j) => {
                assert(before[j as int] == out@[j as int]@);
                let kept = out[j].entry;
                assert(out@[j as int].entry < i);
                assert(es[kept as int] == entries@[kept as int]@);
                assert(before[j as int].entry == kept);
                assert(find_record(before, col as nat, f@, e.group@) == Some(j as int));
                assert(es[i as int].timestamp == e.timestamp.0);
                assert(es[before[j as int].entry as int].timestamp == entries@[kept as int].timestamp.0);
                if e.timestamp.0 <= entries[kept].timestamp.0 {
                    assert(records_view(out@) == up);
                }
                if e.timestamp.0 > entries[kept].timestamp.0 {
                    let rec = LegacyRecord { collection: col, folder: f, group: e.group.clone(), entry: i };
                    out.set(j, rec);
                    proof {
                        assert(records_view(out@) =~= before.update(j as int, rec@));
                        assert(records_view(out@) == up);
                        assert forall|t: int| 0 <= t < out@.len() implies #[trigger] out@[t].entry < i + 1 by {
                            if t != j {
                                assert(out@[t] == old_out[t]);
                            }
                        }
                    }
                }
            },
            None => {
                let rec = LegacyRecord { collection: col, folder: f, group: e.group.clone(), entry: i };
                out.push(rec);
                proof {
                    assert(records_view(out@) =~= before.push(rec@));
                    assert(records_view(out@) == up);
                    assert forall|t: int| 0 <= t < out@.len() implies #[trigger] out@[t].entry < i + 1 by {
                        if t < old_out.len() {
                            assert(out@[t] == old_out[t]);
                        }
                    }
                }
            },
        }
        i = i + 1;
    }
    Ok(out)
}

/// Whether two merged records are for the same collection, folder and group.
pub open spec fn same_key(a: LegacyRecordV, b: LegacyRecordV) -> bool {
    a.collection == b.collection && a.folder == b.folder && a.group == b.group
}

proof fn lemma_find_record_none(recs: Seq<LegacyRecordV>, c: nat, f: Seq<char>, g: Seq<char>)
    ensures
        find_record(recs, c, f, g) is None ==> forall|t: int| 0 <= t < recs.len()
            ==> !(#[trigger] recs[t].collection == c && recs[t].folder == f && recs[t].group == g),
    decreases recs.len(),
{
    if recs.len() > 0 {
        lemma_find_record_none(recs.drop_last(), c, f, g);
        if find_record(recs, c, f, g) is None {
            assert forall|t: int| 0 <= t < recs.len() implies !(#[trigger] recs[t].collection == c
                && recs[t].folder == f && recs[t].group == g) by {
                if t < recs.len() - 1 {
                    assert(recs[t] == recs.drop_last()[t]);
                }
            }
        }
    }
}

/// Merging old positions leaves at most one record for each collection,
/// folder and group.
pub proof fn lemma_merge_keys_distinct(es: Seq<LegacyEntryV>, n: nat)
    ensures
        spec_merge_legacy(es, n) matches Ok(recs) ==> forall|i: int, j: int|
            0 <= i < j < recs.len() ==> !same_key(#[trigger] recs[i], #[trigger] recs[j]),
    decreases n,
{
    if n > 0 {
        lemma_merge_keys_distinct(es, (n - 1) as nat);
        match spec_merge_legacy(es, (n - 1) as nat) {
            Err(_) => {},
            Ok(recs) => {
                let e = es[n - 1];
                if !is_null_group(e.group) {
                    let (c, f) = spec_split_key(e.key);
                    match spec_parse_usize(c) {
                        None => {},
                        Some(col) => {
                            lemma_find_record(recs, col as nat, f, e.group);
                            lemma_find_record_none(recs, col as nat, f, e.group);
                            let out = upsert(recs, es, col as nat, f, e.group, (n - 1) as nat);
                            assert forall|i: int, j: int| 0 <= i < j < out.len() implies !same_key(#[trigger] out[i], #[trigger] out[j]) by {
                                match find_record(recs, col as nat, f, e.group) {
                                    Some(k) => {
                                        assert(same_key(out[i], recs[i]) && same_key(out[j], recs[j]));
                                    },
                                    None => {
                                        if j == recs.len() {
                                            assert(out[i] == recs[i]);
                                        } else {
                                            assert(out[i] == recs[i] && out[j] == recs[j]);
                                        }
                                    },
                                }
                            }
                        },
                    }
                }
            },
        }
    }
}

} // verus!
