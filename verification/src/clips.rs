//! Finding the lively passages of a stream in its comments.

use vstd::prelude::*;

verus! {

// ---------------------------------------------------------------------------
// Record ids

/// Tells whether numbers grow from each to the next.
pub open spec fn growing(s: Seq<i64>) -> bool {
    forall|i: int, j: int| 0 <= i < j < s.len() ==> s[i] < s[j]
}

/// The ids of records, each once and in order; only positive numbers are ids.
pub fn normalize_record_ids(record_ids: &[i64]) -> (r: Vec<i64>)
    ensures
        growing(r@),
        forall|x: i64| r@.contains(x) <==> x > 0 && record_ids@.contains(x),
{
    let mut out: Vec<i64> = Vec::new();
    let mut i: usize = 0;
    while i < record_ids.len()
        invariant
            i <= record_ids@.len(),
            growing(out@),
            forall|x: i64| out@.contains(x) <==> x > 0 && record_ids@.take(i as int).contains(x),
        decreases record_ids.len() - i,
    {
        let id: i64 = record_ids[i];
        let ghost before = out@;
        let ghost seen = record_ids@.take(i as int);
        let ghost now = record_ids@.take(i + 1);
        assert(now =~= seen.push(id));
        assert forall|x: i64| now.contains(x) <==> seen.contains(x) || x == id by {
            if now.contains(x) {
                let k = choose|k: int| 0 <= k < now.len() && now[k] == x;
                if k < seen.len() {
                    assert(seen[k] == x);
                }
            }
            if seen.contains(x) {
                let k = choose|k: int| 0 <= k < seen.len() && seen[k] == x;
                assert(now[k] == x);
            }
            if x == id {
                assert(now[seen.len() as int] == x);
            }
        }
        if id > 0 {
            let mut at: usize = 0;
            while at < out.len() && out[at] < id
                invariant
                    at <= out@.len(),
                    out@ == before,
                    growing(out@),
                    forall|k: int| 0 <= k < at ==> out@[k] < id,
                decreases out.len() - at,
            {
                at += 1;
            }
            if at == out.len() || out[at] != id {
                out.insert(at, id);
                assert(out@ =~= before.insert(at as int, id));
                assert forall|x: i64| out@.contains(x) <==> before.contains(x) || x == id by {
                    if out@.contains(x) {
                        let k = choose|k: int| 0 <= k < out@.len() && out@[k] == x;
                        if k < at {
                            assert(before[k] == x);
                        } else if k > at {
                            assert(before[k - 1] == x);
                        }
                    }
                    if before.contains(x) {
                        let k = choose|k: int| 0 <= k < before.len() && before[k] == x;
                        if k < at {
                            assert(out@[k] == x);
                        } else {
                            assert(out@[k + 1] == x);
                        }
                    }
                    if x == id {
                        assert(out@[at as int] == x);
                    }
                }
            } else {
                assert(before[at as int] == id);
                assert(before.contains(id));
            }
        }
        i += 1;
        assert(record_ids@.take(i as int) == now);
        assert forall|x: i64| #[trigger]
            out@.contains(x) == (x > 0 && record_ids@.take(i as int).contains(x)) by {
            assert(now.contains(x) == (seen.contains(x) || x == id));
            assert(before.contains(x) == (x > 0 && seen.contains(x)));
            assert(out@.contains(x) == (before.contains(x) || (id > 0 && x == id)));
        }
    }
    assert(record_ids@.take(i as int) =~= record_ids@);
    out
}

// ---------------------------------------------------------------------------
// Counting

/// How many leading entries have a key below another.
pub open spec fn place(s: Seq<(i64, i64)>, key: i64) -> int
    decreases s.len(),
{
    if s.len() == 0 || s[0].0 >= key {
        0
    } else {
        1 + place(s.drop_first(), key)
    }
}

/// Counts with one more under a key.
pub open spec fn counted(s: Seq<(i64, i64)>, key: i64) -> Seq<(i64, i64)> {
    let p = place(s, key);
    if p < s.len() && s[p].0 == key {
        s.update(p, (key, (s[p].1 + 1) as i64))
    } else {
        s.insert(p, (key, 1i64))
    }
}

/// How often each number occurs, in the order of the numbers.
pub open spec fn counts(keys: Seq<i64>) -> Seq<(i64, i64)>
    decreases keys.len(),
{
    if keys.len() == 0 {
        Seq::empty()
    } else {
        counted(counts(keys.drop_last()), keys.last())
    }
}

/// How often a number occurs.
pub open spec fn tally(keys: Seq<i64>, key: i64) -> int
    decreases keys.len(),
{
    if keys.len() == 0 {
        0
    } else {
        tally(keys.drop_last(), key) + if keys.last() == key {
            1int
        } else {
            0
        }
    }
}

/// The count under a key.
pub open spec fn count_at(s: Seq<(i64, i64)>, key: i64) -> int {
    let p = place(s, key);
    if p < s.len() && s[p].0 == key {
        s[p].1 as int
    } else {
        0
    }
}

/// Tells whether the keys grow from each entry to the next.
pub open spec fn keys_grow(s: Seq<(i64, i64)>) -> bool {
    forall|i: int, j: int| 0 <= i < j < s.len() ==> s[i].0 < s[j].0
}

/// The sum of the counts.
pub open spec fn total(s: Seq<(i64, i64)>) -> int
    decreases s.len(),
{
    if s.len() == 0 {
        0
    } else {
        total(s.drop_last()) + s.last().1
    }
}

proof fn lemma_place(s: Seq<(i64, i64)>, key: i64)
    ensures
        0 <= place(s, key) <= s.len(),
        forall|k: int| 0 <= k < place(s, key) ==> (#[trigger] s[k]).0 < key,
        place(s, key) < s.len() ==> s[place(s, key)].0 >= key,
    decreases s.len(),
{
    if s.len() > 0 && s[0].0 < key {
        lemma_place(s.drop_first(), key);
        assert forall|k: int| 0 <= k < place(s, key) implies (#[trigger] s[k]).0 < key by {
            if k > 0 {
                assert(s[k] == s.drop_first()[k - 1]);
            }
        }
    }
}

proof fn lemma_place_unique(s: Seq<(i64, i64)>, key: i64, p: int)
    requires
        0 <= p <= s.len(),
        forall|k: int| 0 <= k < p ==> (#[trigger] s[k]).0 < key,
        p < s.len() ==> s[p].0 >= key,
    ensures
        place(s, key) == p,
{
    lemma_place(s, key);
}

proof fn lemma_total_update(s: Seq<(i64, i64)>, p: int, e: (i64, i64))
    requires
        0 <= p < s.len(),
    ensures
        total(s.update(p, e)) == total(s) - s[p].1 + e.1,
    decreases s.len(),
{
    let t = s.update(p, e);
    if p < s.len() - 1 {
        lemma_total_update(s.drop_last(), p, e);
        assert(t.drop_last() =~= s.drop_last().update(p, e));
    } else {
        assert(t.drop_last() =~= s.drop_last());
    }
}

proof fn lemma_total_insert(s: Seq<(i64, i64)>, p: int, e: (i64, i64))
    requires
        0 <= p <= s.len(),
    ensures
        total(s.insert(p, e)) == total(s) + e.1,
    decreases s.len(),
{
    let t = s.insert(p, e);
    if p < s.len() {
        lemma_total_insert(s.drop_last(), p, e);
        assert(t.drop_last() =~= s.drop_last().insert(p, e));
        assert(t.last() == s.last());
    } else {
        assert(t.drop_last() =~= s);
    }
}

/// Every count is at most their sum, where none is negative.
proof fn lemma_total_bounds(s: Seq<(i64, i64)>, k: int)
    requires
        0 <= k < s.len(),
        forall|i: int| 0 <= i < s.len() ==> (#[trigger] s[i]).1 >= 0,
    ensures
        s[k].1 <= total(s),
        total(s) >= 0,
    decreases s.len(),
{
    let rest = s.drop_last();
    assert forall|i: int| 0 <= i < rest.len() implies (#[trigger] rest[i]).1 >= 0 by {
        assert(rest[i] == s[i]);
    }
    assert(s[s.len() - 1].1 >= 0);
    if k < rest.len() {
        assert(rest[k] == s[k]);
        lemma_total_bounds(rest, k);
    } else if rest.len() > 0 {
        lemma_total_bounds(rest, 0);
    }
}

/// What counting keeps.
proof fn lemma_counted(s: Seq<(i64, i64)>, key: i64, other: i64)
    requires
        keys_grow(s),
        forall|i: int| 0 <= i < s.len() ==> (#[trigger] s[i]).1 >= 1,
        total(s) < i64::MAX,
    ensures
        keys_grow(counted(s, key)),
        forall|i: int| 0 <= i < counted(s, key).len() ==> (#[trigger] counted(s, key)[i]).1 >= 1,
        total(counted(s, key)) == total(s) + 1,
        count_at(counted(s, key), other) == count_at(s, other) + (if other == key {
            1int
        } else {
            0
        }),
{
    let p = place(s, key);
    let t = counted(s, key);
    lemma_place(s, key);
    if p < s.len() && s[p].0 == key {
        lemma_total_bounds(s, p);
        lemma_total_update(s, p, (key, (s[p].1 + 1) as i64));
    } else {
        lemma_total_insert(s, p, (key, 1i64));
    }
    assert forall|i: int, j: int| 0 <= i < j < t.len() implies t[i].0 < t[j].0 by {
        if !(p < s.len() && s[p].0 == key) {
            if p < s.len() {
                assert(s[p].0 > key);
            }
            let a = if i < p {
                i
            } else {
                i - 1
            };
            let b = if j < p {
                j
            } else {
                j - 1
            };
            if i == p {
                assert(s[b].0 >= s[p].0);
            } else if j == p {
                assert(s[a].0 < key);
            } else {
                assert(s[a].0 < s[b].0);
            }
        }
    }
    let q = place(s, other);
    lemma_place(s, other);
    lemma_place(t, other);
    if p < s.len() && s[p].0 == key {
        assert forall|k: int| 0 <= k < q implies (#[trigger] t[k]).0 < other by {
            assert(s[k].0 < other);
        }
        lemma_place_unique(t, other, q);
    } else if other <= key {
        assert(q <= p) by {
            if p < q {
                assert(s[p].0 < other);
            }
        }
        assert forall|k: int| 0 <= k < q implies (#[trigger] t[k]).0 < other by {
            assert(s[k].0 < other);
        }
        if q < p {
            assert(t[q] == s[q]);
        } else {
            assert(t[q] == (key, 1i64));
        }
        lemma_place_unique(t, other, q);
        if q == p && other < key {
            assert(!(q < s.len() && s[q].0 == other));
        }
    } else {
        assert(p <= q) by {
            if q < p {
                assert(s[q].0 < key);
            }
        }
        assert forall|k: int| 0 <= k < q + 1 implies (#[trigger] t[k]).0 < other by {
            if k < p {
                assert(s[k].0 < other);
            } else if k > p {
                assert(s[k - 1].0 < other);
            }
        }
        if q < s.len() {
            assert(t[q + 1] == s[q]);
        }
        lemma_place_unique(t, other, q + 1);
    }
}

/// What counts hold.
proof fn lemma_counts(keys: Seq<i64>, key: i64)
    requires
        keys.len() <= i64::MAX,
    ensures
        keys_grow(counts(keys)),
        forall|i: int| 0 <= i < counts(keys).len() ==> (#[trigger] counts(keys)[i]).1 >= 1,
        total(counts(keys)) == keys.len(),
        count_at(counts(keys), key) == tally(keys, key),
    decreases keys.len(),
{
    if keys.len() > 0 {
        lemma_counts(keys.drop_last(), key);
        lemma_counted(counts(keys.drop_last()), keys.last(), key);
    }
}

/// The keys of counts are the numbers that were counted.
proof fn lemma_count_keys(keys: Seq<i64>, low: int, high: int)
    requires
        forall|i: int| 0 <= i < keys.len() ==> low <= #[trigger] keys[i] <= high,
    ensures
        forall|i: int| 0 <= i < counts(keys).len() ==> low <= (#[trigger] counts(keys)[i]).0 <= high,
    decreases keys.len(),
{
    if keys.len() > 0 {
        let rest = keys.drop_last();
        assert forall|i: int| 0 <= i < rest.len() implies low <= #[trigger] rest[i] <= high by {
            assert(rest[i] == keys[i]);
        }
        lemma_count_keys(rest, low, high);
        let s = counts(rest);
        let t = counts(keys);
        let p = place(s, keys.last());
        lemma_place(s, keys.last());
        assert(keys[keys.len() - 1] == keys.last());
        assert forall|i: int| 0 <= i < t.len() implies low <= (#[trigger] t[i]).0 <= high by {
            if p < s.len() && s[p].0 == keys.last() {
                if i != p {
                    assert(t[i] == s[i]);
                }
            } else if i < p {
                assert(t[i] == s[i]);
            } else if i > p {
                assert(t[i] == s[i - 1]);
            }
        }
    }
}

fn count_up(s: &mut Vec<(i64, i64)>, key: i64)
    requires
        forall|i: int| 0 <= i < old(s)@.len() ==> (#[trigger] old(s)@[i]).1 < i64::MAX,
    ensures
        final(s)@ == counted(old(s)@, key),
{
    let ghost before = s@;
    let mut at: usize = 0;
    while at < s.len() && s[at].0 < key
        invariant
            at <= s@.len(),
            s@ == before,
            forall|k: int| 0 <= k < at ==> (#[trigger] before[k]).0 < key,
        decreases s.len() - at,
    {
        at += 1;
    }
    proof {
        lemma_place_unique(before, key, at as int);
    }
    if at < s.len() && s[at].0 == key {
        let n: i64 = s[at].1;
        s.set(at, (key, n + 1));
    } else {
        s.insert(at, (key, 1));
    }
}

/// The counts of a number that is counted are right, and they are in order.
pub proof fn law_counts(keys: Seq<i64>, key: i64)
    requires
        keys.len() <= i64::MAX,
    ensures
        keys_grow(counts(keys)),
        count_at(counts(keys), key) == tally(keys, key),
        total(counts(keys)) == keys.len(),
{
    lemma_counts(keys, key);
}

// ---------------------------------------------------------------------------
// Comments on a timeline

/// The comments of a recording: their seconds, in the order in which they were read, and how
/// many there are in each minute.
pub struct Timeline {
    pub buckets: Vec<(i64, i64)>,
    pub offsets: Vec<i64>,
}

/// The minute of a second, by its first second.
pub open spec fn minute(offset: i64) -> i64 {
    (offset / 60 * 60) as i64
}

/// The minutes of some seconds.
pub open spec fn minutes(offsets: Seq<i64>) -> Seq<i64> {
    Seq::new(offsets.len(), |i: int| minute(offsets[i]))
}

impl Timeline {
    /// The comments are counted by the minute, and none lies before the beginning.
    pub open spec fn wf(&self) -> bool {
        &&& self.buckets@ == counts(minutes(self.offsets@))
        &&& forall|i: int| 0 <= i < self.offsets@.len() ==> #[trigger] self.offsets@[i] >= 0
        &&& self.offsets@.len() <= i64::MAX
    }

    /// No comments.
    pub fn new() -> (r: Self)
        ensures
            r.wf(),
            r.offsets@.len() == 0,
    {
        let t = Timeline { buckets: Vec::new(), offsets: Vec::new() };
        assert(minutes(t.offsets@) =~= Seq::<i64>::empty());
        assert(t.buckets@ =~= counts(minutes(t.offsets@)));
        t
    }

    /// Adds a comment; one before the beginning is left out.
    pub fn push_danmaku_offset(&mut self, offset: i64)
        requires
            old(self).wf(),
            old(self).offsets@.len() < i64::MAX,
        ensures
            final(self).wf(),
            final(self).offsets@ == (if offset < 0 {
                old(self).offsets@
            } else {
                old(self).offsets@.push(offset)
            }),
    {
        if offset < 0 {
            return ;
        }
        let ghost before = self.offsets@;
        let ghost keys = minutes(before);
        proof {
            lemma_counts(keys, 0);
            assert forall|i: int| 0 <= i < self.buckets@.len() implies (#[trigger] self.buckets@[i]).1
                < i64::MAX by {
                lemma_total_bounds(self.buckets@, i);
            }
        }
        self.offsets.push(offset);
        let bucket: i64 = offset / 60 * 60;
        count_up(&mut self.buckets, bucket);
        proof {
            assert(minutes(self.offsets@) =~= keys.push(bucket));
            assert(keys.push(bucket).drop_last() =~= keys);
            assert forall|i: int| 0 <= i < self.offsets@.len() implies #[trigger] self.offsets@[i]
                >= 0 by {
                if i < before.len() {
                    assert(self.offsets@[i] == before[i]);
                }
            }
        }
    }
}

// ---------------------------------------------------------------------------
// Passages

/// A passage of a recording: its seconds, and how many comments were made in its liveliest
/// minute.
#[derive(Clone, Copy)]
pub struct ClipInterval {
    pub start_offset: i64,
    pub end_offset: i64,
    pub peak_count: i64,
}

/// What reading the minutes has found: the passages that ended, the one that goes on with its
/// start, its peak and its last count, and the last count.
pub ghost struct Scan {
    pub done: Seq<ClipInterval>,
    pub active: Option<(i64, i64, i64)>,
    pub prev: Option<i64>,
}

/// The larger of two numbers.
pub open spec fn larger(a: i64, b: i64) -> i64 {
    if a > b {
        a
    } else {
        b
    }
}

/// Tells whether a passage begins at a minute: its count is at least two and a half times the
/// last one.
pub open spec fn rises(prev: i64, count: i64) -> bool {
    if prev == 0 {
        count > 0
    } else {
        2 * count >= 5 * prev
    }
}

/// Tells whether a passage ends with a minute: its count is at most three quarters of the last
/// one.
pub open spec fn falls(last: i64, count: i64) -> bool {
    last > 0 && 4 * count <= 3 * last
}

/// What one more minute adds.
pub open spec fn scan_step(s: Scan, bucket: (i64, i64)) -> Scan {
    let (start_of_minute, count) = bucket;
    let prev = Some(count);
    match s.active {
        Some((start, peak, last)) => if falls(last, count) {
            Scan {
                done: s.done.push(
                    ClipInterval {
                        start_offset: start,
                        end_offset: (start_of_minute + 60) as i64,
                        peak_count: larger(peak, count),
                    },
                ),
                active: None,
                prev,
            }
        } else {
            Scan { done: s.done, active: Some((start, larger(peak, count), count)), prev }
        },
        None => match s.prev {
            Some(p) => if rises(p, count) {
                Scan { done: s.done, active: Some((start_of_minute, count, count)), prev }
            } else {
                Scan { done: s.done, active: None, prev }
            },
            None => Scan { done: s.done, active: None, prev },
        },
    }
}

/// What reading the minutes finds.
pub open spec fn scan(buckets: Seq<(i64, i64)>) -> Scan
    decreases buckets.len(),
{
    if buckets.len() == 0 {
        Scan { done: Seq::empty(), active: None, prev: None }
    } else {
        scan_step(scan(buckets.drop_last()), buckets.last())
    }
}

/// The passages that the minutes show; one that goes on ends with the last minute.
pub open spec fn passages(buckets: Seq<(i64, i64)>) -> Seq<ClipInterval> {
    let s = scan(buckets);
    match s.active {
        Some((start, peak, _)) => s.done.push(
            ClipInterval {
                start_offset: start,
                end_offset: (buckets.last().0 + 60) as i64,
                peak_count: peak,
            },
        ),
        None => s.done,
    }
}

/// A passage with half a minute on either side.
pub open spec fn widened(p: ClipInterval) -> ClipInterval {
    ClipInterval {
        start_offset: larger((p.start_offset - 30) as i64, 0),
        end_offset: (p.end_offset + 30) as i64,
        peak_count: p.peak_count,
    }
}

/// The passages of at least a minute, each widened.
pub open spec fn long_passages(s: Seq<ClipInterval>) -> Seq<ClipInterval>
    decreases s.len(),
{
    if s.len() == 0 {
        Seq::empty()
    } else {
        let rest = long_passages(s.drop_last());
        let w = widened(s.last());
        if w.end_offset - w.start_offset >= 60 {
            rest.push(w)
        } else {
            rest
        }
    }
}

/// Passages within the seconds that can be counted with.
pub open spec fn in_range(p: ClipInterval) -> bool {
    i64::MIN + 30 <= p.start_offset && p.end_offset <= i64::MAX - 30
}

/// The passages in which the comments rise by leaps, with half a minute on either side.
pub fn compute_clip_intervals(buckets: &Vec<(i64, i64)>) -> (r: Vec<ClipInterval>)
    requires
        forall|i: int|
            0 <= i < buckets@.len() ==> i64::MIN + 30 <= (#[trigger] buckets@[i]).0
                <= i64::MAX - 90,
    ensures
        r@ == long_passages(passages(buckets@)),
{
    let ghost all = buckets@;
    let mut found: Vec<ClipInterval> = Vec::new();
    let mut active: Option<(i64, i64, i64)> = None;
    let mut prev: Option<i64> = None;
    let mut i: usize = 0;
    assert(all.take(0) =~= Seq::<(i64, i64)>::empty());
    assert(found@ =~= Seq::<ClipInterval>::empty());
    while i < buckets.len()
        invariant
            i <= buckets@.len(),
            all == buckets@,
            forall|k: int|
                0 <= k < buckets@.len() ==> i64::MIN + 30 <= (#[trigger] buckets@[k]).0
                    <= i64::MAX - 90,
            scan(all.take(i as int)) == (Scan { done: found@, active, prev }),
            forall|k: int| 0 <= k < found@.len() ==> in_range(#[trigger] found@[k]),
            active matches Some(a) ==> i64::MIN + 30 <= a.0,
            active is Some ==> i > 0,
        decreases buckets.len() - i,
    {
        assert(all.take(i + 1).drop_last() =~= all.take(i as int));
        assert(all.take(i + 1).last() == all[i as int]);
        let start_of_minute: i64 = buckets[i].0;
        let count: i64 = buckets[i].1;
        match active {
            Some((start, peak, last)) => {
                let next_peak: i64 = if peak > count {
                    peak
                } else {
                    count
                };
                if last > 0 && 4 * (count as i128) <= 3 * (last as i128) {
                    found.push(
                        ClipInterval {
                            start_offset: start,
                            end_offset: start_of_minute + 60,
                            peak_count: next_peak,
                        },
                    );
                    active = None;
                } else {
                    active = Some((start, next_peak, count));
                }
            },
            None => {
                if let Some(p) = prev {
                    let begins: bool = if p == 0 {
                        count > 0
                    } else {
                        2 * (count as i128) >= 5 * (p as i128)
                    };
                    if begins {
                        active = Some((start_of_minute, count, count));
                    }
                }
            },
        }
        prev = Some(count);
        i += 1;
    }
    assert(all.take(i as int) =~= all);
    if let Some((start, peak, _)) = active {
        let last: i64 = buckets[buckets.len() - 1].0;
        found.push(ClipInterval { start_offset: start, end_offset: last + 60, peak_count: peak });
    }
    assert(found@ == passages(buckets@));
    let mut out: Vec<ClipInterval> = Vec::new();
    let mut j: usize = 0;
    assert(found@.take(0) =~= Seq::<ClipInterval>::empty());
    while j < found.len()
        invariant
            j <= found@.len(),
            forall|k: int| 0 <= k < found@.len() ==> in_range(#[trigger] found@[k]),
            out@ == long_passages(found@.take(j as int)),
        decreases found.len() - j,
    {
        assert(found@.take(j + 1).drop_last() =~= found@.take(j as int));
        assert(found@.take(j + 1).last() == found@[j as int]);
        let p = found[j];
        let start: i64 = if p.start_offset - 30 > 0 {
            p.start_offset - 30
        } else {
            0
        };
        let end: i64 = p.end_offset + 30;
        if end as i128 - start as i128 >= 60 {
            out.push(
                ClipInterval { start_offset: start, end_offset: end, peak_count: p.peak_count },
            );
        }
        j += 1;
    }
    assert(found@.take(j as int) =~= found@);
    out
}

// ---------------------------------------------------------------------------
// Windows

/// The numbers that are not negative.
pub open spec fn not_negative(s: Seq<i64>) -> Seq<i64>
    decreases s.len(),
{
    if s.len() == 0 {
        Seq::empty()
    } else if s.last() >= 0 {
        not_negative(s.drop_last()).push(s.last())
    } else {
        not_negative(s.drop_last())
    }
}

/// How many comments there are from one second up to another.
pub open spec fn density(times: Seq<(i64, i64)>, start: int, end: int) -> int
    decreases times.len(),
{
    if times.len() == 0 {
        0
    } else {
        density(times.drop_last(), start, end) + if start <= times.last().0 < end {
            times.last().1 as int
        } else {
            0
        }
    }
}

/// Windows over the comments from an entry on: where each begins, and how many comments it
/// holds.
pub open spec fn windows_from(
    times: Seq<(i64, i64)>,
    window: i64,
    step: int,
    i: int,
) -> Seq<(i64, i64)>
    decreases
            (if i < times.len() {
                times.len() - i
            } else {
                0
            }),
{
    if i < 0 || i >= times.len() || step <= 0 {
        Seq::empty()
    } else {
        seq![(times[i].0, density(times, times[i].0 as int, times[i].0 + window) as i64)]
            + windows_from(times, window, step, i + step)
    }
}

/// How many leading windows hold at least as many comments.
pub open spec fn dense_place(s: Seq<(i64, i64)>, count: i64) -> int
    decreases s.len(),
{
    if s.len() == 0 || s[0].1 < count {
        0
    } else {
        1 + dense_place(s.drop_first(), count)
    }
}

/// The windows from the densest down; equally dense ones keep their order.
pub open spec fn densest_first(s: Seq<(i64, i64)>) -> Seq<(i64, i64)>
    decreases s.len(),
{
    if s.len() == 0 {
        Seq::empty()
    } else {
        let rest = densest_first(s.drop_last());
        rest.insert(dense_place(rest, s.last().1), s.last())
    }
}

/// How many seconds two windows share.
pub open spec fn overlap(a: i64, b: i64, window: i64) -> int {
    if a <= b {
        a + window - b
    } else {
        b + window - a
    }
}

/// Tells whether a window overlaps none of others too much.
pub open spec fn stands_apart(
    chosen: Seq<(i64, i64)>,
    start: i64,
    window: i64,
    max_overlap: i64,
) -> bool {
    forall|k: int|
        0 <= k < chosen.len() ==> overlap((#[trigger] chosen[k]).0, start, window) <= max_overlap
}

/// The first windows of a list that stand apart, up to a number.
pub open spec fn chosen_windows(
    s: Seq<(i64, i64)>,
    window: i64,
    max_overlap: i64,
    top_n: int,
) -> Seq<(i64, i64)>
    decreases s.len(),
{
    if s.len() == 0 {
        Seq::empty()
    } else {
        let chosen = chosen_windows(s.drop_last(), window, max_overlap, top_n);
        if chosen.len() < top_n && stands_apart(chosen, s.last().0, window, max_overlap) {
            chosen.push(s.last())
        } else {
            chosen
        }
    }
}

/// A window with half a minute on either side.
pub open spec fn window_passage(w: (i64, i64), window: i64) -> ClipInterval {
    let start = larger((w.0 - 30) as i64, 0);
    ClipInterval {
        start_offset: start,
        end_offset: larger((w.0 + window + 30) as i64, start),
        peak_count: w.1,
    }
}

/// The passages of windows, those of at least a minute.
pub open spec fn window_passages(s: Seq<(i64, i64)>, window: i64) -> Seq<ClipInterval>
    decreases s.len(),
{
    if s.len() == 0 {
        Seq::empty()
    } else {
        let rest = window_passages(s.drop_last(), window);
        let p = window_passage(s.last(), window);
        if p.end_offset - p.start_offset >= 60 {
            rest.push(p)
        } else {
            rest
        }
    }
}

/// The densest passages of a given length that stand apart.
pub open spec fn dense_passages(
    offsets: Seq<i64>,
    window: i64,
    top_n: int,
    max_overlap: i64,
    step: int,
) -> Seq<ClipInterval> {
    if window <= 0 || top_n <= 0 || step <= 0 {
        Seq::empty()
    } else {
        let times = counts(not_negative(offsets));
        let windows = densest_first(windows_from(times, window, step, 0));
        window_passages(chosen_windows(windows, window, max_overlap, top_n), window)
    }
}

proof fn lemma_dense_place(s: Seq<(i64, i64)>, count: i64, p: int)
    requires
        0 <= p <= s.len(),
        forall|k: int| 0 <= k < p ==> (#[trigger] s[k]).1 >= count,
        p < s.len() ==> s[p].1 < count,
    ensures
        dense_place(s, count) == p,
    decreases s.len(),
{
    if p > 0 {
        assert(s[0].1 >= count);
        let t = s.drop_first();
        assert forall|k: int| 0 <= k < p - 1 implies (#[trigger] t[k]).1 >= count by {
            assert(t[k] == s[k + 1]);
        }
        lemma_dense_place(t, count, p - 1);
    }
}

proof fn lemma_density(times: Seq<(i64, i64)>, start: int, end: int)
    requires
        forall|i: int| 0 <= i < times.len() ==> (#[trigger] times[i]).1 >= 1,
    ensures
        0 <= density(times, start, end) <= total(times),
    decreases times.len(),
{
    if times.len() > 0 {
        let rest = times.drop_last();
        assert forall|i: int| 0 <= i < rest.len() implies (#[trigger] rest[i]).1 >= 1 by {
            assert(rest[i] == times[i]);
        }
        assert(times[times.len() - 1].1 >= 1);
        lemma_density(rest, start, end);
    }
}

/// A sum of counts does not shrink with more of them.
proof fn lemma_total_prefix(s: Seq<(i64, i64)>, n: int)
    requires
        0 <= n <= s.len(),
        forall|i: int| 0 <= i < s.len() ==> (#[trigger] s[i]).1 >= 1,
    ensures
        total(s.take(n)) <= total(s),
    decreases s.len() - n,
{
    if n < s.len() {
        lemma_total_prefix(s, n + 1);
        assert(s.take(n + 1).drop_last() =~= s.take(n));
        assert(s.take(n + 1).last() == s[n]);
    } else {
        assert(s.take(n) =~= s);
    }
}

fn window_density(times: &Vec<(i64, i64)>, start: i64, end: i64) -> (r: i64)
    requires
        forall|i: int| 0 <= i < times@.len() ==> (#[trigger] times@[i]).1 >= 1,
        total(times@) <= i64::MAX,
    ensures
        r == density(times@, start as int, end as int),
{
    let ghost all = times@;
    let mut sum: i64 = 0;
    let mut j: usize = 0;
    assert(all.take(0) =~= Seq::<(i64, i64)>::empty());
    while j < times.len()
        invariant
            j <= times@.len(),
            all == times@,
            forall|i: int| 0 <= i < all.len() ==> (#[trigger] all[i]).1 >= 1,
            total(all) <= i64::MAX,
            sum == density(all.take(j as int), start as int, end as int),
        decreases times.len() - j,
    {
        proof {
            let next = all.take(j + 1);
            assert(next.drop_last() =~= all.take(j as int));
            assert(next.last() == all[j as int]);
            assert forall|i: int| 0 <= i < next.len() implies (#[trigger] next[i]).1 >= 1 by {
                assert(next[i] == all[i]);
            }
            lemma_density(next, start as int, end as int);
            lemma_total_prefix(all, j + 1);
        }
        if start <= times[j].0 && times[j].0 < end {
            sum = sum + times[j].1;
        }
        j += 1;
    }
    assert(all.take(j as int) =~= all);
    sum
}

fn insert_dense(s: &mut Vec<(i64, i64)>, w: (i64, i64))
    ensures
        final(s)@ == old(s)@.insert(dense_place(old(s)@, w.1), w),
{
    let ghost before = s@;
    let mut at: usize = 0;
    while at < s.len() && s[at].1 >= w.1
        invariant
            at <= s@.len(),
            s@ == before,
            forall|k: int| 0 <= k < at ==> (#[trigger] before[k]).1 >= w.1,
        decreases s.len() - at,
    {
        at += 1;
    }
    proof {
        lemma_dense_place(before, w.1, at as int);
    }
    s.insert(at, w);
}

fn fits_among(chosen: &Vec<(i64, i64)>, start: i64, window: i64, max_overlap: i64) -> (r: bool)
    ensures
        r == stands_apart(chosen@, start, window, max_overlap),
{
    let mut k: usize = 0;
    while k < chosen.len()
        invariant
            k <= chosen@.len(),
            forall|i: int|
                0 <= i < k ==> overlap((#[trigger] chosen@[i]).0, start, window) <= max_overlap,
        decreases chosen.len() - k,
    {
        let a: i64 = chosen[k].0;
        let shared: i128 = if a <= start {
            a as i128 + window as i128 - start as i128
        } else {
            start as i128 + window as i128 - a as i128
        };
        if shared > max_overlap as i128 {
            assert(overlap(chosen@[k as int].0, start, window) > max_overlap);
            return false;
        }
        k += 1;
    }
    true
}

/// The windows over the comments, from the densest down.
fn sorted_windows(times: &Vec<(i64, i64)>, window_size: i64, step: usize) -> (r: Vec<(i64, i64)>)
    requires
        window_size > 0,
        step > 0,
        forall|i: int| 0 <= i < times@.len() ==> (#[trigger] times@[i]).1 >= 1,
        forall|i: int|
            0 <= i < times@.len() ==> 0 <= (#[trigger] times@[i]).0 <= i64::MAX - window_size - 30,
        total(times@) <= i64::MAX,
    ensures
        r@ == densest_first(windows_from(times@, window_size, step as int, 0)),
        forall|i: int| 0 <= i < r@.len() ==> 0 <= (#[trigger] r@[i]).0 <= i64::MAX - window_size - 30,
{
    let ghost all = windows_from(times@, window_size, step as int, 0);
    let ghost mut seen = Seq::<(i64, i64)>::empty();
    let mut out: Vec<(i64, i64)> = Vec::new();
    let mut i: usize = 0;
    assert(seen + all =~= all);
    while i < times.len()
        invariant
            window_size > 0,
            step > 0,
            forall|k: int| 0 <= k < times@.len() ==> (#[trigger] times@[k]).1 >= 1,
            forall|k: int|
                0 <= k < times@.len() ==> 0 <= (#[trigger] times@[k]).0 <= i64::MAX - window_size
                    - 30,
            total(times@) <= i64::MAX,
            all == windows_from(times@, window_size, step as int, 0),
            seen + windows_from(times@, window_size, step as int, i as int) == all,
            out@ == densest_first(seen),
            forall|k: int|
                0 <= k < out@.len() ==> 0 <= (#[trigger] out@[k]).0 <= i64::MAX - window_size - 30,
        decreases times.len() - i,
    {
        let start: i64 = times[i].0;
        let end: i64 = start + window_size;
        let count: i64 = window_density(times, start, end);
        let ghost before = out@;
        let ghost rest = windows_from(times@, window_size, step as int, i + step);
        insert_dense(&mut out, (start, count));
        proof {
            lemma_dense_bounds(before, count);
            assert(seen.push((start, count)).drop_last() =~= seen);
            let p = dense_place(before, count);
            assert forall|k: int| 0 <= k < out@.len() implies 0 <= (#[trigger] out@[k]).0
                <= i64::MAX - window_size - 30 by {
                if k < p {
                    assert(out@[k] == before[k]);
                } else if k > p {
                    assert(out@[k] == before[k - 1]);
                }
            }
            assert(seen.push((start, count)) + rest =~= all);
            seen = seen.push((start, count));
        }
        if step >= times.len() - i {
            i = times.len();
            assert(rest =~= Seq::<(i64, i64)>::empty());
            assert(windows_from(times@, window_size, step as int, i as int) =~= rest);
        } else {
            i += step;
        }
    }
    assert(windows_from(times@, window_size, step as int, i as int) =~= Seq::<(i64, i64)>::empty());
    assert(seen =~= all);
    out
}

proof fn lemma_dense_bounds(s: Seq<(i64, i64)>, count: i64)
    ensures
        0 <= dense_place(s, count) <= s.len(),
    decreases s.len(),
{
    if s.len() > 0 {
        lemma_dense_bounds(s.drop_first(), count);
    }
}

/// The densest passages of a given length that overlap each other little, with half a minute on
/// either side.
pub fn compute_sliding_intervals(
    timestamps: &[i64],
    window_size: i64,
    top_n: usize,
    max_overlap: i64,
    step: usize,
) -> (r: Vec<ClipInterval>)
    requires
        timestamps@.len() <= i64::MAX,
        window_size > 0 ==> forall|i: int|
            0 <= i < timestamps@.len() ==> #[trigger] timestamps@[i] <= i64::MAX - window_size - 30,
    ensures
        r@ == dense_passages(timestamps@, window_size, top_n as int, max_overlap, step as int),
{
    if window_size <= 0 || top_n == 0 || step == 0 {
        return Vec::new();
    }
    let ghost all = timestamps@;
    let mut times: Vec<(i64, i64)> = Vec::new();
    let mut i: usize = 0;
    assert(all.take(0) =~= Seq::<i64>::empty());
    while i < timestamps.len()
        invariant
            i <= timestamps@.len(),
            all == timestamps@,
            all.len() <= i64::MAX,
            window_size > 0,
            forall|k: int|
                0 <= k < timestamps@.len() ==> #[trigger] timestamps@[k] <= i64::MAX - window_size
                    - 30,
            times@ == counts(not_negative(all.take(i as int))),
            not_negative(all.take(i as int)).len() <= i,
            forall|k: int|
                0 <= k < not_negative(all.take(i as int)).len() ==> 0 <= #[trigger] not_negative(
                    all.take(i as int),
                )[k] <= i64::MAX - window_size - 30,
        decreases timestamps.len() - i,
    {
        let ts: i64 = timestamps[i];
        let ghost keys = not_negative(all.take(i as int));
        proof {
            assert(all.take(i + 1).drop_last() =~= all.take(i as int));
            assert(all.take(i + 1).last() == ts);
            lemma_counts(keys, 0);
            assert forall|k: int| 0 <= k < times@.len() implies (#[trigger] times@[k]).1
                < i64::MAX by {
                lemma_total_bounds(times@, k);
            }
        }
        if ts >= 0 {
            count_up(&mut times, ts);
            proof {
                assert(keys.push(ts).drop_last() =~= keys);
                let next = keys.push(ts);
                assert forall|k: int| 0 <= k < next.len() implies 0 <= #[trigger] next[k]
                    <= i64::MAX - window_size - 30 by {
                    if k < keys.len() {
                        assert(next[k] == keys[k]);
                    }
                }
            }
        }
        i += 1;
    }
    assert(all.take(i as int) =~= all);
    proof {
        lemma_counts(not_negative(all), 0);
        lemma_count_keys(not_negative(all), 0, i64::MAX - window_size - 30);
    }
    let windows = sorted_windows(&times, window_size, step);
    let ghost sorted = windows@;
    let mut chosen: Vec<(i64, i64)> = Vec::new();
    let mut j: usize = 0;
    assert(sorted.take(0) =~= Seq::<(i64, i64)>::empty());
    while j < windows.len()
        invariant
            j <= windows@.len(),
            sorted == windows@,
            forall|k: int|
                0 <= k < sorted.len() ==> 0 <= (#[trigger] sorted[k]).0 <= i64::MAX - window_size
                    - 30,
            chosen@ == chosen_windows(sorted.take(j as int), window_size, max_overlap, top_n as int),
            forall|k: int|
                0 <= k < chosen@.len() ==> 0 <= (#[trigger] chosen@[k]).0 <= i64::MAX - window_size
                    - 30,
        decreases windows.len() - j,
    {
        assert(sorted.take(j + 1).drop_last() =~= sorted.take(j as int));
        assert(sorted.take(j + 1).last() == sorted[j as int]);
        if chosen.len() < top_n && fits_among(&chosen, windows[j].0, window_size, max_overlap) {
            let ghost before = chosen@;
            chosen.push(windows[j]);
            assert forall|k: int| 0 <= k < chosen@.len() implies 0 <= (#[trigger] chosen@[k]).0
                <= i64::MAX - window_size - 30 by {
                if k < before.len() {
                    assert(chosen@[k] == before[k]);
                }
            }
        }
        j += 1;
    }
    assert(sorted.take(j as int) =~= sorted);
    let mut out: Vec<ClipInterval> = Vec::new();
    let mut n: usize = 0;
    assert(chosen@.take(0) =~= Seq::<(i64, i64)>::empty());
    while n < chosen.len()
        invariant
            n <= chosen@.len(),
            window_size > 0,
            forall|k: int|
                0 <= k < chosen@.len() ==> 0 <= (#[trigger] chosen@[k]).0 <= i64::MAX - window_size
                    - 30,
            out@ == window_passages(chosen@.take(n as int), window_size),
        decreases chosen.len() - n,
    {
        assert(chosen@.take(n + 1).drop_last() =~= chosen@.take(n as int));
        assert(chosen@.take(n + 1).last() == chosen@[n as int]);
        let begin: i64 = chosen[n].0;
        let start: i64 = if begin - 30 > 0 {
            begin - 30
        } else {
            0
        };
        let end: i64 = begin + window_size + 30;
        if end as i128 - start as i128 >= 60 {
            out.push(
                ClipInterval { start_offset: start, end_offset: end, peak_count: chosen[n].1 },
            );
        }
        n += 1;
    }
    assert(chosen@.take(n as int) =~= chosen@);
    out
}

/// No two chosen windows overlap by more than allowed, and no more are chosen than asked for.
pub proof fn law_windows_apart(
    s: Seq<(i64, i64)>,
    window: i64,
    max_overlap: i64,
    top_n: int,
    i: int,
    j: int,
)
    requires
        top_n >= 0,
        0 <= i < j < chosen_windows(s, window, max_overlap, top_n).len(),
    ensures
        chosen_windows(s, window, max_overlap, top_n).len() <= top_n,
        overlap(
            chosen_windows(s, window, max_overlap, top_n)[i].0,
            chosen_windows(s, window, max_overlap, top_n)[j].0,
            window,
        ) <= max_overlap,
    decreases s.len(),
{
    let rest = s.drop_last();
    let before = chosen_windows(rest, window, max_overlap, top_n);
    let after = chosen_windows(s, window, max_overlap, top_n);
    lemma_chosen_count(s, window, max_overlap, top_n);
    if j < before.len() {
        law_windows_apart(rest, window, max_overlap, top_n, i, j);
        assert(after[i] == before[i]);
        assert(after[j] == before[j]);
    } else {
        assert(after[i] == before[i]);
        assert(after[j] == s.last());
    }
}

proof fn lemma_chosen_count(s: Seq<(i64, i64)>, window: i64, max_overlap: i64, top_n: int)
    requires
        top_n >= 0,
    ensures
        chosen_windows(s, window, max_overlap, top_n).len() <= top_n,
    decreases s.len(),
{
    if s.len() > 0 {
        lemma_chosen_count(s.drop_last(), window, max_overlap, top_n);
    }
}

/// Tells whether windows are in order, from the densest down.
pub open spec fn falling(s: Seq<(i64, i64)>) -> bool {
    forall|i: int, j: int| 0 <= i <= j < s.len() ==> s[i].1 >= s[j].1
}

proof fn lemma_dense_order(s: Seq<(i64, i64)>, count: i64)
    requires
        falling(s),
    ensures
        0 <= dense_place(s, count) <= s.len(),
        forall|k: int| 0 <= k < dense_place(s, count) ==> (#[trigger] s[k]).1 >= count,
        forall|k: int| dense_place(s, count) <= k < s.len() ==> (#[trigger] s[k]).1 < count,
    decreases s.len(),
{
    if s.len() > 0 && s[0].1 >= count {
        let t = s.drop_first();
        assert(falling(t)) by {
            assert forall|i: int, j: int| 0 <= i <= j < t.len() implies t[i].1 >= t[j].1 by {
                assert(s[i + 1].1 >= s[j + 1].1);
            }
        }
        lemma_dense_order(t, count);
        assert forall|k: int| 0 <= k < dense_place(s, count) implies (#[trigger] s[k]).1
            >= count by {
            if k > 0 {
                assert(s[k] == t[k - 1]);
            }
        }
        assert forall|k: int| dense_place(s, count) <= k < s.len() implies (#[trigger] s[k]).1
            < count by {
            assert(s[k] == t[k - 1]);
        }
    } else if s.len() > 0 {
        assert forall|k: int| 0 <= k < s.len() implies (#[trigger] s[k]).1 < count by {
            assert(s[0].1 >= s[k].1);
        }
    }
}

proof fn lemma_densest_first(s: Seq<(i64, i64)>)
    ensures
        falling(densest_first(s)),
        densest_first(s).len() == s.len(),
        forall|k: int| 0 <= k < s.len() ==> densest_first(s).contains(#[trigger] s[k]),
        forall|k: int| 0 <= k < s.len() ==> s.contains(#[trigger] densest_first(s)[k]),
    decreases s.len(),
{
    if s.len() > 0 {
        let rest = s.drop_last();
        let t = densest_first(rest);
        let u = densest_first(s);
        let p = dense_place(t, s.last().1);
        lemma_densest_first(rest);
        lemma_dense_order(t, s.last().1);
        assert forall|i: int, j: int| 0 <= i <= j < u.len() implies u[i].1 >= u[j].1 by {
            if i < p && j > p {
                assert(t[i].1 >= t[j - 1].1);
            } else if i > p {
                assert(t[i - 1].1 >= t[j - 1].1);
            } else if j < p {
                assert(t[i].1 >= t[j].1);
            } else if i == p && j > p {
                assert(t[j - 1].1 < s.last().1);
            } else if i < p && j == p {
                assert(t[i].1 >= s.last().1);
            }
        }
        assert forall|k: int| 0 <= k < s.len() implies u.contains(#[trigger] s[k]) by {
            if k < rest.len() {
                assert(t.contains(rest[k]));
                let m = choose|m: int| 0 <= m < t.len() && t[m] == s[k];
                if m < p {
                    assert(u[m] == s[k]);
                } else {
                    assert(u[m + 1] == s[k]);
                }
            } else {
                assert(u[p] == s[k]);
            }
        }
        assert forall|k: int| 0 <= k < s.len() implies s.contains(#[trigger] u[k]) by {
            if k == p {
                assert(s[s.len() - 1] == u[k]);
            } else {
                let q = if k < p {
                    k
                } else {
                    k - 1
                };
                assert(t[q] == u[k]);
                assert(rest.contains(t[q]));
                let m = choose|m: int| 0 <= m < rest.len() && rest[m] == t[q];
                assert(s[m] == u[k]);
            }
        }
    }
}

proof fn lemma_first_chosen(s: Seq<(i64, i64)>, window: i64, max_overlap: i64, top_n: int)
    requires
        s.len() > 0,
        top_n > 0,
    ensures
        chosen_windows(s, window, max_overlap, top_n).len() > 0,
        chosen_windows(s, window, max_overlap, top_n)[0] == s[0],
    decreases s.len(),
{
    if s.len() > 1 {
        lemma_first_chosen(s.drop_last(), window, max_overlap, top_n);
    } else {
        assert(chosen_windows(s.drop_last(), window, max_overlap, top_n).len() == 0);
    }
}

/// Where there are windows and some are asked for, the first that is chosen is one of them, and
/// none of them holds more comments.
pub proof fn law_densest_comes_first(
    windows: Seq<(i64, i64)>,
    window: i64,
    max_overlap: i64,
    top_n: int,
    k: int,
)
    requires
        0 <= k < windows.len(),
        top_n > 0,
    ensures
        ({
            let chosen = chosen_windows(densest_first(windows), window, max_overlap, top_n);
            &&& chosen.len() > 0
            &&& windows.contains(chosen[0])
            &&& windows[k].1 <= chosen[0].1
        }),
{
    let sorted = densest_first(windows);
    lemma_densest_first(windows);
    lemma_first_chosen(sorted, window, max_overlap, top_n);
    assert(sorted.contains(windows[k]));
    let m = choose|m: int| 0 <= m < sorted.len() && sorted[m] == windows[k];
    assert(sorted[0].1 >= sorted[m].1);
    assert(windows.contains(sorted[0]));
}

// ---------------------------------------------------------------------------
// Merging

/// How many leading passages begin at or before a second.
pub open spec fn start_place(s: Seq<ClipInterval>, start: i64) -> int
    decreases s.len(),
{
    if s.len() == 0 || s[0].start_offset > start {
        0
    } else {
        1 + start_place(s.drop_first(), start)
    }
}

/// Passages by their beginnings; those that begin together keep their order.
pub open spec fn by_start(s: Seq<ClipInterval>) -> Seq<ClipInterval>
    decreases s.len(),
{
    if s.len() == 0 {
        Seq::empty()
    } else {
        let rest = by_start(s.drop_last());
        rest.insert(start_place(rest, s.last().start_offset), s.last())
    }
}

/// Passages that ended, and one that may still grow.
pub ghost struct Merge {
    pub done: Seq<ClipInterval>,
    pub current: ClipInterval,
}

/// What one more passage, that begins no earlier, makes of others.
pub open spec fn merge_step(m: Merge, p: ClipInterval) -> Merge {
    if p.start_offset <= m.current.end_offset {
        Merge {
            done: m.done,
            current: ClipInterval {
                start_offset: m.current.start_offset,
                end_offset: larger(m.current.end_offset, p.end_offset),
                peak_count: larger(m.current.peak_count, p.peak_count),
            },
        }
    } else {
        Merge { done: m.done.push(m.current), current: p }
    }
}

/// What passages in order make.
pub open spec fn merge_all(s: Seq<ClipInterval>) -> Merge
    decreases s.len(),
{
    if s.len() <= 1 {
        Merge { done: Seq::empty(), current: s[0] }
    } else {
        merge_step(merge_all(s.drop_last()), s.last())
    }
}

/// Passages in order, with those that touch or overlap made one.
pub open spec fn merged(s: Seq<ClipInterval>) -> Seq<ClipInterval> {
    if s.len() == 0 {
        Seq::empty()
    } else {
        merge_all(s).done.push(merge_all(s).current)
    }
}

proof fn lemma_start_place(s: Seq<ClipInterval>, start: i64)
    ensures
        0 <= start_place(s, start) <= s.len(),
        forall|k: int| 0 <= k < start_place(s, start) ==> (#[trigger] s[k]).start_offset <= start,
        start_place(s, start) < s.len() ==> s[start_place(s, start)].start_offset > start,
    decreases s.len(),
{
    if s.len() > 0 && s[0].start_offset <= start {
        lemma_start_place(s.drop_first(), start);
        assert forall|k: int| 0 <= k < start_place(s, start) implies (#[trigger] s[k]).start_offset
            <= start by {
            if k > 0 {
                assert(s[k] == s.drop_first()[k - 1]);
            }
        }
    }
}

fn insert_by_start(s: &mut Vec<ClipInterval>, p: ClipInterval)
    ensures
        final(s)@ == old(s)@.insert(start_place(old(s)@, p.start_offset), p),
{
    let ghost before = s@;
    let mut at: usize = 0;
    proof {
        lemma_start_place(before, p.start_offset);
    }
    while at < s.len() && s[at].start_offset <= p.start_offset
        invariant
            at <= s@.len(),
            s@ == before,
            forall|k: int| 0 <= k < at ==> (#[trigger] before[k]).start_offset <= p.start_offset,
        decreases s.len() - at,
    {
        at += 1;
    }
    assert(at == start_place(before, p.start_offset));
    s.insert(at, p);
}

/// Makes passages that touch or overlap one; the result is in order.
pub fn merge_overlapping_intervals(intervals: &Vec<ClipInterval>) -> (r: Vec<ClipInterval>)
    ensures
        r@ == merged(by_start(intervals@)),
{
    let ghost all = intervals@;
    let mut sorted: Vec<ClipInterval> = Vec::new();
    let mut i: usize = 0;
    assert(all.take(0) =~= Seq::<ClipInterval>::empty());
    while i < intervals.len()
        invariant
            i <= intervals@.len(),
            all == intervals@,
            sorted@ == by_start(all.take(i as int)),
        decreases intervals.len() - i,
    {
        assert(all.take(i + 1).drop_last() =~= all.take(i as int));
        assert(all.take(i + 1).last() == all[i as int]);
        insert_by_start(&mut sorted, intervals[i]);
        i += 1;
    }
    assert(all.take(i as int) =~= all);
    let mut out: Vec<ClipInterval> = Vec::new();
    if sorted.len() == 0 {
        return out;
    }
    let mut current = sorted[0];
    let mut j: usize = 1;
    assert(out@ =~= Seq::<ClipInterval>::empty());
    while j < sorted.len()
        invariant
            1 <= j <= sorted@.len(),
            merge_all(sorted@.take(j as int)) == (Merge { done: out@, current }),
        decreases sorted.len() - j,
    {
        assert(sorted@.take(j + 1).drop_last() =~= sorted@.take(j as int));
        assert(sorted@.take(j + 1).last() == sorted@[j as int]);
        let p = sorted[j];
        if p.start_offset <= current.end_offset {
            if p.end_offset > current.end_offset {
                current.end_offset = p.end_offset;
            }
            if p.peak_count > current.peak_count {
                current.peak_count = p.peak_count;
            }
        } else {
            out.push(current);
            current = p;
        }
        j += 1;
    }
    assert(sorted@.take(j as int) =~= sorted@);
    out.push(current);
    out
}

/// Tells whether one passage lies within another.
pub open spec fn within(p: ClipInterval, q: ClipInterval) -> bool {
    q.start_offset <= p.start_offset && p.end_offset <= q.end_offset && p.peak_count
        <= q.peak_count
}

/// Tells whether passages are in order and a gap parts each from the next.
pub open spec fn parted(s: Seq<ClipInterval>) -> bool {
    forall|i: int, j: int| 0 <= i < j < s.len() ==> s[i].end_offset < s[j].start_offset
}

spec fn in_order(s: Seq<ClipInterval>) -> bool {
    forall|i: int, j: int| 0 <= i <= j < s.len() ==> s[i].start_offset <= s[j].start_offset
}

proof fn lemma_by_start(s: Seq<ClipInterval>)
    ensures
        in_order(by_start(s)),
        by_start(s).len() == s.len(),
        forall|k: int| 0 <= k < s.len() ==> by_start(s).contains(#[trigger] s[k]),
        forall|k: int| 0 <= k < by_start(s).len() ==> s.contains(#[trigger] by_start(s)[k]),
    decreases s.len(),
{
    if s.len() > 0 {
        let rest = s.drop_last();
        let t = by_start(rest);
        let p = start_place(t, s.last().start_offset);
        let u = by_start(s);
        lemma_by_start(rest);
        lemma_start_place(t, s.last().start_offset);
        assert forall|i: int, j: int| 0 <= i <= j < u.len() implies u[i].start_offset
            <= u[j].start_offset by {
            if i < p && j > p {
                assert(t[i].start_offset <= t[j - 1].start_offset);
            } else if i == p && j > p {
                assert(t[p].start_offset <= t[j - 1].start_offset);
            } else if i > p {
                assert(t[i - 1].start_offset <= t[j - 1].start_offset);
            } else if j < p {
                assert(t[i].start_offset <= t[j].start_offset);
            }
        }
        assert forall|k: int| 0 <= k < s.len() implies u.contains(#[trigger] s[k]) by {
            if k < rest.len() {
                assert(rest[k] == s[k]);
                assert(t.contains(rest[k]));
                let m = choose|m: int| 0 <= m < t.len() && t[m] == s[k];
                if m < p {
                    assert(u[m] == s[k]);
                } else {
                    assert(u[m + 1] == s[k]);
                }
            } else {
                assert(u[p] == s[k]);
            }
        }
        assert forall|k: int| 0 <= k < u.len() implies s.contains(#[trigger] u[k]) by {
            if k == p {
                assert(s[s.len() - 1] == u[k]);
            } else {
                let q = if k < p {
                    k
                } else {
                    k - 1
                };
                assert(t[q] == u[k]);
                assert(rest.contains(t[q]));
                let m = choose|m: int| 0 <= m < rest.len() && rest[m] == t[q];
                assert(s[m] == u[k]);
            }
        }
    }
}

proof fn lemma_merge_all(s: Seq<ClipInterval>)
    requires
        s.len() > 0,
        in_order(s),
        forall|k: int| 0 <= k < s.len() ==> (#[trigger] s[k]).start_offset <= s[k].end_offset,
    ensures
        ({
            let m = merge_all(s);
            &&& parted(m.done.push(m.current))
            &&& m.current.start_offset <= m.current.end_offset
            &&& m.current.start_offset <= s.last().start_offset
            &&& forall|k: int|
                0 <= k < m.done.len() ==> (#[trigger] m.done[k]).start_offset
                    <= m.done[k].end_offset
            &&& forall|k: int|
                0 <= k < s.len() ==> within(#[trigger] s[k], m.current) || exists|j: int|
                    0 <= j < m.done.len() && within(s[k], #[trigger] m.done[j])
        }),
    decreases s.len(),
{
    let m = merge_all(s);
    if s.len() > 1 {
        let rest = s.drop_last();
        let b = merge_all(rest);
        assert forall|k: int| 0 <= k < rest.len() implies (#[trigger] rest[k]).start_offset
            <= rest[k].end_offset by {
            assert(rest[k] == s[k]);
        }
        assert(in_order(rest)) by {
            assert forall|i: int, j: int| 0 <= i <= j < rest.len() implies rest[i].start_offset
                <= rest[j].start_offset by {
                assert(rest[i] == s[i] && rest[j] == s[j]);
            }
        }
        lemma_merge_all(rest);
        assert(rest.last() == s[s.len() - 2]);
        assert(s[s.len() - 2].start_offset <= s[s.len() - 1].start_offset);
        let bs = b.done.push(b.current);
        let ms = m.done.push(m.current);
        let p = s.last();
        assert(p == s[s.len() - 1]);
        assert forall|i: int, j: int| 0 <= i < j < ms.len() implies ms[i].end_offset
            < ms[j].start_offset by {
            if p.start_offset <= b.current.end_offset {
                assert(bs[i].end_offset < bs[j].start_offset);
                assert(ms[i] == bs[i]);
            } else if j < ms.len() - 1 {
                assert(ms[i] == bs[i] && ms[j] == bs[j]);
                assert(bs[i].end_offset < bs[j].start_offset);
            } else {
                assert(ms[i] == bs[i]);
                if i < bs.len() - 1 {
                    assert(bs[i].end_offset < bs[bs.len() - 1].start_offset);
                }
            }
        }
        assert forall|k: int| 0 <= k < m.done.len() implies (#[trigger] m.done[k]).start_offset
            <= m.done[k].end_offset by {
            if k < b.done.len() {
                assert(m.done[k] == b.done[k]);
            }
        }
        assert forall|k: int| 0 <= k < s.len() implies within(#[trigger] s[k], m.current) || exists|
            j: int,
        | 0 <= j < m.done.len() && within(s[k], #[trigger] m.done[j]) by {
            if k < rest.len() {
                assert(rest[k] == s[k]);
                if within(s[k], b.current) {
                    if p.start_offset > b.current.end_offset {
                        assert(m.done[b.done.len() as int] == b.current);
                    }
                } else {
                    let j = choose|j: int|
                        0 <= j < b.done.len() && within(s[k], #[trigger] b.done[j]);
                    assert(m.done[j] == b.done[j]);
                }
            }
        }
    } else {
        assert(s[0] == s.last());
    }
}

/// Tells whether the seconds of one passage lie within those of another.
pub open spec fn inside(p: ClipInterval, q: ClipInterval) -> bool {
    q.start_offset <= p.start_offset && p.end_offset <= q.end_offset
}

/// Tells whether a passage is no larger than some of those inside it make it: one of them begins
/// where it begins, one ends where it ends, and one has its peak.
pub open spec fn tight(s: Seq<ClipInterval>, q: ClipInterval) -> bool {
    &&& exists|k: int|
        0 <= k < s.len() && inside(#[trigger] s[k], q) && s[k].start_offset == q.start_offset
    &&& exists|k: int|
        0 <= k < s.len() && inside(#[trigger] s[k], q) && s[k].end_offset == q.end_offset
    &&& exists|k: int|
        0 <= k < s.len() && inside(#[trigger] s[k], q) && s[k].peak_count == q.peak_count
}

/// Tells whether a passage lies within exactly one of others.
pub open spec fn in_one(p: ClipInterval, s: Seq<ClipInterval>) -> bool {
    &&& exists|j: int| 0 <= j < s.len() && inside(p, #[trigger] s[j])
    &&& forall|i: int, j: int|
        0 <= i < s.len() && 0 <= j < s.len() && inside(p, #[trigger] s[i]) && inside(
            p,
            #[trigger] s[j],
        ) ==> i == j
}

/// A passage that is tight stays so where there are more passages.
proof fn lemma_tight_grows(s: Seq<ClipInterval>, p: ClipInterval, q: ClipInterval)
    requires
        tight(s, q),
    ensures
        tight(s.push(p), q),
{
    let t = s.push(p);
    let a = choose|k: int|
        0 <= k < s.len() && inside(#[trigger] s[k], q) && s[k].start_offset == q.start_offset;
    let b = choose|k: int|
        0 <= k < s.len() && inside(#[trigger] s[k], q) && s[k].end_offset == q.end_offset;
    let c = choose|k: int|
        0 <= k < s.len() && inside(#[trigger] s[k], q) && s[k].peak_count == q.peak_count;
    assert(t[a] == s[a] && t[b] == s[b] && t[c] == s[c]);
}

proof fn lemma_merge_tight(s: Seq<ClipInterval>)
    requires
        s.len() > 0,
        in_order(s),
        forall|k: int| 0 <= k < s.len() ==> (#[trigger] s[k]).start_offset <= s[k].end_offset,
    ensures
        tight(s, merge_all(s).current),
        forall|j: int|
            0 <= j < merge_all(s).done.len() ==> tight(s, #[trigger] merge_all(s).done[j]),
    decreases s.len(),
{
    let m = merge_all(s);
    if s.len() == 1 {
        assert(inside(s[0], m.current));
    } else {
        let rest = s.drop_last();
        let b = merge_all(rest);
        let p = s.last();
        let n = s.len() - 1;
        assert forall|k: int| 0 <= k < rest.len() implies (#[trigger] rest[k]).start_offset
            <= rest[k].end_offset by {
            assert(rest[k] == s[k]);
        }
        assert(in_order(rest)) by {
            assert forall|i: int, j: int| 0 <= i <= j < rest.len() implies rest[i].start_offset
                <= rest[j].start_offset by {
                assert(rest[i] == s[i] && rest[j] == s[j]);
            }
        }
        lemma_merge_tight(rest);
        lemma_merge_all(rest);
        assert(s =~= rest.push(p));
        assert(rest.last() == s[n - 1]);
        assert(s[n - 1].start_offset <= s[n].start_offset);
        lemma_tight_grows(rest, p, b.current);
        assert forall|j: int| 0 <= j < m.done.len() implies tight(s, #[trigger] m.done[j]) by {
            if j < b.done.len() {
                assert(m.done[j] == b.done[j]);
                lemma_tight_grows(rest, p, b.done[j]);
            } else {
                assert(m.done[j] == b.current);
            }
        }
        if p.start_offset <= b.current.end_offset {
            let x = choose|k: int|
                0 <= k < s.len() && inside(#[trigger] s[k], b.current) && s[k].start_offset
                    == b.current.start_offset;
            let y = choose|k: int|
                0 <= k < s.len() && inside(#[trigger] s[k], b.current) && s[k].end_offset
                    == b.current.end_offset;
            let z = choose|k: int|
                0 <= k < s.len() && inside(#[trigger] s[k], b.current) && s[k].peak_count
                    == b.current.peak_count;
            assert(inside(s[x], m.current));
            assert(inside(s[y], m.current));
            assert(inside(s[z], m.current));
            assert(inside(s[n], m.current));
        } else {
            assert(inside(s[n], m.current));
        }
    }
}

/// Passages that a gap parts are in order already, and stay as they are.
proof fn lemma_parted_stays(s: Seq<ClipInterval>)
    requires
        parted(s),
        forall|k: int| 0 <= k < s.len() ==> (#[trigger] s[k]).start_offset <= s[k].end_offset,
    ensures
        by_start(s) == s,
        merged(s) == s,
    decreases s.len(),
{
    if s.len() > 0 {
        let rest = s.drop_last();
        let p = s.last();
        assert(parted(rest)) by {
            assert forall|i: int, j: int| 0 <= i < j < rest.len() implies rest[i].end_offset
                < rest[j].start_offset by {
                assert(s[i].end_offset < s[j].start_offset);
            }
        }
        assert forall|k: int| 0 <= k < rest.len() implies (#[trigger] rest[k]).start_offset
            <= rest[k].end_offset by {
            assert(rest[k] == s[k]);
        }
        lemma_parted_stays(rest);
        lemma_start_place(rest, p.start_offset);
        let at = start_place(rest, p.start_offset);
        if at < rest.len() {
            assert(s[at].end_offset < s[s.len() - 1].start_offset);
            assert(rest[at] == s[at]);
        }
        assert(rest.insert(rest.len() as int, p) =~= s);
        if s.len() == 1 {
            assert(merged(s) =~= s);
        } else {
            let b = merge_all(rest);
            assert(b.done.push(b.current).last() == rest.last());
            assert(s[s.len() - 2].end_offset < s[s.len() - 1].start_offset);
            assert(merged(s) =~= rest.push(p));
            assert(rest.push(p) =~= s);
        }
    }
}

/// Merged passages are in order with a gap between each and the next. Every passage that was
/// merged lies within exactly one of them, and each of them begins with the first, ends with the
/// last and has the highest peak of those within it.
pub proof fn law_merged(s: Seq<ClipInterval>, j: int, k: int)
    requires
        forall|i: int| 0 <= i < s.len() ==> (#[trigger] s[i]).start_offset <= s[i].end_offset,
        0 <= k < s.len(),
        0 <= j < merged(by_start(s)).len(),
    ensures
        parted(merged(by_start(s))),
        in_one(s[k], merged(by_start(s))),
        tight(s, merged(by_start(s))[j]),
        inside(s[k], merged(by_start(s))[j]) ==> within(s[k], merged(by_start(s))[j]),
{
    lemma_merged_parted(s);
    lemma_merged_tight(s, j);
    lemma_merged_covers(s, k);
    lemma_in_one(s[k], merged(by_start(s)));
}

/// Merging passages that were merged changes nothing.
pub proof fn law_merged_once(s: Seq<ClipInterval>)
    requires
        forall|i: int| 0 <= i < s.len() ==> (#[trigger] s[i]).start_offset <= s[i].end_offset,
    ensures
        merged(by_start(merged(by_start(s)))) == merged(by_start(s)),
{
    lemma_merged_parted(s);
    lemma_parted_stays(merged(by_start(s)));
}

/// Tells whether a passage lies within one of others.
spec fn covered(p: ClipInterval, r: Seq<ClipInterval>) -> bool {
    exists|j: int| 0 <= j < r.len() && within(p, #[trigger] r[j])
}

proof fn lemma_sound_order(s: Seq<ClipInterval>)
    requires
        forall|i: int| 0 <= i < s.len() ==> (#[trigger] s[i]).start_offset <= s[i].end_offset,
    ensures
        by_start(s).len() == s.len(),
        in_order(by_start(s)),
        forall|i: int|
            0 <= i < s.len() ==> (#[trigger] by_start(s)[i]).start_offset
                <= by_start(s)[i].end_offset,
{
    let t = by_start(s);
    lemma_by_start(s);
    assert forall|i: int| 0 <= i < t.len() implies (#[trigger] t[i]).start_offset
        <= t[i].end_offset by {
        assert(s.contains(t[i]));
        let m = choose|m: int| 0 <= m < s.len() && s[m] == t[i];
    }
}

proof fn lemma_merged_parted(s: Seq<ClipInterval>)
    requires
        forall|i: int| 0 <= i < s.len() ==> (#[trigger] s[i]).start_offset <= s[i].end_offset,
    ensures
        parted(merged(by_start(s))),
        forall|j: int|
            0 <= j < merged(by_start(s)).len() ==> (#[trigger] merged(by_start(s))[j]).start_offset
                <= merged(by_start(s))[j].end_offset,
{
    let t = by_start(s);
    let r = merged(t);
    lemma_sound_order(s);
    if s.len() > 0 {
        lemma_merge_all(t);
        let m = merge_all(t);
        assert forall|j: int| 0 <= j < r.len() implies (#[trigger] r[j]).start_offset
            <= r[j].end_offset by {
            if j < m.done.len() {
                assert(r[j] == m.done[j]);
            }
        }
    }
}

proof fn lemma_merged_covers(s: Seq<ClipInterval>, k: int)
    requires
        forall|i: int| 0 <= i < s.len() ==> (#[trigger] s[i]).start_offset <= s[i].end_offset,
        0 <= k < s.len(),
    ensures
        covered(s[k], merged(by_start(s))),
{
    let t = by_start(s);
    let r = merged(t);
    lemma_by_start(s);
    lemma_sound_order(s);
    lemma_merge_all(t);
    let m = merge_all(t);
    assert(t.contains(s[k]));
    let n = choose|n: int| 0 <= n < t.len() && t[n] == s[k];
    if within(t[n], m.current) {
        assert(r[m.done.len() as int] == m.current);
    } else {
        let j = choose|j: int| 0 <= j < m.done.len() && within(t[n], #[trigger] m.done[j]);
        assert(r[j] == m.done[j]);
    }
}

proof fn lemma_merged_tight(s: Seq<ClipInterval>, j: int)
    requires
        forall|i: int| 0 <= i < s.len() ==> (#[trigger] s[i]).start_offset <= s[i].end_offset,
        0 <= j < merged(by_start(s)).len(),
    ensures
        tight(s, merged(by_start(s))[j]),
{
    let t = by_start(s);
    let r = merged(t);
    lemma_sound_order(s);
    lemma_merge_tight(t);
    let m = merge_all(t);
    assert(tight(t, r[j])) by {
        if j < m.done.len() {
            assert(r[j] == m.done[j]);
        } else {
            assert(r[j] == m.current);
        }
    }
    lemma_by_start(s);
    lemma_tight_among(s, t, r[j]);
}

/// A passage that lies within one of others that gaps part lies within that one alone.
proof fn lemma_in_one(p: ClipInterval, r: Seq<ClipInterval>)
    requires
        parted(r),
        p.start_offset <= p.end_offset,
        covered(p, r),
    ensures
        in_one(p, r),
        forall|j: int| 0 <= j < r.len() && inside(p, #[trigger] r[j]) ==> within(p, r[j]),
{
    let w = choose|j: int| 0 <= j < r.len() && within(p, #[trigger] r[j]);
    assert(inside(p, r[w]));
    lemma_one(p, r);
}

/// A passage lies within no two passages that a gap parts.
proof fn lemma_one(p: ClipInterval, r: Seq<ClipInterval>)
    requires
        parted(r),
        p.start_offset <= p.end_offset,
    ensures
        forall|i: int, j: int|
            0 <= i < r.len() && 0 <= j < r.len() && inside(p, #[trigger] r[i]) && inside(
                p,
                #[trigger] r[j],
            ) ==> i == j,
{
    assert forall|i: int, j: int|
        0 <= i < r.len() && 0 <= j < r.len() && inside(p, #[trigger] r[i]) && inside(
            p,
            #[trigger] r[j],
        ) implies i == j by {
        if i < j {
            assert(r[i].end_offset < r[j].start_offset);
        } else if j < i {
            assert(r[j].end_offset < r[i].start_offset);
        }
    }
}

/// A passage that is tight among some passages is so among others that hold them all.
proof fn lemma_tight_among(s: Seq<ClipInterval>, t: Seq<ClipInterval>, q: ClipInterval)
    requires
        tight(t, q),
        forall|k: int| 0 <= k < t.len() ==> s.contains(#[trigger] t[k]),
    ensures
        tight(s, q),
{
    let a = choose|k: int|
        0 <= k < t.len() && inside(#[trigger] t[k], q) && t[k].start_offset == q.start_offset;
    let b = choose|k: int|
        0 <= k < t.len() && inside(#[trigger] t[k], q) && t[k].end_offset == q.end_offset;
    let c = choose|k: int|
        0 <= k < t.len() && inside(#[trigger] t[k], q) && t[k].peak_count == q.peak_count;
    assert(s.contains(t[a]) && s.contains(t[b]) && s.contains(t[c]));
    let x = choose|m: int| 0 <= m < s.len() && s[m] == t[a];
    let y = choose|m: int| 0 <= m < s.len() && s[m] == t[b];
    let z = choose|m: int| 0 <= m < s.len() && s[m] == t[c];
    assert(inside(s[x], q) && inside(s[y], q) && inside(s[z], q));
}

/// The passages of a timeline that are worth a clip.
pub open spec fn lively_passages(t: Timeline) -> Seq<ClipInterval> {
    merged(
        by_start(
            long_passages(passages(t.buckets@)) + dense_passages(t.offsets@, 60, 3, 30, 1),
        ),
    )
}

/// The passages of a timeline that are worth a clip: those in which the comments rise by leaps,
/// and the three densest minutes.
pub fn find_lively_passages(t: &Timeline) -> (r: Vec<ClipInterval>)
    requires
        t.wf(),
        forall|i: int| 0 <= i < t.offsets@.len() ==> #[trigger] t.offsets@[i] <= i64::MAX - 90,
    ensures
        r@ == lively_passages(*t),
{
    proof {
        let keys = minutes(t.offsets@);
        assert forall|i: int| 0 <= i < keys.len() implies 0 <= #[trigger] keys[i] <= i64::MAX
            - 90 by {
            assert(t.offsets@[i] >= 0);
            assert(keys[i] == minute(t.offsets@[i]));
        }
        lemma_count_keys(keys, 0, i64::MAX - 90);
    }
    let mut found = compute_clip_intervals(&t.buckets);
    let dense = compute_sliding_intervals(t.offsets.as_slice(), 60, 3, 30, 1);
    let ghost first = found@;
    let mut i: usize = 0;
    while i < dense.len()
        invariant
            i <= dense@.len(),
            found@ == first + dense@.take(i as int),
        decreases dense.len() - i,
    {
        found.push(dense[i]);
        i += 1;
    }
    assert(dense@.take(i as int) =~= dense@);
    merge_overlapping_intervals(&found)
}

// ---------------------------------------------------------------------------
// What the passages amount to

/// Tells whether the comments leap up at a minute: it has at least two and a half times as many as
/// the minute before, or any behind a minute without.
pub open spec fn leap_at(b: Seq<(i64, i64)>, i: int) -> bool {
    0 < i < b.len() && (if b[i - 1].1 == 0 {
        b[i].1 > 0
    } else {
        2 * b[i].1 >= 5 * b[i - 1].1
    })
}

/// Tells whether the comments drop at a minute: it has at most three quarters as many as the minute
/// before.
pub open spec fn drop_at(b: Seq<(i64, i64)>, j: int) -> bool {
    0 < j < b.len() && b[j - 1].1 > 0 && 4 * b[j].1 <= 3 * b[j - 1].1
}

/// Tells whether a number is the greatest count from one minute to another.
pub open spec fn peak_of(b: Seq<(i64, i64)>, i: int, j: int, peak: i64) -> bool {
    &&& forall|m: int| i <= m <= j ==> (#[trigger] b[m]).1 <= peak
    &&& exists|m: int| i <= m <= j && (#[trigger] b[m]).1 == peak
}

/// Tells whether a passage goes from a minute where comments leap up to another, without a drop
/// before that.
pub open spec fn goes_on(b: Seq<(i64, i64)>, i: int, j: int) -> bool {
    &&& 0 < i <= j < b.len()
    &&& leap_at(b, i)
    &&& forall|m: int| i < m < j ==> !#[trigger] drop_at(b, m)
}

spec fn ended(b: Seq<(i64, i64)>, w: (int, int), p: ClipInterval) -> bool {
    &&& goes_on(b, w.0, w.1)
    &&& w.0 < w.1
    &&& drop_at(b, w.1)
    &&& p.start_offset == b[w.0].0
    &&& p.end_offset == b[w.1].0 + 60
    &&& peak_of(b, w.0, w.1, p.peak_count)
}

spec fn minutes_fit(b: Seq<(i64, i64)>) -> bool {
    &&& keys_grow(b)
    &&& forall|i: int| 0 <= i < b.len() ==> 0 <= (#[trigger] b[i]).0 <= i64::MAX - 90
}

#[verifier::rlimit(60)]
proof fn lemma_scan(b: Seq<(i64, i64)>, n: int) -> (r: (Seq<(int, int)>, int))
    requires
        minutes_fit(b),
        0 <= n <= b.len(),
    ensures
        ({
            let s = scan(b.take(n));
            &&& s.prev == (if n > 0 {
                Some(b[n - 1].1)
            } else {
                None
            })
            &&& r.0.len() == s.done.len()
            &&& forall|k: int|
                0 <= k < r.0.len() ==> ended(b, #[trigger] r.0[k], s.done[k]) && r.0[k].1 < n
            &&& forall|k: int, l: int|
                0 <= k < l < r.0.len() ==> (#[trigger] r.0[k]).1 < (#[trigger] r.0[l]).0
            &&& match s.active {
                Some((start, peak, last)) => {
                    &&& goes_on(b, r.1, n - 1)
                    &&& (r.1 < n - 1 ==> !drop_at(b, n - 1))
                    &&& start == b[r.1].0
                    &&& last == b[n - 1].1
                    &&& peak_of(b, r.1, n - 1, peak)
                    &&& forall|k: int| 0 <= k < r.0.len() ==> (#[trigger] r.0[k]).1 < r.1
                },
                None => true,
            }
            &&& forall|m: int|
                #![trigger leap_at(b, m)]
                0 <= m < n && leap_at(b, m) ==> (s.active is Some && r.1 <= m) || (exists|k: int|
                    0 <= k < r.0.len() && (#[trigger] r.0[k]).0 <= m <= r.0[k].1)
        }),
    decreases n,
{
    if n == 0 {
        assert(b.take(0) =~= Seq::<(i64, i64)>::empty());
        (Seq::empty(), 0)
    } else {
        let (ws, at) = lemma_scan(b, n - 1);
        let t = scan(b.take(n - 1));
        let s = scan(b.take(n));
        let count = b[n - 1].1;
        assert(b.take(n).drop_last() =~= b.take(n - 1));
        assert(b.take(n).last() == b[n - 1]);
        match t.active {
            Some((start, peak, last)) => {
                let top = larger(peak, count);
                assert(peak_of(b, at, n - 1, top)) by {
                    let m = choose|m: int| at <= m <= n - 2 && (#[trigger] b[m]).1 == peak;
                    if peak > count {
                        assert(b[m].1 == top);
                    } else {
                        assert(b[n - 1].1 == top);
                    }
                }
                assert(falls(last, count) == drop_at(b, n - 1));
                assert forall|m: int| at < m < n - 1 implies !#[trigger] drop_at(b, m) by {}
                assert(goes_on(b, at, n - 1));
                if falls(last, count) {
                    let out = ws.push((at, n - 1));
                    assert forall|k: int, l: int| 0 <= k < l < out.len() implies (#[trigger]
                    out[k]).1 < (#[trigger] out[l]).0 by {
                        assert(out[k] == ws[k]);
                        if l < ws.len() {
                            assert(out[l] == ws[l]);
                        }
                    }
                    assert(s.done == t.done.push(s.done.last()));
                    assert forall|k: int| 0 <= k < out.len() implies ended(
                        b,
                        #[trigger] out[k],
                        s.done[k],
                    ) && out[k].1 < n by {
                        if k < ws.len() {
                            assert(out[k] == ws[k]);
                        }
                    }
                    assert forall|m: int| #![trigger leap_at(b, m)]
                        0 <= m < n && leap_at(b, m) implies exists|k: int|
                        0 <= k < out.len() && (#[trigger] out[k]).0 <= m <= out[k].1 by {
                        if m < n - 1 && !(at <= m) {
                            let k = choose|k: int|
                                0 <= k < ws.len() && (#[trigger] ws[k]).0 <= m <= ws[k].1;
                            assert(out[k] == ws[k]);
                        } else {
                            assert(out[ws.len() as int] == (at, n - 1));
                        }
                    }
                    (out, 0)
                } else {
                    (ws, at)
                }
            },
            None => {
                if n > 1 {
                    assert(rises(b[n - 2].1, count) == leap_at(b, n - 1));
                }
                if n > 1 && rises(b[n - 2].1, count) {
                    assert(b[n - 1].1 == count);
                    assert(peak_of(b, n - 1, n - 1, count));
                    assert forall|m: int| #![trigger leap_at(b, m)]
                        0 <= m < n && leap_at(b, m) implies n - 1 <= m || exists|k: int|
                        0 <= k < ws.len() && (#[trigger] ws[k]).0 <= m <= ws[k].1 by {}
                    assert(goes_on(b, n - 1, n - 1));
                    (ws, n - 1)
                } else {
                    assert(!leap_at(b, n - 1));
                    (ws, 0)
                }
            },
        }
    }
}

proof fn lemma_long(s: Seq<ClipInterval>)
    requires
        forall|k: int|
            0 <= k < s.len() ==> 0 <= (#[trigger] s[k]).start_offset && s[k].start_offset + 60
                <= s[k].end_offset && s[k].end_offset <= i64::MAX - 30,
    ensures
        long_passages(s).len() == s.len(),
        forall|k: int| 0 <= k < s.len() ==> long_passages(s)[k] == widened(#[trigger] s[k]),
    decreases s.len(),
{
    if s.len() > 0 {
        let rest = s.drop_last();
        assert forall|k: int| 0 <= k < rest.len() implies 0 <= (#[trigger] rest[k]).start_offset
            && rest[k].start_offset + 60 <= rest[k].end_offset && rest[k].end_offset <= i64::MAX
            - 30 by {
            assert(rest[k] == s[k]);
        }
        lemma_long(rest);
        assert(s[s.len() - 1].start_offset >= 0);
        assert forall|k: int| 0 <= k < s.len() implies long_passages(s)[k] == widened(
            #[trigger] s[k],
        ) by {
            if k < rest.len() {
                assert(rest[k] == s[k]);
                assert(long_passages(s)[k] == long_passages(rest)[k]);
            }
        }
    }
}

#[verifier::opaque]
spec fn runs(b: Seq<(i64, i64)>, out: Seq<ClipInterval>, ws: Seq<(int, int)>) -> bool {
    &&& ws.len() == out.len()
    &&& forall|k: int| 0 <= k < ws.len() ==> shown_by(b, out[k], (#[trigger] ws[k]).0, ws[k].1)
    &&& forall|k: int, l: int|
        0 <= k < l < ws.len() ==> (#[trigger] ws[k]).1 < (#[trigger] ws[l]).0
}

#[verifier::opaque]
spec fn covers(b: Seq<(i64, i64)>, ws: Seq<(int, int)>) -> bool {
    forall|m: int| #[trigger]
        leap_at(b, m) ==> exists|k: int| 0 <= k < ws.len() && (#[trigger] ws[k]).0 <= m <= ws[k].1
}

proof fn lemma_run_at(b: Seq<(i64, i64)>, out: Seq<ClipInterval>, ws: Seq<(int, int)>, k: int)
    requires
        runs(b, out, ws),
        0 <= k < out.len(),
    ensures
        ws.len() == out.len(),
        shown_by(b, out[k], ws[k].0, ws[k].1),
{
    reveal(runs);
}

proof fn lemma_raw_passage(
    b: Seq<(i64, i64)>,
    done: Seq<(int, int)>,
    at: int,
    k: int,
)
    requires
        minutes_fit(b),
        done.len() == scan(b).done.len(),
        0 <= k < passages(b).len(),
        k < done.len() ==> ended(b, done[k], scan(b).done[k]),
        scan(b).active matches Some(a) ==> goes_on(b, at, b.len() - 1) && a.0 == b[at].0
            && peak_of(b, at, b.len() - 1, a.1),
    ensures
        ({
            let p = passages(b)[k];
            let w = if k < done.len() {
                done[k]
            } else {
                (at, b.len() - 1)
            };
            &&& 0 <= p.start_offset
            &&& p.start_offset + 60 <= p.end_offset <= i64::MAX - 30
            &&& shown_by(b, widened(p), w.0, w.1)
        }),
{
    let p = passages(b)[k];
    let s = scan(b);
    let w = if k < done.len() {
        assert(p == s.done[k]);
        done[k]
    } else {
        (at, b.len() - 1)
    };
    assert(p.start_offset == b[w.0].0);
    assert(p.end_offset == b[w.1].0 + 60);
    assert(b[w.0].0 >= 0 && b[w.1].0 <= i64::MAX - 90);
    if w.0 < w.1 {
        assert(b[w.0].0 < b[w.1].0);
    }
}

spec fn all_runs(b: Seq<(i64, i64)>, done: Seq<(int, int)>, at: int) -> Seq<(int, int)> {
    if scan(b).active is Some {
        done.push((at, b.len() - 1))
    } else {
        done
    }
}

proof fn lemma_all_covered(b: Seq<(i64, i64)>, done: Seq<(int, int)>, at: int)
    requires
        forall|m: int|
            #![trigger leap_at(b, m)]
            0 <= m < b.len() && leap_at(b, m) ==> (scan(b).active is Some && at <= m) || (exists|
                k: int,
            | 0 <= k < done.len() && (#[trigger] done[k]).0 <= m <= done[k].1),
    ensures
        covers(b, all_runs(b, done, at)),
{
    reveal(covers);
    let ws = all_runs(b, done, at);
    assert forall|m: int| #[trigger] leap_at(b, m) implies exists|k: int|
        0 <= k < ws.len() && (#[trigger] ws[k]).0 <= m <= ws[k].1 by {
        if scan(b).active is Some && at <= m {
            assert(ws[done.len() as int] == (at, b.len() - 1));
        } else {
            let k = choose|k: int| 0 <= k < done.len() && (#[trigger] done[k]).0 <= m <= done[k].1;
            assert(ws[k] == done[k]);
        }
    }
}

#[verifier::opaque]
spec fn seen_whole(b: Seq<(i64, i64)>, done: Seq<(int, int)>, at: int) -> bool {
    &&& done.len() == scan(b).done.len()
    &&& forall|k: int| 0 <= k < done.len() ==> ended(b, #[trigger] done[k], scan(b).done[k])
    &&& scan(b).active matches Some(a) ==> goes_on(b, at, b.len() - 1) && a.0 == b[at].0
        && peak_of(b, at, b.len() - 1, a.1)
}

proof fn lemma_seen_at(b: Seq<(i64, i64)>, done: Seq<(int, int)>, at: int, k: int)
    requires
        minutes_fit(b),
        seen_whole(b, done, at),
        0 <= k < passages(b).len(),
    ensures
        all_runs(b, done, at).len() == passages(b).len(),
        0 <= passages(b)[k].start_offset,
        passages(b)[k].start_offset + 60 <= passages(b)[k].end_offset <= i64::MAX - 30,
        shown_by(
            b,
            widened(passages(b)[k]),
            all_runs(b, done, at)[k].0,
            all_runs(b, done, at)[k].1,
        ),
{
    reveal(seen_whole);
    lemma_raw_passage(b, done, at, k);
}

proof fn lemma_seen_runs(b: Seq<(i64, i64)>, done: Seq<(int, int)>, at: int)
    requires
        minutes_fit(b),
        seen_whole(b, done, at),
        forall|k: int, l: int|
            0 <= k < l < done.len() ==> (#[trigger] done[k]).1 < (#[trigger] done[l]).0,
        scan(b).active is Some ==> forall|k: int|
            0 <= k < done.len() ==> (#[trigger] done[k]).1 < at,
    ensures
        runs(b, long_passages(passages(b)), all_runs(b, done, at)),
{
    reveal(runs);
    let ws = all_runs(b, done, at);
    let all = passages(b);
    assert(ws.len() == all.len()) by {
        reveal(seen_whole);
    }
    assert forall|k: int| 0 <= k < all.len() implies 0 <= (#[trigger] all[k]).start_offset
        && all[k].start_offset + 60 <= all[k].end_offset && all[k].end_offset <= i64::MAX - 30 by {
        lemma_seen_at(b, done, at, k);
    }
    lemma_long(all);
    let out = long_passages(all);
    assert forall|k: int| 0 <= k < ws.len() implies shown_by(
        b,
        out[k],
        (#[trigger] ws[k]).0,
        ws[k].1,
    ) by {
        lemma_seen_at(b, done, at, k);
        assert(out[k] == widened(all[k]));
    }
    assert forall|k: int, l: int| 0 <= k < l < ws.len() implies (#[trigger] ws[k]).1
        < (#[trigger] ws[l]).0 by {
        assert(ws[k] == done[k]);
        if l < done.len() {
            assert(ws[l] == done[l]);
        }
    }
}

/// The minutes of the passages, from the first one of each to the last.
proof fn lemma_passages(b: Seq<(i64, i64)>) -> (ws: Seq<(int, int)>)
    requires
        minutes_fit(b),
    ensures
        runs(b, long_passages(passages(b)), ws),
        covers(b, ws),
{
    let n = b.len() as int;
    assert(b.take(n) =~= b);
    let (done, at) = lemma_scan(b, n);
    assert(seen_whole(b, done, at)) by {
        reveal(seen_whole);
    }
    lemma_all_covered(b, done, at);
    lemma_seen_runs(b, done, at);
    all_runs(b, done, at)
}

/// Tells whether a passage goes from a minute where comments leap up to the next one where they
/// drop, or to the last one, with half a minute on either side, and tells the greatest count of
/// these minutes.
pub open spec fn shown_by(b: Seq<(i64, i64)>, p: ClipInterval, i: int, j: int) -> bool {
    &&& goes_on(b, i, j)
    &&& drop_at(b, j) || j == b.len() - 1
    &&& p.start_offset == (if b[i].0 > 30 {
        b[i].0 - 30
    } else {
        0
    })
    &&& p.end_offset == b[j].0 + 90
    &&& peak_of(b, i, j, p.peak_count)
}

/// Tells whether minutes are in order and can be counted with.
pub open spec fn minutes_in_order(b: Seq<(i64, i64)>) -> bool {
    &&& forall|i: int, j: int| 0 <= i < j < b.len() ==> b[i].0 < b[j].0
    &&& forall|i: int| 0 <= i < b.len() ==> 0 <= (#[trigger] b[i]).0 <= i64::MAX - 90
}

proof fn lemma_covered(b: Seq<(i64, i64)>, ws: Seq<(int, int)>, m: int) -> (k: int)
    requires
        covers(b, ws),
        leap_at(b, m),
    ensures
        0 <= k < ws.len(),
        ws[k].0 <= m <= ws[k].1,
{
    reveal(covers);
    choose|k: int| 0 <= k < ws.len() && (#[trigger] ws[k]).0 <= m <= ws[k].1
}

/// Every leap counts: a minute at which the comments leap up lies within a passage, whatever came
/// before it.
pub proof fn law_every_leap_is_shown(b: Seq<(i64, i64)>, m: int)
    requires
        minutes_in_order(b),
        leap_at(b, m),
    ensures
        exists|k: int|
            0 <= k < long_passages(passages(b)).len() && (#[trigger] long_passages(
                passages(b),
            )[k]).start_offset <= b[m].0 && b[m].0 + 60 <= long_passages(passages(b))[k].end_offset
                && b[m].1 <= long_passages(passages(b))[k].peak_count,
{
    let ws = lemma_passages(b);
    let out = long_passages(passages(b));
    let k = lemma_covered(b, ws, m);
    assert(ws.len() == out.len()) by {
        reveal(runs);
    }
    lemma_run_at(b, out, ws, k);
    let (i, j) = ws[k];
    if i < m {
        assert(b[i].0 < b[m].0);
    }
    if m < j {
        assert(b[m].0 < b[j].0);
    }
    assert(out[k].start_offset <= b[m].0);
}

/// Nothing else is a passage: each goes from a leap to the next drop, or to the end, and none of
/// its minutes belongs to another; they come in the order of their minutes.
pub proof fn law_passages_from_leap_to_drop(b: Seq<(i64, i64)>, k: int, l: int)
    requires
        minutes_in_order(b),
        0 <= k < l < long_passages(passages(b)).len(),
    ensures
        exists|i: int, j: int, m: int, n: int|
            #![trigger shown_by(b, long_passages(passages(b))[k], i, j), shown_by(b, long_passages(passages(b))[l], m, n)]
            j < m && shown_by(b, long_passages(passages(b))[k], i, j) && shown_by(
                b,
                long_passages(passages(b))[l],
                m,
                n,
            ),
{
    let ws = lemma_passages(b);
    let out = long_passages(passages(b));
    lemma_run_at(b, out, ws, k);
    lemma_run_at(b, out, ws, l);
    assert(ws[k].1 < ws[l].0) by {
        reveal(runs);
    }
}

/// Every passage goes from a leap to the next drop, or to the end.
pub proof fn law_passage_has_its_minutes(b: Seq<(i64, i64)>, k: int)
    requires
        minutes_in_order(b),
        0 <= k < long_passages(passages(b)).len(),
    ensures
        exists|i: int, j: int| #[trigger] shown_by(b, long_passages(passages(b))[k], i, j),
{
    let ws = lemma_passages(b);
    lemma_run_at(b, long_passages(passages(b)), ws, k);
}

/// How many comments were made from one second up to another.
pub open spec fn made_in(offsets: Seq<i64>, start: int, end: int) -> int
    decreases offsets.len(),
{
    if offsets.len() == 0 {
        0
    } else {
        made_in(offsets.drop_last(), start, end) + if start <= offsets.last() < end {
            1int
        } else {
            0
        }
    }
}

spec fn share(e: (i64, i64), start: int, end: int) -> int {
    if start <= e.0 < end {
        e.1 as int
    } else {
        0
    }
}

proof fn lemma_density_update(s: Seq<(i64, i64)>, p: int, e: (i64, i64), a: int, b: int)
    requires
        0 <= p < s.len(),
    ensures
        density(s.update(p, e), a, b) == density(s, a, b) - share(s[p], a, b) + share(e, a, b),
    decreases s.len(),
{
    let t = s.update(p, e);
    if p < s.len() - 1 {
        lemma_density_update(s.drop_last(), p, e, a, b);
        assert(t.drop_last() =~= s.drop_last().update(p, e));
    } else {
        assert(t.drop_last() =~= s.drop_last());
    }
}

proof fn lemma_density_insert(s: Seq<(i64, i64)>, p: int, e: (i64, i64), a: int, b: int)
    requires
        0 <= p <= s.len(),
    ensures
        density(s.insert(p, e), a, b) == density(s, a, b) + share(e, a, b),
    decreases s.len(),
{
    let t = s.insert(p, e);
    if p < s.len() {
        lemma_density_insert(s.drop_last(), p, e, a, b);
        assert(t.drop_last() =~= s.drop_last().insert(p, e));
        assert(t.last() == s.last());
    } else {
        assert(t.drop_last() =~= s);
    }
}

/// Counting by number loses no comment: as many lie between two seconds as were made there.
proof fn lemma_density_counts(keys: Seq<i64>, a: int, b: int)
    requires
        keys.len() <= i64::MAX,
    ensures
        density(counts(keys), a, b) == made_in(keys, a, b),
    decreases keys.len(),
{
    if keys.len() > 0 {
        let rest = keys.drop_last();
        let key = keys.last();
        lemma_density_counts(rest, a, b);
        lemma_counts(rest, key);
        let s = counts(rest);
        let p = place(s, key);
        lemma_place(s, key);
        if p < s.len() && s[p].0 == key {
            lemma_total_bounds(s, p);
            lemma_density_update(s, p, (key, (s[p].1 + 1) as i64), a, b);
        } else {
            lemma_density_insert(s, p, (key, 1i64), a, b);
        }
    }
}

proof fn lemma_made_minutes(offsets: Seq<i64>, m: int)
    requires
        m % 60 == 0,
        forall|i: int| 0 <= i < offsets.len() ==> #[trigger] offsets[i] >= 0,
    ensures
        made_in(minutes(offsets), m, m + 1) == made_in(offsets, m, m + 60),
    decreases offsets.len(),
{
    let keys = minutes(offsets);
    if offsets.len() > 0 {
        let rest = offsets.drop_last();
        assert forall|i: int| 0 <= i < rest.len() implies #[trigger] rest[i] >= 0 by {
            assert(rest[i] == offsets[i]);
        }
        lemma_made_minutes(rest, m);
        assert(keys.drop_last() =~= minutes(rest));
        let o = offsets[offsets.len() - 1] as int;
        assert((o / 60 * 60 == m) == (m <= o < m + 60)) by (nonlinear_arith)
            requires
                m % 60 == 0,
                o >= 0,
        ;
        assert(keys.last() == o / 60 * 60);
    }
}

/// The comments are counted by the minute: under the first second of a minute stands how many
/// comments were made within it.
pub proof fn law_minutes_counted(t: Timeline, m: int)
    requires
        t.wf(),
        m % 60 == 0,
    ensures
        density(t.buckets@, m, m + 1) == made_in(t.offsets@, m, m + 60),
        forall|i: int| 0 <= i < t.buckets@.len() ==> (#[trigger] t.buckets@[i]).1 >= 1,
        keys_grow(t.buckets@),
{
    lemma_made_minutes(t.offsets@, m);
    lemma_density_counts(minutes(t.offsets@), m, m + 1);
    lemma_counts(minutes(t.offsets@), 0);
}

proof fn lemma_not_negative(s: Seq<i64>, a: int, b: int, k: int)
    requires
        a >= 0,
    ensures
        made_in(not_negative(s), a, b) == made_in(s, a, b),
        not_negative(s).len() <= s.len(),
        0 <= k < s.len() && s[k] >= 0 ==> not_negative(s).contains(s[k]),
        forall|i: int|
            0 <= i < not_negative(s).len() ==> s.contains(#[trigger] not_negative(s)[i])
                && not_negative(s)[i] >= 0,
    decreases s.len(),
{
    if s.len() > 0 {
        let rest = s.drop_last();
        lemma_not_negative(rest, a, b, k);
        let t = not_negative(rest);
        let u = not_negative(s);
        if s.last() >= 0 {
            assert(u.drop_last() =~= t);
            assert(u[t.len() as int] == s.last());
        }
        if 0 <= k < rest.len() && s[k] >= 0 {
            assert(rest[k] == s[k]);
            let m = choose|m: int| 0 <= m < t.len() && t[m] == s[k];
            assert(u[m] == s[k]);
        }
        assert forall|i: int| 0 <= i < u.len() implies s.contains(#[trigger] u[i]) && u[i] >= 0 by {
            if i < t.len() {
                assert(u[i] == t[i]);
                assert(rest.contains(t[i]));
                let m = choose|m: int| 0 <= m < rest.len() && rest[m] == t[i];
                assert(s[m] == t[i]);
            } else {
                assert(s[s.len() - 1] == u[i]);
            }
        }
    }
}

proof fn lemma_counted_keys(keys: Seq<i64>, x: i64)
    ensures
        keys.contains(x) <==> exists|i: int|
            0 <= i < counts(keys).len() && (#[trigger] counts(keys)[i]).0 == x,
    decreases keys.len(),
{
    let t = counts(keys);
    if keys.len() > 0 {
        let rest = keys.drop_last();
        lemma_counted_keys(rest, x);
        let s = counts(rest);
        let key = keys.last();
        let p = place(s, key);
        lemma_place(s, key);
        let known = p < s.len() && s[p].0 == key;
        if keys.contains(x) {
            let m = choose|m: int| 0 <= m < keys.len() && keys[m] == x;
            if m < rest.len() {
                assert(rest[m] == x);
                let i = choose|i: int| 0 <= i < s.len() && (#[trigger] s[i]).0 == x;
                if known || i < p {
                    assert(t[i].0 == x);
                } else {
                    assert(t[i + 1].0 == x);
                }
            } else {
                assert(t[p].0 == x);
            }
        }
        if exists|i: int| 0 <= i < t.len() && (#[trigger] t[i]).0 == x {
            let i = choose|i: int| 0 <= i < t.len() && (#[trigger] t[i]).0 == x;
            if i == p {
                assert(keys[keys.len() - 1] == x);
            } else {
                let j = if known || i < p {
                    i
                } else {
                    i - 1
                };
                assert(s[j].0 == x);
                let m = choose|m: int| 0 <= m < rest.len() && rest[m] == x;
                assert(keys[m] == x);
            }
        }
    }
}

proof fn lemma_windows(times: Seq<(i64, i64)>, window: i64, i: int)
    requires
        0 <= i <= times.len(),
    ensures
        windows_from(times, window, 1, i).len() == times.len() - i,
        forall|k: int|
            0 <= k < times.len() - i ==> #[trigger] windows_from(times, window, 1, i)[k] == (
                times[i + k].0,
                density(times, times[i + k].0 as int, times[i + k].0 + window) as i64,
            ),
    decreases times.len() - i,
{
    if i < times.len() {
        lemma_windows(times, window, i + 1);
        let rest = windows_from(times, window, 1, i + 1);
        let all = windows_from(times, window, 1, i);
        assert forall|k: int| 0 <= k < times.len() - i implies #[trigger] all[k] == (
            times[i + k].0,
            density(times, times[i + k].0 as int, times[i + k].0 + window) as i64,
        ) by {
            if k > 0 {
                assert(all[k] == rest[k - 1]);
            }
        }
    }
}

/// Tells whether a window overlaps one that is chosen too much, and that holds no fewer comments.
spec fn yields(
    chosen: Seq<(i64, i64)>,
    e: (i64, i64),
    window: i64,
    max_overlap: i64,
    top_n: int,
) -> bool {
    ||| chosen.contains(e)
    ||| exists|c: int|
        0 <= c < chosen.len() && (#[trigger] chosen[c]).1 >= e.1 && overlap(
            chosen[c].0,
            e.0,
            window,
        ) > max_overlap
    ||| chosen.len() == top_n && forall|c: int|
        0 <= c < chosen.len() ==> (#[trigger] chosen[c]).1 >= e.1
}

proof fn lemma_choice(s: Seq<(i64, i64)>, window: i64, max_overlap: i64, top_n: int, k: int)
    requires
        falling(s),
        0 <= k < s.len(),
        top_n >= 0,
    ensures
        yields(
            chosen_windows(s, window, max_overlap, top_n),
            s[k],
            window,
            max_overlap,
            top_n,
        ),
        forall|c: int|
            0 <= c < chosen_windows(s, window, max_overlap, top_n).len() ==> s.contains(
                #[trigger] chosen_windows(s, window, max_overlap, top_n)[c],
            ),
    decreases s.len(),
{
    let rest = s.drop_last();
    let before = chosen_windows(rest, window, max_overlap, top_n);
    let after = chosen_windows(s, window, max_overlap, top_n);
    assert(falling(rest)) by {
        assert forall|i: int, j: int| 0 <= i <= j < rest.len() implies rest[i].1 >= rest[j].1 by {
            assert(s[i].1 >= s[j].1);
        }
    }
    lemma_chosen_count(rest, window, max_overlap, top_n);
    if rest.len() > 0 {
        lemma_choice(
            rest,
            window,
            max_overlap,
            top_n,
            if k < rest.len() {
                k
            } else {
                0
            },
        );
    }
    assert forall|c: int| 0 <= c < before.len() implies rest.contains(#[trigger] before[c]) by {
        if rest.len() == 0 {
            assert(before.len() == 0);
        }
    }
    assert forall|c: int| 0 <= c < after.len() implies s.contains(#[trigger] after[c]) by {
        if c < before.len() {
            assert(after[c] == before[c]);
            let m = choose|m: int| 0 <= m < rest.len() && rest[m] == before[c];
            assert(s[m] == before[c]);
        } else {
            assert(s[s.len() - 1] == after[c]);
        }
    }
    let e = s[k];
    if k < rest.len() {
        assert(rest[k] == e);
        if before.contains(e) {
            let m = choose|m: int| 0 <= m < before.len() && before[m] == e;
            assert(after[m] == e);
        } else if exists|c: int|
            0 <= c < before.len() && (#[trigger] before[c]).1 >= e.1 && overlap(
                before[c].0,
                e.0,
                window,
            ) > max_overlap {
            let c = choose|c: int|
                0 <= c < before.len() && (#[trigger] before[c]).1 >= e.1 && overlap(
                    before[c].0,
                    e.0,
                    window,
                ) > max_overlap;
            assert(after[c] == before[c]);
        } else {
            assert(after == before);
        }
    } else {
        assert forall|c: int| 0 <= c < before.len() implies (#[trigger] before[c]).1 >= e.1 by {
            assert(rest.contains(before[c]));
            let m = choose|m: int| 0 <= m < rest.len() && rest[m] == before[c];
            assert(s[m].1 >= s[s.len() - 1].1);
        }
        if before.len() < top_n {
            if stands_apart(before, e.0, window, max_overlap) {
                assert(after[before.len() as int] == e);
            } else {
                let c = choose|c: int|
                    0 <= c < before.len() && !(overlap((#[trigger] before[c]).0, e.0, window)
                        <= max_overlap);
                assert(after[c].1 >= e.1);
            }
        }
    }
}

proof fn lemma_window_passages(s: Seq<(i64, i64)>, window: i64)
    requires
        30 <= window,
        forall|k: int| 0 <= k < s.len() ==> 0 <= (#[trigger] s[k]).0 <= i64::MAX - window - 30,
    ensures
        window_passages(s, window).len() == s.len(),
        forall|k: int|
            0 <= k < s.len() ==> window_passages(s, window)[k] == window_passage(
                #[trigger] s[k],
                window,
            ),
    decreases s.len(),
{
    if s.len() > 0 {
        let rest = s.drop_last();
        assert forall|k: int| 0 <= k < rest.len() implies 0 <= (#[trigger] rest[k]).0 <= i64::MAX
            - window - 30 by {
            assert(rest[k] == s[k]);
        }
        lemma_window_passages(rest, window);
        assert(s[s.len() - 1].0 >= 0);
        assert forall|k: int| 0 <= k < s.len() implies window_passages(s, window)[k]
            == window_passage(#[trigger] s[k], window) by {
            if k < rest.len() {
                assert(rest[k] == s[k]);
            }
        }
    }
}

/// Tells whether a passage shows the comments of a window from a second on: half a minute on either
/// side, and how many were made within the window.
pub open spec fn window_shown(
    p: ClipInterval,
    offsets: Seq<i64>,
    window: i64,
    second: i64,
) -> bool {
    &&& p.start_offset == (if second > 30 {
        second - 30
    } else {
        0
    })
    &&& p.end_offset == second + window + 30
    &&& p.peak_count == made_in(offsets, second as int, second + window)
}

/// Tells whether a window can be shown: a comment was made at its first second.
pub open spec fn begins_window(offsets: Seq<i64>, second: i64) -> bool {
    second >= 0 && offsets.contains(second)
}

#[verifier::opaque]
spec fn window_starts(
    offsets: Seq<i64>,
    window: i64,
    top_n: int,
    max_overlap: i64,
    chosen: Seq<(i64, i64)>,
) -> bool {
    let out = dense_passages(offsets, window, top_n, max_overlap, 1);
    &&& out.len() == chosen.len()
    &&& chosen.len() <= top_n
    &&& forall|c: int|
        0 <= c < chosen.len() ==> begins_window(offsets, (#[trigger] chosen[c]).0)
            && chosen[c].1 == made_in(offsets, chosen[c].0 as int, chosen[c].0 + window)
            && window_shown(out[c], offsets, window, chosen[c].0)
    &&& forall|c: int, d: int|
        0 <= c < d < chosen.len() ==> overlap(
            (#[trigger] chosen[c]).0,
            (#[trigger] chosen[d]).0,
            window,
        ) <= max_overlap
    &&& forall|t: i64| #[trigger]
        begins_window(offsets, t) ==> yields(
            chosen,
            (t, made_in(offsets, t as int, t + window) as i64),
            window,
            max_overlap,
            top_n,
        )
}

proof fn lemma_made_bounds(offsets: Seq<i64>, a: int, b: int)
    ensures
        0 <= made_in(offsets, a, b) <= offsets.len(),
    decreases offsets.len(),
{
    if offsets.len() > 0 {
        lemma_made_bounds(offsets.drop_last(), a, b);
    }
}

spec fn offsets_fit(offsets: Seq<i64>, window: i64) -> bool {
    &&& offsets.len() <= i64::MAX
    &&& 30 <= window
    &&& forall|i: int| 0 <= i < offsets.len() ==> #[trigger] offsets[i] <= i64::MAX - window - 30
}

/// A window over the comments: its first second is that of a comment, and it is counted right.
proof fn lemma_window_at(offsets: Seq<i64>, window: i64, k: int)
    requires
        offsets_fit(offsets, window),
        0 <= k < counts(not_negative(offsets)).len(),
    ensures
        ({
            let times = counts(not_negative(offsets));
            let w = windows_from(times, window, 1, 0)[k];
            &&& windows_from(times, window, 1, 0).len() == times.len()
            &&& w.0 == times[k].0
            &&& begins_window(offsets, w.0)
            &&& w.1 == made_in(offsets, w.0 as int, w.0 + window)
            &&& w.0 <= i64::MAX - window - 30
        }),
{
    let keys = not_negative(offsets);
    let times = counts(keys);
    let t = times[k].0;
    lemma_not_negative(offsets, 0, 0, 0);
    lemma_counted_keys(keys, t);
    assert(keys.contains(t));
    let m = choose|m: int| 0 <= m < keys.len() && keys[m] == t;
    assert(offsets.contains(keys[m]));
    lemma_not_negative(offsets, t as int, t + window, 0);
    lemma_density_counts(keys, t as int, t + window);
    lemma_made_bounds(offsets, t as int, t + window);
    lemma_windows(times, window, 0);
    assert(windows_from(times, window, 1, 0)[k] == (
        times[0 + k].0,
        density(times, times[0 + k].0 as int, times[0 + k].0 + window) as i64,
    ));
}

proof fn lemma_dense(offsets: Seq<i64>, window: i64, top_n: int, max_overlap: i64) -> (chosen: Seq<
    (i64, i64),
>)
    requires
        offsets_fit(offsets, window),
        top_n > 0,
    ensures
        window_starts(offsets, window, top_n, max_overlap, chosen),
{
    reveal(window_starts);
    let keys = not_negative(offsets);
    let times = counts(keys);
    let all = windows_from(times, window, 1, 0);
    let sorted = densest_first(all);
    let chosen = chosen_windows(sorted, window, max_overlap, top_n);
    let out = dense_passages(offsets, window, top_n, max_overlap, 1);
    lemma_windows(times, window, 0);
    lemma_densest_first(all);
    lemma_chosen_count(sorted, window, max_overlap, top_n);
    assert(out == window_passages(chosen, window));
    assert forall|c: int| 0 <= c < chosen.len() implies begins_window(
        offsets,
        (#[trigger] chosen[c]).0,
    ) && chosen[c].1 == made_in(offsets, chosen[c].0 as int, chosen[c].0 + window) && chosen[c].0
        <= i64::MAX - window - 30 by {
        assert(sorted.len() > 0) by {
            if sorted.len() == 0 {
                assert(chosen.len() == 0);
            }
        }
        lemma_choice(sorted, window, max_overlap, top_n, 0);
        assert(sorted.contains(chosen[c]));
        let m = choose|m: int| 0 <= m < sorted.len() && sorted[m] == chosen[c];
        assert(all.contains(sorted[m]));
        let k = choose|k: int| 0 <= k < all.len() && all[k] == sorted[m];
        lemma_window_at(offsets, window, k);
    }
    lemma_window_passages(chosen, window);
    assert forall|c: int| 0 <= c < chosen.len() implies window_shown(
        out[c],
        offsets,
        window,
        (#[trigger] chosen[c]).0,
    ) by {
        assert(out[c] == window_passage(chosen[c], window));
    }
    assert forall|c: int, d: int| 0 <= c < d < chosen.len() implies overlap(
        (#[trigger] chosen[c]).0,
        (#[trigger] chosen[d]).0,
        window,
    ) <= max_overlap by {
        law_windows_apart(sorted, window, max_overlap, top_n, c, d);
    }
    assert forall|t: i64| #[trigger] begins_window(offsets, t) implies yields(
        chosen,
        (t, made_in(offsets, t as int, t + window) as i64),
        window,
        max_overlap,
        top_n,
    ) by {
        let i = choose|i: int| 0 <= i < offsets.len() && offsets[i] == t;
        lemma_not_negative(offsets, 0, 0, i);
        lemma_counted_keys(keys, t);
        let k = choose|k: int| 0 <= k < times.len() && (#[trigger] times[k]).0 == t;
        lemma_window_at(offsets, window, k);
        assert(sorted.contains(all[k]));
        let m = choose|m: int| 0 <= m < sorted.len() && sorted[m] == all[k];
        lemma_choice(sorted, window, max_overlap, top_n, m);
    }
    chosen
}

/// The densest passages each show a window that begins with a comment, with as many comments as
/// were made in it; there are no more of them than asked for, and no two share more than allowed.
pub proof fn law_dense_passages_are_windows(
    offsets: Seq<i64>,
    window: i64,
    top_n: int,
    max_overlap: i64,
    k: int,
    l: int,
)
    requires
        offsets.len() <= i64::MAX,
        30 <= window,
        forall|i: int| 0 <= i < offsets.len() ==> #[trigger] offsets[i] <= i64::MAX - window - 30,
        top_n > 0,
        0 <= k <= l < dense_passages(offsets, window, top_n, max_overlap, 1).len(),
    ensures
        dense_passages(offsets, window, top_n, max_overlap, 1).len() <= top_n,
        exists|a: i64, b: i64|
            #![trigger window_shown(dense_passages(offsets, window, top_n, max_overlap, 1)[k], offsets, window, a), window_shown(dense_passages(offsets, window, top_n, max_overlap, 1)[l], offsets, window, b)]
            begins_window(offsets, a) && begins_window(offsets, b) && window_shown(
                dense_passages(offsets, window, top_n, max_overlap, 1)[k],
                offsets,
                window,
                a,
            ) && window_shown(
                dense_passages(offsets, window, top_n, max_overlap, 1)[l],
                offsets,
                window,
                b,
            ) && (k < l ==> a + window - b <= max_overlap || b + window - a <= max_overlap),
{
    let chosen = lemma_dense(offsets, window, top_n, max_overlap);
    reveal(window_starts);
    assert(begins_window(offsets, chosen[k].0) && begins_window(offsets, chosen[l].0));
    if k < l {
        assert(overlap(chosen[k].0, chosen[l].0, window) <= max_overlap);
    }
}

/// No denser window is left out without a reason: each window that begins with a comment is shown,
/// or shares too much with one that is shown and holds no fewer comments, or as many are shown as
/// were asked for and none of them holds fewer.
pub proof fn law_densest_windows_shown(
    offsets: Seq<i64>,
    window: i64,
    top_n: int,
    max_overlap: i64,
    t: i64,
)
    requires
        offsets.len() <= i64::MAX,
        30 <= window,
        forall|i: int| 0 <= i < offsets.len() ==> #[trigger] offsets[i] <= i64::MAX - window - 30,
        top_n > 0,
        begins_window(offsets, t),
    ensures
        ({
            let out = dense_passages(offsets, window, top_n, max_overlap, 1);
            let count = made_in(offsets, t as int, t + window);
            ||| (exists|k: int|
                0 <= k < out.len() && window_shown(#[trigger] out[k], offsets, window, t))
            ||| (exists|k: int, a: i64|
                0 <= k < out.len() && #[trigger] window_shown(out[k], offsets, window, a)
                    && made_in(offsets, a as int, a + window) >= count && a + window - t
                    > max_overlap && t + window - a > max_overlap)
            ||| (out.len() == top_n && forall|k: int|
                0 <= k < out.len() ==> (#[trigger] out[k]).peak_count >= count)
        }),
{
    let chosen = lemma_dense(offsets, window, top_n, max_overlap);
    reveal(window_starts);
    let out = dense_passages(offsets, window, top_n, max_overlap, 1);
    let e = (t, made_in(offsets, t as int, t + window) as i64);
    lemma_made_bounds(offsets, t as int, t + window);
    if chosen.contains(e) {
        let c = choose|c: int| 0 <= c < chosen.len() && chosen[c] == e;
        assert(window_shown(out[c], offsets, window, chosen[c].0));
    } else if exists|c: int|
        0 <= c < chosen.len() && (#[trigger] chosen[c]).1 >= e.1 && overlap(
            chosen[c].0,
            e.0,
            window,
        ) > max_overlap {
        let c = choose|c: int|
            0 <= c < chosen.len() && (#[trigger] chosen[c]).1 >= e.1 && overlap(
                chosen[c].0,
                e.0,
                window,
            ) > max_overlap;
        assert(window_shown(out[c], offsets, window, chosen[c].0));
    } else {
        assert forall|k: int| 0 <= k < out.len() implies (#[trigger] out[k]).peak_count >= e.1 by {
            assert(chosen[k].1 >= e.1);
            assert(window_shown(out[k], offsets, window, chosen[k].0));
        }
    }
}

/// The passages worth a clip cover every leap of the comments and every one of the densest minutes,
/// and a gap parts each from the next.
pub proof fn law_lively_passages_cover(t: Timeline, m: int, k: int)
    requires
        t.wf(),
        forall|i: int| 0 <= i < t.offsets@.len() ==> #[trigger] t.offsets@[i] <= i64::MAX - 90,
    ensures
        parted(lively_passages(t)),
        leap_at(t.buckets@, m) ==> exists|j: int|
            0 <= j < lively_passages(t).len() && (#[trigger] lively_passages(t)[j]).start_offset
                <= t.buckets@[m].0 && t.buckets@[m].0 + 60 <= lively_passages(t)[j].end_offset
                && t.buckets@[m].1 <= lively_passages(t)[j].peak_count,
        0 <= k < dense_passages(t.offsets@, 60, 3, 30, 1).len() ==> in_one(
            dense_passages(t.offsets@, 60, 3, 30, 1)[k],
            lively_passages(t),
        ),
{
    let b = t.buckets@;
    let keys = minutes(t.offsets@);
    assert forall|i: int| 0 <= i < keys.len() implies 0 <= #[trigger] keys[i] <= i64::MAX - 90 by {
        assert(t.offsets@[i] >= 0);
    }
    lemma_count_keys(keys, 0, i64::MAX - 90);
    lemma_counts(keys, 0);
    assert(minutes_in_order(b));
    let first = long_passages(passages(b));
    let dense = dense_passages(t.offsets@, 60, 3, 30, 1);
    let all = first + dense;
    assert forall|i: int| 0 <= i < all.len() implies (#[trigger] all[i]).start_offset
        <= all[i].end_offset by {
        if i < first.len() {
            let ws = lemma_passages(b);
            lemma_run_at(b, first, ws, i);
            if ws[i].0 < ws[i].1 {
                assert(b[ws[i].0].0 < b[ws[i].1].0);
            }
        } else {
            let n = i - first.len();
            law_dense_passages_are_windows(t.offsets@, 60, 3, 30, n, n);
            let (a, c) = choose|a: i64, c: i64|
                #![trigger window_shown(dense[n], t.offsets@, 60, a), window_shown(dense[n], t.offsets@, 60, c)]
                begins_window(t.offsets@, a) && begins_window(t.offsets@, c) && window_shown(
                    dense[n],
                    t.offsets@,
                    60,
                    a,
                ) && window_shown(dense[n], t.offsets@, 60, c) && (n < n ==> a + 60 - c <= 30 || c
                    + 60 - a <= 30);
            assert(all[i] == dense[n]);
        }
    }
    lemma_merged_parted(all);
    if leap_at(b, m) {
        law_every_leap_is_shown(b, m);
        let j = choose|j: int|
            0 <= j < first.len() && (#[trigger] first[j]).start_offset <= b[m].0 && b[m].0 + 60
                <= first[j].end_offset && b[m].1 <= first[j].peak_count;
        assert(all[j] == first[j]);
        lemma_merged_covers(all, j);
        lemma_in_one(all[j], merged(by_start(all)));
        let q = choose|q: int|
            0 <= q < merged(by_start(all)).len() && within(
                all[j],
                #[trigger] merged(by_start(all))[q],
            );
        assert(lively_passages(t)[q].start_offset <= b[m].0);
    }
    if 0 <= k < dense.len() {
        assert(all[first.len() + k] == dense[k]);
        lemma_merged_covers(all, first.len() + k);
        lemma_in_one(all[first.len() + k], merged(by_start(all)));
    }
}

} // verus!
