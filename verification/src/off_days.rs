//! Personal days off: inclusive ranges of dates, kept in a list that is stored
//! sorted by start and end, without repeats.
use vstd::prelude::*;

use crate::date::{Date, MAX_DAY_NUMBER};

verus! {

/// A range of days off, inclusive at both ends; a single day has `start == end`.
#[derive(Clone, Copy, Debug, PartialEq, Eq, Structural)]
pub struct OffEntry {
    pub start: Date,
    pub end: Date,
}

impl View for OffEntry {
    type V = (int, int);

    open spec fn view(&self) -> (int, int) {
        (self.start@, self.end@)
    }
}

/// Why a range of days off is refused.
#[derive(Clone, Copy, Debug, PartialEq, Eq, Structural)]
pub enum OffDaysError {
    /// The range ends before it starts.
    EndBeforeStart { start: Date, end: Date },
}

/// The days of the inclusive range `range` (first and last day numbers).
pub open spec fn range_days(range: (int, int)) -> Seq<int> {
    Seq::new(
        if range.0 <= range.1 {
            (range.1 - range.0 + 1) as nat
        } else {
            0
        },
        |i: int| range.0 + i,
    )
}

/// The days of all entries, entry after entry.
pub open spec fn expanded(entries: Seq<OffEntry>) -> Seq<int>
    decreases entries.len(),
{
    if entries.len() == 0 {
        Seq::empty()
    } else {
        expanded(entries.drop_last()) + range_days(entries.last()@)
    }
}

/// The range can be walked day by day without stepping past chrono's last day.
pub open spec fn can_expand(entry: OffEntry) -> bool {
    entry.start@ > entry.end@ || entry.end@ < MAX_DAY_NUMBER
}

/// The entries as (start, end) pairs of day numbers.
pub open spec fn entry_views(entries: Seq<OffEntry>) -> Seq<(int, int)> {
    entries.map_values(|e: OffEntry| e@)
}

/// Whether an entry with this (start, end) pair is in the list.
pub open spec fn has_entry(entries: Seq<OffEntry>, key: (int, int)) -> bool {
    exists|j: int| 0 <= j < entries.len() && (#[trigger] entries[j])@ == key
}

/// The order in which entries are stored: by start, then by end.
pub open spec fn key_less(a: (int, int), b: (int, int)) -> bool {
    a.0 < b.0 || (a.0 == b.0 && a.1 < b.1)
}

/// Sorted by start then end, with no entry twice.
pub open spec fn strictly_sorted(entries: Seq<OffEntry>) -> bool {
    forall|i: int, j: int| 0 <= i < j < entries.len() ==> key_less(entries[i]@, entries[j]@)
}

/// The entries whose start is not day `n`, in their order.
pub open spec fn without_start(entries: Seq<OffEntry>, n: int) -> Seq<OffEntry>
    decreases entries.len(),
{
    if entries.len() == 0 {
        Seq::empty()
    } else if entries.last().start@ == n {
        without_start(entries.drop_last(), n)
    } else {
        without_start(entries.drop_last(), n).push(entries.last())
    }
}

/// The index of the first entry that ends before it starts, from `i` on.
pub open spec fn first_reversed_from(entries: Seq<OffEntry>, i: int) -> Option<int>
    decreases entries.len() - i,
{
    if i < 0 || i >= entries.len() {
        None
    } else if entries[i].end@ < entries[i].start@ {
        Some(i)
    } else {
        first_reversed_from(entries, i + 1)
    }
}

impl OffEntry {
    /// The range from `start` to `end`; refused where `end` comes before `start`.
    pub fn range(start: Date, end: Date) -> (r: Result<OffEntry, OffDaysError>)
        ensures
            r is Ok <==> start@ <= end@,
            r matches Ok(e) ==> e.start == start && e.end == end,
            r matches Err(err) ==> err == (OffDaysError::EndBeforeStart { start, end }),
    {
        if end.num_days_from_ce() < start.num_days_from_ce() {
            Err(OffDaysError::EndBeforeStart { start, end })
        } else {
            Ok(OffEntry { start, end })
        }
    }

    /// Every day of the range, in order.
    pub fn dates(&self) -> (r: Vec<Date>)
        requires
            can_expand(*self),
        ensures
            r@.map_values(|d: Date| d@) == range_days(self@),
    {
        let last = self.end.num_days_from_ce();
        let mut out: Vec<Date> = Vec::new();
        let mut d = self.start;
        if d.num_days_from_ce() > last {
            assert(out@.map_values(|d: Date| d@) =~= range_days(self@));
            return out;
        }
        while d.num_days_from_ce() <= last
            invariant
                last == self.end@,
                self.start@ <= d@ <= last + 1,
                last < MAX_DAY_NUMBER,
                out@.len() == d@ - self.start@,
                forall|i: int| 0 <= i < out@.len() ==> (#[trigger] out@[i])@ == self.start@ + i,
            decreases last + 1 - d@,
        {
            out.push(d);
            d = d.checked_add_days(1).unwrap();
        }
        assert(out@.map_values(|d: Date| d@) =~= range_days(self@));
        out
    }
}

proof fn lemma_expanded_step(entries: Seq<OffEntry>, i: int)
    requires
        0 <= i < entries.len(),
    ensures
        expanded(entries.take(i + 1)) == expanded(entries.take(i)) + range_days(entries[i]@),
{
    assert(entries.take(i + 1).drop_last() =~= entries.take(i));
}

/// All days off, every range expanded into its days.
pub fn load_expanded(entries: &[OffEntry]) -> (r: Vec<Date>)
    requires
        forall|i: int| 0 <= i < entries@.len() ==> can_expand(#[trigger] entries@[i]),
    ensures
        r@.map_values(|d: Date| d@) == expanded(entries@),
{
    let mut out: Vec<Date> = Vec::new();
    let mut i: usize = 0;
    while i < entries.len()
        invariant
            i <= entries@.len(),
            forall|k: int| 0 <= k < entries@.len() ==> can_expand(#[trigger] entries@[k]),
            out@.map_values(|d: Date| d@) == expanded(entries@.take(i as int)),
        decreases entries@.len() - i,
    {
        let days = entries[i].dates();
        let ghost before = out@;
        let mut k: usize = 0;
        while k < days.len()
            invariant
                k <= days@.len(),
                out@ == before + days@.take(k as int),
            decreases days@.len() - k,
        {
            out.push(days[k]);
            proof {
                assert(days@.take(k as int + 1) =~= days@.take(k as int).push(days@[k as int]));
            }
            k = k + 1;
        }
        proof {
            lemma_expanded_step(entries@, i as int);
            assert(days@.take(days@.len() as int) =~= days@);
            assert(out@.map_values(|d: Date| d@) =~= before.map_values(|d: Date| d@)
                + days@.map_values(|d: Date| d@));
        }
        i = i + 1;
    }
    assert(entries@.take(entries@.len() as int) =~= entries@);
    out
}

/// Checks a loaded list: refused at the first entry that ends before it starts.
pub fn check_loaded(entries: Vec<OffEntry>) -> (r: Result<Vec<OffEntry>, OffDaysError>)
    ensures
        match first_reversed_from(entries@, 0) {
            None => r matches Ok(list) && list@ == entries@,
            Some(i) => r == Err::<Vec<OffEntry>, OffDaysError>(
                OffDaysError::EndBeforeStart { start: entries@[i].start, end: entries@[i].end },
            ),
        },
{
    let mut i: usize = 0;
    while i < entries.len()
        invariant
            i <= entries@.len(),
            first_reversed_from(entries@, 0) == first_reversed_from(entries@, i as int),
        decreases entries@.len() - i,
    {
        let e = entries[i];
        if e.end.num_days_from_ce() < e.start.num_days_from_ce() {
            return Err(OffDaysError::EndBeforeStart { start: e.start, end: e.end });
        }
        i = i + 1;
    }
    Ok(entries)
}

/// Whether an entry with the same start and end is in the list.
fn contains_entry(entries: &Vec<OffEntry>, entry: OffEntry) -> (r: bool)
    ensures
        r == has_entry(entries@, entry@),
{
    let s = entry.start.num_days_from_ce();
    let e = entry.end.num_days_from_ce();
    let mut j: usize = 0;
    while j < entries.len()
        invariant
            j <= entries@.len(),
            s == entry.start@,
            e == entry.end@,
            forall|k: int| 0 <= k < j ==> (#[trigger] entries@[k])@ != entry@,
        decreases entries@.len() - j,
    {
        if entries[j].start.num_days_from_ce() == s && entries[j].end.num_days_from_ce() == e {
            return true;
        }
        j = j + 1;
    }
    false
}

/// Adds `entry` unless the same range is already listed; says whether it added it.
pub fn add(entries: &mut Vec<OffEntry>, entry: OffEntry) -> (added: bool)
    ensures
        added == !has_entry(old(entries)@, entry@),
        added ==> final(entries)@ == old(entries)@.push(entry),
        !added ==> final(entries)@ == old(entries)@,
{
    if contains_entry(entries, entry) {
        return false;
    }
    entries.push(entry);
    true
}

proof fn lemma_without_start_step(entries: Seq<OffEntry>, i: int, n: int)
    requires
        0 <= i < entries.len(),
    ensures
        without_start(entries.take(i + 1), n) == if entries[i].start@ == n {
            without_start(entries.take(i), n)
        } else {
            without_start(entries.take(i), n).push(entries[i])
        },
{
    assert(entries.take(i + 1).drop_last() =~= entries.take(i));
}

proof fn lemma_without_start_len(entries: Seq<OffEntry>, n: int)
    ensures
        without_start(entries, n).len() <= entries.len(),
        without_start(entries, n).len() == entries.len() <==> forall|j: int|
            0 <= j < entries.len() ==> (#[trigger] entries[j]).start@ != n,
    decreases entries.len(),
{
    if entries.len() > 0 {
        let rest = entries.drop_last();
        lemma_without_start_len(rest, n);
        let last = entries.len() - 1;
        if entries[last].start@ == n {
            assert(entries[last].start@ == n);
        } else {
            if forall|j: int| 0 <= j < rest.len() ==> (#[trigger] rest[j]).start@ != n {
                assert forall|j: int| 0 <= j < entries.len() implies (
                #[trigger] entries[j]).start@ != n by {
                    if j < last {
                        assert(rest[j] == entries[j]);
                    }
                }
            } else {
                let j = choose|j: int| 0 <= j < rest.len() && (#[trigger] rest[j]).start@ == n;
                assert(entries[j] == rest[j]);
            }
        }
    }
}

/// Removes every entry that starts on `date`; says whether any was removed.
pub fn remove_by_start(entries: &mut Vec<OffEntry>, date: Date) -> (removed: bool)
    ensures
        final(entries)@ == without_start(old(entries)@, date@),
        removed == (final(entries)@.len() < old(entries)@.len()),
        removed == exists|j: int|
            0 <= j < old(entries)@.len() && (#[trigger] old(entries)@[j]).start@ == date@,
{
    let n = date.num_days_from_ce();
    let before = entries.len();
    let mut kept: Vec<OffEntry> = Vec::new();
    let mut i: usize = 0;
    while i < entries.len()
        invariant
            i <= entries@.len(),
            entries@ == old(entries)@,
            n == date@,
            kept@ == without_start(entries@.take(i as int), n as int),
        decreases entries@.len() - i,
    {
        proof {
            lemma_without_start_step(entries@, i as int, n as int);
        }
        let e = entries[i];
        if e.start.num_days_from_ce() != n {
            kept.push(e);
        }
        i = i + 1;
    }
    assert(entries@.take(entries@.len() as int) =~= entries@);
    proof {
        lemma_without_start_len(old(entries)@, date@);
    }
    *entries = kept;
    entries.len() < before
}

/// Where `entry` goes in a strictly sorted list: the first position whose entry is
/// not ordered before it.
fn insertion_point(sorted: &Vec<OffEntry>, entry: OffEntry) -> (p: usize)
    requires
        strictly_sorted(sorted@),
    ensures
        p <= sorted@.len(),
        forall|j: int| 0 <= j < p ==> key_less(#[trigger] sorted@[j]@, entry@),
        p < sorted@.len() ==> !key_less(sorted@[p as int]@, entry@),
{
    let s = entry.start.num_days_from_ce();
    let e = entry.end.num_days_from_ce();
    let mut p: usize = 0;
    while p < sorted.len()
        invariant
            p <= sorted@.len(),
            s == entry.start@,
            e == entry.end@,
            forall|j: int| 0 <= j < p ==> key_less(#[trigger] sorted@[j]@, entry@),
        decreases sorted@.len() - p,
    {
        let a = sorted[p].start.num_days_from_ce();
        let b = sorted[p].end.num_days_from_ce();
        if !(a < s || (a == s && b < e)) {
            return p;
        }
        p = p + 1;
    }
    p
}

/// The list as it is stored: sorted by start then end, each range once.
pub fn normalized(entries: &[OffEntry]) -> (r: Vec<OffEntry>)
    ensures
        strictly_sorted(r@),
        forall|key: (int, int)| has_entry(r@, key) <==> has_entry(entries@, key),
{
    let mut out: Vec<OffEntry> = Vec::new();
    let mut i: usize = 0;
    while i < entries.len()
        invariant
            i <= entries@.len(),
            strictly_sorted(out@),
            forall|key: (int, int)|
                has_entry(out@, key) <==> has_entry(entries@.take(i as int), key),
        decreases entries@.len() - i,
    {
        let entry = entries[i];
        let p = insertion_point(&out, entry);
        let ghost old_out = out@;
        let duplicate = p < out.len() && out[p].start.num_days_from_ce()
            == entry.start.num_days_from_ce() && out[p].end.num_days_from_ce()
            == entry.end.num_days_from_ce();
        if !duplicate {
            out.insert(p, entry);
            proof {
                assert forall|a: int, b: int| 0 <= a < b < out@.len() implies key_less(
                    out@[a]@,
                    out@[b]@,
                ) by {
                    if b < p {
                    } else if a < p && b == p {
                    } else if a < p {
                        assert(out@[b] == old_out[b - 1]);
                    } else if a == p {
                        assert(out@[b] == old_out[b - 1]);
                        assert(!key_less(old_out[p as int]@, entry@));
                        assert(old_out[p as int]@ != entry@);
                        if b - 1 > p {
                            assert(key_less(old_out[p as int]@, old_out[b - 1]@));
                        }
                    } else {
                        assert(out@[a] == old_out[a - 1]);
                        assert(out@[b] == old_out[b - 1]);
                    }
                }
            }
        }
        proof {
            assert(entries@.take(i as int + 1) =~= entries@.take(i as int).push(entry));
            assert forall|key: (int, int)| has_entry(out@, key) <==> has_entry(
                entries@.take(i as int + 1),
                key,
            ) by {
                let taken = entries@.take(i as int + 1);
                if has_entry(taken, key) {
                    let j = choose|j: int| 0 <= j < taken.len() && (#[trigger] taken[j])@ == key;
                    if j < i {
                        assert(entries@.take(i as int)[j] == taken[j]);
                        assert(has_entry(old_out, key));
                        let k = choose|k: int| 0 <= k < old_out.len() && (#[trigger] old_out[k])@ == key;
                        if !duplicate {
                            if k < p {
                                assert(out@[k] == old_out[k]);
                            } else {
                                assert(out@[k + 1] == old_out[k]);
                            }
                        }
                    } else {
                        if duplicate {
                            assert(out@[p as int]@ == key);
                        } else {
                            assert(out@[p as int] == entry);
                        }
                    }
                }
                if has_entry(out@, key) {
                    let k = choose|k: int| 0 <= k < out@.len() && (#[trigger] out@[k])@ == key;
                    if !duplicate {
                        if k < p {
                            assert(old_out[k] == out@[k]);
                            assert(has_entry(old_out, key));
                        } else if k == p {
                            assert(taken[i as int] == entry);
                        } else {
                            assert(old_out[k - 1] == out@[k]);
                            assert(has_entry(old_out, key));
                        }
                    } else {
                        assert(has_entry(old_out, key));
                    }
                    if has_entry(old_out, key) {
                        let j = choose|j: int|
                            0 <= j < i && (#[trigger] entries@.take(i as int)[j])@ == key;
                        assert(taken[j] == entries@.take(i as int)[j]);
                    }
                }
            }
        }
        i = i + 1;
    }
    assert(entries@.take(entries@.len() as int) =~= entries@);
    out
}

/// After an entry is added, the same range is listed, so adding it again adds
/// nothing.
pub proof fn lemma_added_entry_is_listed(entries: Seq<OffEntry>, entry: OffEntry)
    ensures
        has_entry(entries.push(entry), entry@),
{
    assert(entries.push(entry)[entries.len() as int] == entry);
}

/// Removing by start day takes out exactly the entries that start on that day.
pub proof fn lemma_removed_start_is_gone(entries: Seq<OffEntry>, n: int)
    ensures
        forall|key: (int, int)|
            #![trigger has_entry(without_start(entries, n), key)]
            #![trigger has_entry(entries, key)]
            has_entry(without_start(entries, n), key) <==> (has_entry(entries, key) && key.0 != n),
    decreases entries.len(),
{
    if entries.len() > 0 {
        let rest = entries.drop_last();
        let last = entries.last();
        lemma_removed_start_is_gone(rest, n);
        assert forall|key: (int, int)|
            has_entry(without_start(entries, n), key) <==> (has_entry(entries, key) && key.0
                != n) by {
            let w = without_start(entries, n);
            let wr = without_start(rest, n);
            if last.start@ == n {
                assert(w == wr);
            } else {
                assert(w == wr.push(last));
            }
            if has_entry(w, key) {
                let k = choose|k: int| 0 <= k < w.len() && (#[trigger] w[k])@ == key;
                if last.start@ == n || k < wr.len() {
                    assert(w[k] == wr[k]);
                    assert(has_entry(wr, key));
                    let r = choose|r: int| 0 <= r < rest.len() && (#[trigger] rest[r])@ == key;
                    assert(entries[r] == rest[r]);
                } else {
                    assert(w[k] == last);
                    assert(entries[entries.len() - 1] == last);
                }
            }
            if has_entry(entries, key) && key.0 != n {
                let r = choose|r: int| 0 <= r < entries.len() && (#[trigger] entries[r])@ == key;
                if r < entries.len() - 1 {
                    assert(rest[r] == entries[r]);
                    assert(has_entry(rest, key));
                    let k = choose|k: int| 0 <= k < wr.len() && (#[trigger] wr[k])@ == key;
                    if last.start@ != n {
                        assert(w[k] == wr[k]);
                    }
                } else {
                    assert(w[wr.len() as int] == last);
                }
            }
        }
    }
}

/// Two stored lists (sorted by start then end, each range once) that hold the same
/// ranges are the same list: the stored form of a set of ranges is unique, so
/// storing an already stored list changes nothing.
pub proof fn lemma_stored_list_is_unique(a: Seq<OffEntry>, b: Seq<OffEntry>)
    requires
        strictly_sorted(a),
        strictly_sorted(b),
        forall|key: (int, int)| has_entry(a, key) <==> has_entry(b, key),
    ensures
        entry_views(a) == entry_views(b),
    decreases a.len(),
{
    if a.len() == 0 {
        if b.len() > 0 {
            assert(has_entry(b, b[0]@));
        }
        assert(entry_views(a) =~= entry_views(b));
    } else {
        assert(has_entry(a, a.last()@));
        assert(b.len() > 0);
        assert(has_entry(b, b.last()@));
        let ka = a.last()@;
        let kb = b.last()@;
        let i = choose|i: int| 0 <= i < b.len() && (#[trigger] b[i])@ == ka;
        let j = choose|j: int| 0 <= j < a.len() && (#[trigger] a[j])@ == kb;
        if i < b.len() - 1 {
            assert(key_less(b[i]@, b[b.len() - 1]@));
        }
        if j < a.len() - 1 {
            assert(key_less(a[j]@, a[a.len() - 1]@));
        }
        assert(ka == kb);
        let ra = a.drop_last();
        let rb = b.drop_last();
        assert forall|key: (int, int)| has_entry(ra, key) <==> has_entry(rb, key) by {
            if has_entry(ra, key) {
                let x = choose|x: int| 0 <= x < ra.len() && (#[trigger] ra[x])@ == key;
                assert(a[x] == ra[x]);
                assert(has_entry(a, key));
                assert(key_less(a[x]@, a[a.len() - 1]@));
                let y = choose|y: int| 0 <= y < b.len() && (#[trigger] b[y])@ == key;
                if y == b.len() - 1 {
                    assert(false);
                }
                assert(rb[y] == b[y]);
            }
            if has_entry(rb, key) {
                let y = choose|y: int| 0 <= y < rb.len() && (#[trigger] rb[y])@ == key;
                assert(b[y] == rb[y]);
                assert(has_entry(b, key));
                assert(key_less(b[y]@, b[b.len() - 1]@));
                let x = choose|x: int| 0 <= x < a.len() && (#[trigger] a[x])@ == key;
                if x == a.len() - 1 {
                    assert(false);
                }
                assert(ra[x] == a[x]);
            }
        }
        assert forall|x: int, y: int| 0 <= x < y < ra.len() implies key_less(ra[x]@, ra[y]@) by {
            assert(ra[x] == a[x] && ra[y] == a[y]);
        }
        assert forall|x: int, y: int| 0 <= x < y < rb.len() implies key_less(rb[x]@, rb[y]@) by {
            assert(rb[x] == b[x] && rb[y] == b[y]);
        }
        lemma_stored_list_is_unique(ra, rb);
        assert(entry_views(ra) == entry_views(a).drop_last());
        assert(entry_views(rb) == entry_views(b).drop_last());
        assert(entry_views(a) =~= entry_views(ra).push(ka));
        assert(entry_views(b) =~= entry_views(rb).push(kb));
    }
}

} // verus!
