//! The rolling history: the most recent measurement records, newest first,
//! never more than the sampling factor, and the per-channel series that a
//! snapshot is averaged from.

use vstd::prelude::*;
use crate::record::{lemma_record_map, Measurement, Record};

verus! {

/// A history after one more record: the record goes to the front, and what
/// no longer fits the depth falls off the end.
pub open spec fn inserted<A>(history: Seq<A>, item: A, depth: nat) -> Seq<A> {
    if history.len() + 1 <= depth {
        seq![item] + history
    } else {
        (seq![item] + history).take(depth as int)
    }
}

/// A history after a run of records, inserted in the order of the run.
pub open spec fn inserted_all<A>(history: Seq<A>, items: Seq<A>, depth: nat) -> Seq<A>
    decreases items.len(),
{
    if items.len() == 0 {
        history
    } else {
        inserted(inserted_all(history, items.drop_last(), depth), items.last(), depth)
    }
}

/// Inserting a run of records into a history within its depth leaves the
/// run in reverse order followed by the old records, cut to the depth.
pub proof fn lemma_inserted_all<A>(history: Seq<A>, items: Seq<A>, depth: nat)
    requires
        history.len() <= depth,
    ensures
        inserted_all(history, items, depth).len() == if items.len() + history.len() <= depth {
            items.len() + history.len()
        } else {
            depth
        },
        inserted_all(history, items, depth) == (items.reverse() + history).take(
            inserted_all(history, items, depth).len() as int,
        ),
    decreases items.len(),
{
    if items.len() == 0 {
        assert(items.reverse() + history =~= history);
        assert(history.take(history.len() as int) =~= history);
    } else {
        let front = items.drop_last();
        lemma_inserted_all(history, front, depth);
        let before = inserted_all(history, front, depth);
        let after = inserted_all(history, items, depth);
        assert(after.len() == if items.len() + history.len() <= depth {
            items.len() + history.len()
        } else {
            depth
        });
        let whole = items.reverse() + history;
        assert forall|i: int| 0 <= i < after.len() implies after[i] == whole[i] by {
            if i == 0 {
                assert(whole[0] == items.last());
            } else {
                assert(after[i] == before[i - 1]);
                assert(before[i - 1] == (front.reverse() + history)[i - 1]);
                if i - 1 < front.len() {
                    assert(front.reverse()[i - 1] == items[items.len() - 1 - i]);
                }
            }
        }
        assert(after =~= whole.take(after.len() as int));
    }
}

/// After more records than its depth have been inserted, a history holds
/// exactly as many records as its depth: the most recently inserted ones,
/// the latest first.
pub proof fn lemma_history_keeps_latest<A>(history: Seq<A>, items: Seq<A>, depth: nat)
    requires
        history.len() <= depth,
        items.len() > depth,
    ensures
        inserted_all(history, items, depth).len() == depth,
        forall|i: int|
            0 <= i < depth ==> #[trigger] inserted_all(history, items, depth)[i] == items[items.len()
                - 1 - i],
{
    lemma_inserted_all(history, items, depth);
}

/// The levels recorded under a name, in the order of the history's records,
/// records without the name left out.
pub open spec fn levels_of(history: Seq<Map<Seq<char>, u32>>, name: Seq<char>) -> Seq<u32>
    decreases history.len(),
{
    if history.len() == 0 {
        Seq::empty()
    } else if history.last().contains_key(name) {
        levels_of(history.drop_last(), name).push(history.last()[name])
    } else {
        levels_of(history.drop_last(), name)
    }
}

/// Some record of the history has the name.
pub open spec fn observed(history: Seq<Map<Seq<char>, u32>>, name: Seq<char>) -> bool {
    exists|i: int| 0 <= i < history.len() && (#[trigger] history[i]).contains_key(name)
}

/// A name that no record has was never given a level.
pub proof fn lemma_levels_of_unobserved(history: Seq<Map<Seq<char>, u32>>, name: Seq<char>)
    requires
        !observed(history, name),
    ensures
        levels_of(history, name) == Seq::<u32>::empty(),
    decreases history.len(),
{
    if history.len() > 0 {
        let front = history.drop_last();
        assert(!history[history.len() - 1].contains_key(name));
        assert(!observed(front, name)) by {
            if observed(front, name) {
                let i = choose|i: int| 0 <= i < front.len() && (#[trigger] front[i]).contains_key(name);
                assert(history[i].contains_key(name));
            }
        }
        lemma_levels_of_unobserved(front, name);
    }
}

/// The levels of one channel over the records of the history that have it.
pub struct ChannelSeries {
    pub name: String,
    pub levels: Vec<u32>,
}

/// Some series of the sequence is for the name.
pub open spec fn has_series(all: Seq<ChannelSeries>, name: Seq<char>) -> bool {
    exists|j: int| 0 <= j < all.len() && (#[trigger] all[j]).name@ == name
}

/// No two series of the sequence are for the same name.
pub open spec fn distinct_series(all: Seq<ChannelSeries>) -> bool {
    forall|a: int, b: int|
        0 <= a < b < all.len() ==> (#[trigger] all[a]).name@ != (#[trigger] all[b]).name@
}

/// One of the first `k` measurements carries the name.
spec fn named_before(entries: Seq<Measurement>, k: int, name: Seq<char>) -> bool {
    exists|e: int| 0 <= e < k && (#[trigger] entries[e]).name@ == name
}

/// The place of the series for a name.
fn find_series(all: &Vec<ChannelSeries>, name: &String) -> (place: Option<usize>)
    ensures
        match place {
            Some(p) => p < all@.len() && all@[p as int].name@ == name@,
            None => !has_series(all@, name@),
        },
{
    let mut j: usize = 0;
    while j < all.len()
        invariant
            j <= all.len(),
            forall|k: int| 0 <= k < j ==> (#[trigger] all@[k]).name@ != name@,
        decreases all.len() - j,
    {
        if all[j].name == *name {
            return Some(j);
        }
        j += 1;
    }
    None
}

/// The most recent records, newest first.
pub struct History {
    records: Vec<Record>,
    depth: usize,
}

impl View for History {
    type V = Seq<Map<Seq<char>, u32>>;

    /// The records as maps from display name to level, newest first.
    closed spec fn view(&self) -> Seq<Map<Seq<char>, u32>> {
        self.records@.map_values(|record: Record| record@)
    }
}

impl History {
    /// The largest number of records the history keeps: the sampling factor.
    pub closed spec fn depth(&self) -> nat {
        self.depth as nat
    }

    /// The invariant of a history: its records are sound, and there are no
    /// more of them than the depth.
    pub closed spec fn wf(&self) -> bool {
        &&& self.records@.len() <= self.depth
        &&& forall|i: int| 0 <= i < self.records@.len() ==> (#[trigger] self.records@[i]).wf()
    }

    /// What the invariant gives: the history is within its depth.
    pub proof fn lemma_wf(&self)
        requires
            self.wf(),
        ensures
            self@.len() <= self.depth(),
    {
    }

    /// Makes an empty history that keeps up to `depth` records.
    pub fn new(depth: usize) -> (history: History)
        ensures
            history.wf(),
            history.depth() == depth,
            history@ == Seq::<Map<Seq<char>, u32>>::empty(),
    {
        let history = History { records: Vec::new(), depth };
        proof {
            assert(history@ =~= Seq::<Map<Seq<char>, u32>>::empty());
        }
        history
    }

    /// The sampling factor: the depth of the history, and the number that a
    /// snapshot divides each channel's sum of levels by, however many
    /// records the history holds.
    pub fn sampling_factor(&self) -> (factor: usize)
        ensures
            factor == self.depth(),
    {
        self.depth
    }

    /// The number of records in the history.
    pub fn len(&self) -> (n: usize)
        ensures
            n == self@.len(),
    {
        self.records.len()
    }

    /// Puts a record at the front of the history and drops what no longer
    /// fits the depth.
    pub fn insert(&mut self, record: Record)
        requires
            old(self).wf(),
            record.wf(),
        ensures
            final(self).wf(),
            final(self).depth() == old(self).depth(),
            final(self)@ == inserted(old(self)@, record@, old(self).depth()),
    {
        self.records.insert(0, record);
        self.records.truncate(self.depth);
        proof {
            assert(self@ =~= inserted(old(self)@, record@, old(self).depth()));
        }
    }

    /// Groups the history by channel: one series for each display name that
    /// some record has, holding the levels recorded under that name from the
    /// newest record to the oldest. A name that no record has gets no
    /// series.
    pub fn series(&self) -> (all: Vec<ChannelSeries>)
        requires
            self.wf(),
        ensures
            distinct_series(all@),
            forall|name: Seq<char>| #[trigger] has_series(all@, name) <==> observed(self@, name),
            forall|j: int|
                0 <= j < all@.len() ==> (#[trigger] all@[j]).levels@ == levels_of(
                    self@,
                    all@[j].name@,
                ),
    {
        let mut all: Vec<ChannelSeries> = Vec::new();
        let mut i: usize = 0;
        proof {
            assert forall|name: Seq<char>| #[trigger]
                has_series(all@, name) <==> observed(self@.take(0), name) by {
            }
        }
        while i < self.records.len()
            invariant
                self.wf(),
                i <= self.records@.len(),
                self@.len() == self.records@.len(),
                distinct_series(all@),
                forall|name: Seq<char>| #[trigger]
                    has_series(all@, name) <==> observed(self@.take(i as int), name),
                forall|j: int|
                    0 <= j < all@.len() ==> (#[trigger] all@[j]).levels@ == levels_of(
                        self@.take(i as int),
                        all@[j].name@,
                    ),
            decreases self.records@.len() - i,
        {
            let record = &self.records[i];
            let ghost past = self@.take(i as int);
            let ghost entries = record.entries();
            let n = record.len();
            let mut k: usize = 0;
            proof {
                assert(self@[i as int] == record@);
                lemma_record_map(entries);
            }
            while k < n
                invariant
                    record.wf(),
                    entries == record.entries(),
                    n == entries.len(),
                    k <= n,
                    distinct_series(all@),
                    forall|name: Seq<char>| #[trigger]
                        has_series(all@, name) <==> observed(past, name) || named_before(
                            entries,
                            k as int,
                            name,
                        ),
                    forall|j: int|
                        0 <= j < all@.len() ==> (#[trigger] all@[j]).levels@ == if named_before(
                            entries,
                            k as int,
                            all@[j].name@,
                        ) {
                            levels_of(past, all@[j].name@).push(record@[all@[j].name@])
                        } else {
                            levels_of(past, all@[j].name@)
                        },
                decreases n - k,
            {
                let entry = record.entry(k);
                let ghost earlier = all@;
                let found = find_series(&all, &entry.name);
                proof {
                    lemma_record_map(entries);
                    assert(record@[entries[k as int].name@] == entry.level);
                    assert(!named_before(entries, k as int, entry.name@)) by {
                        if named_before(entries, k as int, entry.name@) {
                            let e = choose|e: int|
                                0 <= e < k && (#[trigger] entries[e]).name@ == entry.name@;
                            assert(entries[e].name@ != entries[k as int].name@);
                        }
                    }
                    assert forall|name: Seq<char>|
                        named_before(entries, k + 1, name) <==> named_before(
                            entries,
                            k as int,
                            name,
                        ) || name == entry.name@ by {
                        if named_before(entries, k + 1, name) {
                            let e = choose|e: int|
                                0 <= e < k + 1 && (#[trigger] entries[e]).name@ == name;
                            if e < k {
                                assert(named_before(entries, k as int, name));
                            }
                        }
                        if named_before(entries, k as int, name) {
                            let e = choose|e: int|
                                0 <= e < k && (#[trigger] entries[e]).name@ == name;
                            assert(named_before(entries, k + 1, name));
                        }
                        if name == entry.name@ {
                            assert(entries[k as int].name@ == name);
                        }
                    }
                }
                match found {
                    Some(place) => {
                        all[place].levels.push(entry.level);
                        proof {
                            assert forall|j: int| 0 <= j < all@.len() implies (
                            #[trigger] all@[j]).name@ == earlier[j].name@ by {
                            }
                            assert(distinct_series(all@)) by {
                                assert forall|a: int, b: int| 0 <= a < b < all@.len() implies (
                                #[trigger] all@[a]).name@ != (#[trigger] all@[b]).name@ by {
                                    assert(earlier[a].name@ != earlier[b].name@);
                                }
                            }
                            assert forall|name: Seq<char>| #[trigger]
                                has_series(all@, name) <==> has_series(earlier, name) by {
                                if has_series(all@, name) {
                                    let j = choose|j: int|
                                        0 <= j < all@.len() && (#[trigger] all@[j]).name@ == name;
                                    assert(earlier[j].name@ == name);
                                }
                                if has_series(earlier, name) {
                                    let j = choose|j: int|
                                        0 <= j < earlier.len() && (#[trigger] earlier[j]).name@
                                            == name;
                                    assert(all@[j].name@ == name);
                                }
                            }
                            assert(has_series(earlier, entry.name@)) by {
                                assert(earlier[place as int].name@ == entry.name@);
                            }
                            assert forall|j: int| 0 <= j < all@.len() implies (
                            #[trigger] all@[j]).levels@ == if named_before(
                                entries,
                                k + 1,
                                all@[j].name@,
                            ) {
                                levels_of(past, all@[j].name@).push(record@[all@[j].name@])
                            } else {
                                levels_of(past, all@[j].name@)
                            } by {
                                if j == place {
                                    assert(all@[j].levels@ == earlier[j].levels@.push(entry.level));
                                } else {
                                    assert(all@[j] == earlier[j]);
                                    if j < place {
                                        assert(earlier[j].name@ != earlier[place as int].name@);
                                    } else {
                                        assert(earlier[place as int].name@ != earlier[j].name@);
                                    }
                                }
                            }
                        }
                    },
                    None => {
                        let mut levels: Vec<u32> = Vec::new();
                        levels.push(entry.level);
                        all.push(ChannelSeries { name: entry.name.clone(), levels });
                        proof {
                            assert(!observed(past, entry.name@));
                            lemma_levels_of_unobserved(past, entry.name@);
                            assert(levels@ =~= Seq::<u32>::empty().push(entry.level));
                            assert forall|j: int| 0 <= j < earlier.len() implies (
                            #[trigger] all@[j]) == earlier[j] by {
                            }
                            assert(distinct_series(all@)) by {
                                assert forall|a: int, b: int| 0 <= a < b < all@.len() implies (
                                #[trigger] all@[a]).name@ != (#[trigger] all@[b]).name@ by {
                                    if b < earlier.len() {
                                        assert(earlier[a].name@ != earlier[b].name@);
                                    } else {
                                        assert(earlier[a].name@ != entry.name@);
                                    }
                                }
                            }
                            assert forall|name: Seq<char>| #[trigger]
                                has_series(all@, name) <==> has_series(earlier, name) || name
                                    == entry.name@ by {
                                if has_series(all@, name) {
                                    let j = choose|j: int|
                                        0 <= j < all@.len() && (#[trigger] all@[j]).name@ == name;
                                    if j < earlier.len() {
                                        assert(earlier[j].name@ == name);
                                    }
                                }
                                if has_series(earlier, name) {
                                    let j = choose|j: int|
                                        0 <= j < earlier.len() && (#[trigger] earlier[j]).name@
                                            == name;
                                    assert(all@[j].name@ == name);
                                }
                                if name == entry.name@ {
                                    assert(all@[all@.len() - 1].name@ == name);
                                }
                            }
                            assert forall|j: int| 0 <= j < all@.len() implies (
                            #[trigger] all@[j]).levels@ == if named_before(
                                entries,
                                k + 1,
                                all@[j].name@,
                            ) {
                                levels_of(past, all@[j].name@).push(record@[all@[j].name@])
                            } else {
                                levels_of(past, all@[j].name@)
                            } by {
                                if j < earlier.len() {
                                    assert(all@[j] == earlier[j]);
                                    assert(earlier[j].name@ != entry.name@);
                                }
                            }
                        }
                    },
                }
                k += 1;
            }
            proof {
                let next = self@.take(i + 1);
                assert(next.drop_last() =~= past);
                assert(next.last() == record@);
                assert forall|name: Seq<char>|
                    record@.contains_key(name) <==> named_before(entries, n as int, name) by {
                    if record@.contains_key(name) {
                        let e = choose|e: int|
                            0 <= e < entries.len() && (#[trigger] entries[e]).name@ == name;
                        assert(named_before(entries, n as int, name));
                    }
                }
                assert forall|name: Seq<char>|
                    observed(next, name) <==> observed(past, name) || record@.contains_key(
                        name,
                    ) by {
                    if observed(next, name) {
                        let r = choose|r: int|
                            0 <= r < next.len() && (#[trigger] next[r]).contains_key(name);
                        if r < i {
                            assert(past[r].contains_key(name));
                        }
                    }
                    if observed(past, name) {
                        let r = choose|r: int|
                            0 <= r < past.len() && (#[trigger] past[r]).contains_key(name);
                        assert(next[r].contains_key(name));
                    }
                    if record@.contains_key(name) {
                        assert(next[i as int].contains_key(name));
                    }
                }
            }
            i += 1;
        }
        proof {
            assert(self@.take(self@.len() as int) =~= self@);
        }
        all
    }
}

} // verus!
