//! Measurement records: the level of each channel over one period, keyed by
//! the channel's display name.

use vstd::prelude::*;

verus! {

/// The level measured for one channel over one period. The level is the raw
/// word of a single-precision value.
pub struct Measurement {
    pub name: String,
    pub level: u32,
}

/// No two measurements of the sequence carry the same name.
pub open spec fn distinct_names(entries: Seq<Measurement>) -> bool {
    forall|i: int, j: int|
        0 <= i < j < entries.len() ==> (#[trigger] entries[i]).name@ != (#[trigger] entries[j]).name@
}

/// The sequence read as a map from display name to level; where a name
/// occurs twice the later measurement counts.
pub open spec fn record_map(entries: Seq<Measurement>) -> Map<Seq<char>, u32>
    decreases entries.len(),
{
    if entries.len() == 0 {
        Map::empty()
    } else {
        record_map(entries.drop_last()).insert(entries.last().name@, entries.last().level)
    }
}

/// A name is a key of the map exactly when some measurement carries it, and
/// without repeated names the map gives each measurement's own level.
pub proof fn lemma_record_map(entries: Seq<Measurement>)
    ensures
        forall|name: Seq<char>|
            record_map(entries).contains_key(name) <==> exists|i: int|
                0 <= i < entries.len() && (#[trigger] entries[i]).name@ == name,
        distinct_names(entries) ==> forall|i: int|
            0 <= i < entries.len() ==> record_map(entries)[(#[trigger] entries[i]).name@]
                == entries[i].level,
    decreases entries.len(),
{
    if entries.len() > 0 {
        let front = entries.drop_last();
        lemma_record_map(front);
        assert forall|name: Seq<char>|
            record_map(entries).contains_key(name) <==> exists|i: int|
                0 <= i < entries.len() && (#[trigger] entries[i]).name@ == name by {
            if record_map(entries).contains_key(name) {
                if name == entries.last().name@ {
                    assert(entries[entries.len() - 1].name@ == name);
                } else {
                    assert(record_map(front).contains_key(name));
                    let i = choose|i: int| 0 <= i < front.len() && (#[trigger] front[i]).name@ == name;
                    assert(entries[i].name@ == name);
                }
            }
            if exists|i: int| 0 <= i < entries.len() && (#[trigger] entries[i]).name@ == name {
                let i = choose|i: int| 0 <= i < entries.len() && (#[trigger] entries[i]).name@ == name;
                if i < front.len() {
                    assert(front[i].name@ == name);
                    assert(record_map(front).contains_key(name));
                }
            }
        }
        if distinct_names(entries) {
            assert(distinct_names(front)) by {
                assert forall|i: int, j: int| 0 <= i < j < front.len() implies (
                #[trigger] front[i]).name@ != (#[trigger] front[j]).name@ by {
                    assert(entries[i].name@ != entries[j].name@);
                }
            }
            assert forall|i: int| 0 <= i < entries.len() implies record_map(entries)[(
            #[trigger] entries[i]).name@] == entries[i].level by {
                if i < front.len() {
                    assert(entries[i].name@ != entries[entries.len() - 1].name@);
                    assert(front[i].name@ == entries[i].name@);
                }
            }
        }
    }
}

/// Some measurement of the sequence carries the name.
pub open spec fn has_name(entries: Seq<Measurement>, name: Seq<char>) -> bool {
    exists|i: int| 0 <= i < entries.len() && (#[trigger] entries[i]).name@ == name
}

/// The place in the sequence of the measurement with a name.
pub open spec fn place_of_name(entries: Seq<Measurement>, name: Seq<char>) -> int {
    choose|i: int| 0 <= i < entries.len() && (#[trigger] entries[i]).name@ == name
}

/// The sequence after a level is recorded under a name: the measurement
/// with that name takes the level, or a new measurement goes to the end
/// when the name is new.
pub open spec fn recorded(entries: Seq<Measurement>, name: String, level: u32) -> Seq<
    Measurement,
> {
    if has_name(entries, name@) {
        let place = place_of_name(entries, name@);
        entries.update(place, Measurement { name: entries[place].name, level })
    } else {
        entries.push(Measurement { name, level })
    }
}

/// The sequence after each measurement of a run is recorded in turn.
pub open spec fn recorded_all(measurements: Seq<Measurement>) -> Seq<Measurement>
    decreases measurements.len(),
{
    if measurements.len() == 0 {
        Seq::empty()
    } else {
        recorded(
            recorded_all(measurements.drop_last()),
            measurements.last().name,
            measurements.last().level,
        )
    }
}

/// One entry for each channel: measurements under distinct names, one for
/// each channel, are recorded as they stand, each channel's name with its
/// own level.
pub proof fn lemma_recorded_all_distinct(measurements: Seq<Measurement>)
    requires
        distinct_names(measurements),
    ensures
        recorded_all(measurements) == measurements,
    decreases measurements.len(),
{
    if measurements.len() == 0 {
        assert(recorded_all(measurements) =~= measurements);
    } else {
        let front = measurements.drop_last();
        let last = measurements.last();
        assert(distinct_names(front)) by {
            assert forall|i: int, j: int| 0 <= i < j < front.len() implies (
            #[trigger] front[i]).name@ != (#[trigger] front[j]).name@ by {
                assert(measurements[i].name@ != measurements[j].name@);
            }
        }
        lemma_recorded_all_distinct(front);
        assert(!has_name(front, last.name@)) by {
            if has_name(front, last.name@) {
                let i = place_of_name(front, last.name@);
                assert(measurements[i].name@ != measurements[measurements.len() - 1].name@);
            }
        }
        assert(front.push(Measurement { name: last.name, level: last.level }) =~= measurements);
    }
}

/// The levels of one period, one for each display name.
pub struct Record {
    entries: Vec<Measurement>,
}

impl View for Record {
    type V = Map<Seq<char>, u32>;

    /// The record as a map from display name to level.
    open spec fn view(&self) -> Map<Seq<char>, u32> {
        record_map(self.entries())
    }
}

impl Record {
    /// The measurements in the order in which their names were first entered.
    pub closed spec fn entries(&self) -> Seq<Measurement> {
        self.entries@
    }

    /// The invariant of a record: no name occurs twice.
    pub open spec fn wf(&self) -> bool {
        distinct_names(self.entries())
    }

    /// Makes an empty record.
    pub fn new() -> (record: Record)
        ensures
            record.wf(),
            record.entries() == Seq::<Measurement>::empty(),
            record@ == Map::<Seq<char>, u32>::empty(),
    {
        Record { entries: Vec::new() }
    }

    /// The number of names in the record.
    pub fn len(&self) -> (n: usize)
        ensures
            n == self.entries().len(),
    {
        self.entries.len()
    }

    /// The measurement at a place in the record.
    pub fn entry(&self, place: usize) -> (entry: &Measurement)
        requires
            place < self.entries().len(),
        ensures
            *entry == self.entries()[place as int],
    {
        &self.entries[place]
    }

    /// The place in the record of the measurement with a name.
    pub fn find(&self, name: &String) -> (place: Option<usize>)
        ensures
            match place {
                Some(p) => {
                    &&& p < self.entries().len()
                    &&& self.entries()[p as int].name@ == name@
                    &&& forall|i: int| 0 <= i < p ==> (#[trigger] self.entries()[i]).name@ != name@
                },
                None => !has_name(self.entries(), name@),
            },
    {
        let mut i: usize = 0;
        while i < self.entries.len()
            invariant
                i <= self.entries.len(),
                forall|k: int| 0 <= k < i ==> (#[trigger] self.entries@[k]).name@ != name@,
            decreases self.entries.len() - i,
        {
            if self.entries[i].name == *name {
                return Some(i);
            }
            i += 1;
        }
        None
    }

    /// The level recorded under a name, if the record has the name.
    pub fn get(&self, name: &String) -> (level: Option<u32>)
        requires
            self.wf(),
        ensures
            level == if self@.contains_key(name@) {
                Some(self@[name@])
            } else {
                None
            },
    {
        proof {
            lemma_record_map(self.entries());
        }
        match self.find(name) {
            Some(place) => Some(self.entries[place].level),
            None => None,
        }
    }

    /// Records a level under a name. A name that the record already has
    /// keeps its place and takes the new level.
    pub fn insert(&mut self, name: String, level: u32)
        requires
            old(self).wf(),
        ensures
            final(self).wf(),
            final(self)@ == old(self)@.insert(name@, level),
            final(self).entries() == recorded(old(self).entries(), name, level),
    {
        proof {
            lemma_record_map(self.entries());
        }
        match self.find(&name) {
            Some(place) => {
                self.entries[place].level = level;
                proof {
                    assert(has_name(old(self).entries(), name@)) by {
                        assert(old(self).entries()[place as int].name@ == name@);
                    }
                    let p = place_of_name(old(self).entries(), name@);
                    if p < place {
                        assert(old(self).entries()[p].name@ != old(self).entries()[place as int].name@);
                    } else if p > place {
                        assert(old(self).entries()[place as int].name@ != old(self).entries()[p].name@);
                    }
                    assert(self.entries() =~= old(self).entries().update(
                        place as int,
                        Measurement { name: old(self).entries()[place as int].name, level },
                    ));
                    lemma_record_map(self.entries());
                    assert(self@ =~= old(self)@.insert(name@, level)) by {
                        assert forall|k: Seq<char>| self@.contains_key(k) implies #[trigger] self@[k]
                            == old(self)@.insert(name@, level)[k] by {
                            let i = choose|i: int|
                                0 <= i < self.entries().len() && (
                                #[trigger] self.entries()[i]).name@ == k;
                            assert(old(self).entries()[i].name@ == k);
                        }
                        assert forall|k: Seq<char>| old(self)@.insert(name@, level).contains_key(
                            k,
                        ) implies self@.contains_key(k) by {
                            if k == name@ {
                                assert(self.entries()[place as int].name@ == k);
                            } else {
                                let i = choose|i: int|
                                    0 <= i < old(self).entries().len() && (#[trigger] old(
                                        self,
                                    ).entries()[i]).name@ == k;
                                assert(self.entries()[i].name@ == k);
                            }
                        }
                    }
                }
            },
            None => {
                self.entries.push(Measurement { name, level });
                proof {
                    assert(self.entries().drop_last() =~= old(self).entries());
                    assert(!has_name(old(self).entries(), name@));
                }
            },
        }
    }

    /// Collects the measurements of one period into a record.
    pub fn from_measurements(measurements: &Vec<Measurement>) -> (record: Record)
        ensures
            record.wf(),
            record@ == record_map(measurements@),
            record.entries() == recorded_all(measurements@),
    {
        let mut record = Record::new();
        let mut i: usize = 0;
        while i < measurements.len()
            invariant
                i <= measurements.len(),
                record.wf(),
                record@ == record_map(measurements@.take(i as int)),
                record.entries() == recorded_all(measurements@.take(i as int)),
            decreases measurements.len() - i,
        {
            proof {
                assert(measurements@.take(i + 1).drop_last() =~= measurements@.take(i as int));
            }
            record.insert(measurements[i].name.clone(), measurements[i].level);
            i += 1;
        }
        proof {
            assert(measurements@.take(measurements.len() as int) =~= measurements@);
        }
        record
    }
}

} // verus!
