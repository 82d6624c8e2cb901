//! The table of monitored channels: which positions of the interleaved
//! stream are watched, and under which display name each is reported.

use vstd::prelude::*;

verus! {

/// One monitored channel: its position in the interleaved stream and the
/// name it is reported under.
pub struct Channel {
    pub index: usize,
    pub name: String,
}

/// No two channels of the sequence share a stream position.
pub open spec fn distinct_indices(channels: Seq<Channel>) -> bool {
    forall|i: int, j: int|
        0 <= i < j < channels.len() ==> (#[trigger] channels[i]).index != (
        #[trigger] channels[j]).index
}

/// The sequence read as a map from stream position to display name; where a
/// position occurs twice the later entry counts.
pub open spec fn table_map(channels: Seq<Channel>) -> Map<usize, Seq<char>>
    decreases channels.len(),
{
    if channels.len() == 0 {
        Map::empty()
    } else {
        table_map(channels.drop_last()).insert(channels.last().index, channels.last().name@)
    }
}

/// A position is a key of the map exactly when some channel has it, and a
/// table without repeated positions maps each channel's position to its name.
pub proof fn lemma_table_map(channels: Seq<Channel>)
    ensures
        forall|index: usize|
            table_map(channels).contains_key(index) <==> exists|i: int|
                0 <= i < channels.len() && (#[trigger] channels[i]).index == index,
        distinct_indices(channels) ==> forall|i: int|
            0 <= i < channels.len() ==> table_map(channels)[(#[trigger] channels[i]).index]
                == channels[i].name@,
    decreases channels.len(),
{
    if channels.len() > 0 {
        let front = channels.drop_last();
        lemma_table_map(front);
        assert forall|index: usize|
            table_map(channels).contains_key(index) <==> exists|i: int|
                0 <= i < channels.len() && (#[trigger] channels[i]).index == index by {
            if table_map(channels).contains_key(index) {
                if index == channels.last().index {
                    assert(channels[channels.len() - 1].index == index);
                } else {
                    assert(table_map(front).contains_key(index));
                    let i = choose|i: int| 0 <= i < front.len() && (#[trigger] front[i]).index == index;
                    assert(channels[i].index == index);
                }
            }
            if exists|i: int| 0 <= i < channels.len() && (#[trigger] channels[i]).index == index {
                let i = choose|i: int|
                    0 <= i < channels.len() && (#[trigger] channels[i]).index == index;
                if i < front.len() {
                    assert(front[i].index == index);
                    assert(table_map(front).contains_key(index));
                }
            }
        }
        if distinct_indices(channels) {
            assert(distinct_indices(front)) by {
                assert forall|i: int, j: int| 0 <= i < j < front.len() implies (
                #[trigger] front[i]).index != (#[trigger] front[j]).index by {
                    assert(channels[i].index != channels[j].index);
                }
            }
            assert forall|i: int| 0 <= i < channels.len() implies table_map(channels)[(
            #[trigger] channels[i]).index] == channels[i].name@ by {
                if i < front.len() {
                    assert(channels[i].index != channels[channels.len() - 1].index);
                    assert(front[i].index == channels[i].index);
                }
            }
        }
    }
}

/// Some channel of the sequence is at the stream position.
pub open spec fn has_index(channels: Seq<Channel>, index: usize) -> bool {
    exists|i: int| 0 <= i < channels.len() && (#[trigger] channels[i]).index == index
}

/// The place in the sequence of the channel at a stream position.
pub open spec fn place_of(channels: Seq<Channel>, index: usize) -> int {
    choose|i: int| 0 <= i < channels.len() && (#[trigger] channels[i]).index == index
}

/// The sequence after a channel is entered: it replaces the channel at its
/// stream position, or goes to the end when the position is new.
pub open spec fn entered(channels: Seq<Channel>, channel: Channel) -> Seq<Channel> {
    if has_index(channels, channel.index) {
        channels.update(place_of(channels, channel.index), channel)
    } else {
        channels.push(channel)
    }
}

/// The monitored channels, keyed by stream position.
pub struct ChannelTable {
    channels: Vec<Channel>,
}

impl View for ChannelTable {
    type V = Map<usize, Seq<char>>;

    /// The table as a map from stream position to display name.
    open spec fn view(&self) -> Map<usize, Seq<char>> {
        table_map(self.entries())
    }
}

impl ChannelTable {
    /// The channels in the order in which their positions were first entered.
    pub closed spec fn entries(&self) -> Seq<Channel> {
        self.channels@
    }

    /// The invariant of a table: no position occurs twice.
    pub open spec fn wf(&self) -> bool {
        distinct_indices(self.entries())
    }

    /// Makes an empty table.
    pub fn new() -> (table: ChannelTable)
        ensures
            table.wf(),
            table.entries() == Seq::<Channel>::empty(),
            table@ == Map::<usize, Seq<char>>::empty(),
    {
        ChannelTable { channels: Vec::new() }
    }

    /// The number of channels in the table.
    pub fn len(&self) -> (n: usize)
        ensures
            n == self.entries().len(),
    {
        self.channels.len()
    }

    /// The channel at a place in the table.
    pub fn channel(&self, place: usize) -> (channel: &Channel)
        requires
            place < self.entries().len(),
        ensures
            *channel == self.entries()[place as int],
    {
        &self.channels[place]
    }

    /// The place in the table of the channel at a stream position.
    pub fn find(&self, index: usize) -> (place: Option<usize>)
        ensures
            match place {
                Some(p) => {
                    &&& p < self.entries().len()
                    &&& self.entries()[p as int].index == index
                    &&& forall|i: int| 0 <= i < p ==> (#[trigger] self.entries()[i]).index != index
                },
                None => !has_index(self.entries(), index),
            },
    {
        let mut i: usize = 0;
        while i < self.channels.len()
            invariant
                i <= self.channels.len(),
                forall|k: int| 0 <= k < i ==> (#[trigger] self.channels@[k]).index != index,
            decreases self.channels.len() - i,
        {
            if self.channels[i].index == index {
                return Some(i);
            }
            i += 1;
        }
        None
    }

    /// The display name of the channel at a stream position, if it is
    /// monitored.
    pub fn get(&self, index: usize) -> (name: Option<&String>)
        requires
            self.wf(),
        ensures
            match name {
                Some(n) => self@.contains_key(index) && self@[index] == n@,
                None => !self@.contains_key(index),
            },
    {
        proof {
            lemma_table_map(self.entries());
        }
        match self.find(index) {
            Some(place) => Some(&self.channels[place].name),
            None => None,
        }
    }

    /// Enters a channel. A position that is already in the table keeps its
    /// place and takes the new name.
    pub fn insert(&mut self, index: usize, name: String)
        requires
            old(self).wf(),
        ensures
            final(self).wf(),
            final(self)@ == old(self)@.insert(index, name@),
            final(self).entries() == entered(old(self).entries(), (Channel { index, name })),
    {
        proof {
            lemma_table_map(self.entries());
        }
        match self.find(index) {
            Some(place) => {
                self.channels[place].name = name;
                proof {
                    assert(has_index(old(self).entries(), index)) by {
                        assert(old(self).entries()[place as int].index == index);
                    }
                    let p = place_of(old(self).entries(), index);
                    if p < place {
                        assert(old(self).entries()[p].index != old(self).entries()[place as int].index);
                    } else if p > place {
                        assert(old(self).entries()[place as int].index != old(self).entries()[p].index);
                    }
                    assert(self.entries() =~= old(self).entries().update(
                        place as int,
                        Channel { index, name },
                    ));
                    lemma_table_map(self.entries());
                    assert(self@ =~= old(self)@.insert(index, name@)) by {
                        assert forall|k: usize| self@.contains_key(k) implies #[trigger] self@[k]
                            == old(self)@.insert(index, name@)[k] by {
                            let i = choose|i: int|
                                0 <= i < self.entries().len() && (
                                #[trigger] self.entries()[i]).index == k;
                            assert(old(self).entries()[i].index == k);
                        }
                        assert forall|k: usize| old(self)@.insert(index, name@).contains_key(
                            k,
                        ) implies self@.contains_key(k) by {
                            if k == index {
                                assert(self.entries()[place as int].index == k);
                            } else {
                                let i = choose|i: int|
                                    0 <= i < old(self).entries().len() && (#[trigger] old(
                                        self,
                                    ).entries()[i]).index == k;
                                assert(self.entries()[i].index == k);
                            }
                        }
                    }
                }
            },
            None => {
                self.channels.push(Channel { index, name });
                proof {
                    assert(self.entries().drop_last() =~= old(self).entries());
                    assert(!has_index(old(self).entries(), index));
                }
            },
        }
    }
}

} // verus!
