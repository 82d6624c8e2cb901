//! The monitor's configuration, and how the channel table is read from it.

use vstd::prelude::*;
use crate::channels::{entered, Channel, ChannelTable};

verus! {

/// One line of the configured channel map: the stream position, written as a
/// decimal number, and the display name of the channel there.
#[derive(Debug)]
pub struct ChannelEntry {
    pub key: String,
    pub name: String,
}

/// The configuration the monitor runs with.
#[derive(Debug)]
pub struct Config {
    /// The audio host to use.
    pub host: String,
    /// The input device to open.
    pub device: String,
    /// The least number of channels the input stream must have.
    pub min_channels: usize,
    /// The monitored channels.
    pub channel_map: Vec<ChannelEntry>,
    /// The address the query interface binds to.
    pub http_bind: String,
    /// The number of periods in a second, which is also the number of
    /// records the history keeps.
    pub sampling_factor: usize,
}

/// Why a configuration cannot be used.
#[derive(Debug)]
pub enum ConfigError {
    /// The key of the channel map's entry at `place` is not a stream
    /// position.
    BadChannelKey { place: usize },
}

/// The bind address of a configuration that names none.
pub fn default_bind() -> (bind: String)
    ensures
        bind@ == "0.0.0.0"@,
{
    "0.0.0.0".to_string()
}

/// The sampling factor of a configuration that names none.
pub fn default_sampling_factor() -> (factor: usize)
    ensures
        factor == 1,
{
    1
}

/// The character is a decimal digit.
pub open spec fn is_digit(c: char) -> bool {
    '0' <= c <= '9'
}

/// Every character of the sequence is a decimal digit.
pub open spec fn all_digits(digits: Seq<char>) -> bool {
    forall|i: int| 0 <= i < digits.len() ==> is_digit(#[trigger] digits[i])
}

/// The number that a sequence of decimal digits writes.
pub open spec fn decimal_value(digits: Seq<char>) -> nat
    decreases digits.len(),
{
    if digits.len() == 0 {
        0
    } else {
        (decimal_value(digits.drop_last()) * 10 + (digits.last() as u32 - '0' as u32)) as nat
    }
}

/// A key without the plus sign that may lead it.
pub open spec fn without_sign(key: Seq<char>) -> Seq<char> {
    if key.len() > 0 && key[0] == '+' {
        key.drop_first()
    } else {
        key
    }
}

/// The stream position that a key writes: one or more decimal digits, with
/// or without a leading plus sign, whose value fits the machine's word.
/// Anything else is no stream position.
pub open spec fn key_index(key: Seq<char>) -> Option<usize> {
    let digits = without_sign(key);
    if digits.len() > 0 && all_digits(digits) && decimal_value(digits) <= usize::MAX {
        Some(decimal_value(digits) as usize)
    } else {
        None
    }
}

/// The number written by the first digits of a sequence is no larger than
/// the number written by all of them.
pub proof fn lemma_decimal_value_grows(digits: Seq<char>, n: int)
    requires
        0 <= n <= digits.len(),
        all_digits(digits),
    ensures
        decimal_value(digits.take(n)) <= decimal_value(digits),
    decreases digits.len(),
{
    if n == digits.len() {
        assert(digits.take(n) =~= digits);
    } else {
        let front = digits.drop_last();
        assert(front.take(n) =~= digits.take(n));
        assert(all_digits(front)) by {
            assert forall|i: int| 0 <= i < front.len() implies is_digit(#[trigger] front[i]) by {
                assert(is_digit(digits[i]));
            }
        }
        lemma_decimal_value_grows(front, n);
        assert(is_digit(digits[digits.len() - 1]));
    }
}

/// Reads a stream position from a key of the channel map.
pub fn parse_channel_index(key: &str) -> (index: Option<usize>)
    ensures
        index == key_index(key@),
{
    broadcast use vstd::string::is_ascii_spec_bytes;

    let ghost digits = without_sign(key@);
    if !key.is_ascii() {
        proof {
            let i = choose|i: int| 0 <= i < key@.len() && !('\0' <= #[trigger] key@[i] <= '\u{7f}');
            if key@[0] == '+' {
                assert(i > 0);
                assert(!is_digit(digits[i - 1]));
            } else {
                assert(!is_digit(digits[i]));
            }
        }
        return None;
    }
    let bytes = key.as_bytes();
    let n = bytes.len();
    assert(n == key@.len());
    assert(forall|i: int| 0 <= i < n ==> bytes@[i] == #[trigger] key@[i] as u8);
    let start: usize = if n > 0 && bytes[0] == 43u8 {
        1
    } else {
        0
    };
    assert(digits =~= key@.subrange(start as int, n as int));
    if start == n {
        return None;
    }
    let mut value: usize = 0;
    let mut i: usize = start;
    while i < n
        invariant
            start <= i <= n,
            n == key@.len(),
            n == bytes@.len(),
            key.is_ascii(),
            forall|k: int| 0 <= k < n ==> bytes@[k] == #[trigger] key@[k] as u8,
            digits == key@.subrange(start as int, n as int),
            digits == without_sign(key@),
            all_digits(digits.take(i - start)),
            value == decimal_value(digits.take(i - start)),
        decreases n - i,
    {
        let byte = bytes[i];
        let ghost c = key@[i as int];
        assert(c == digits[i - start]);
        assert('\0' <= c <= '\u{7f}');
        if byte < 48u8 || byte > 57u8 {
            assert(!is_digit(c));
            return None;
        }
        assert(is_digit(c));
        let digit: usize = (byte - 48u8) as usize;
        proof {
            let seen = digits.take(i - start);
            let more = digits.take(i - start + 1);
            assert(more.drop_last() =~= seen);
            assert(more.last() == c);
            assert(all_digits(more)) by {
                assert forall|k: int| 0 <= k < more.len() implies is_digit(#[trigger] more[k]) by {
                    if k < seen.len() {
                        assert(is_digit(seen[k]));
                    }
                }
            }
            assert(decimal_value(more) == value * 10 + digit);
        }
        if value > (usize::MAX - digit) / 10 {
            proof {
                assert(value * 10 + digit > usize::MAX) by (nonlinear_arith)
                    requires
                        value > (usize::MAX - digit) / 10,
                        0 <= digit <= 9,
                ;
                if all_digits(digits) {
                    lemma_decimal_value_grows(digits, i - start + 1);
                }
            }
            return None;
        }
        assert(value * 10 + digit <= usize::MAX) by (nonlinear_arith)
            requires
                value <= (usize::MAX - digit) / 10,
                0 <= digit <= 9,
        ;
        value = value * 10 + digit;
        i += 1;
    }
    proof {
        assert(digits.take(n - start) =~= digits);
    }
    Some(value)
}

/// The channel map read as a table, each key replaced by the stream position
/// it writes; where two keys write the same position the later entry counts.
pub open spec fn keyed_table(entries: Seq<ChannelEntry>) -> Map<usize, Seq<char>>
    decreases entries.len(),
{
    if entries.len() == 0 {
        Map::empty()
    } else {
        keyed_table(entries.drop_last()).insert(
            key_index(entries.last().key@)->0,
            entries.last().name@,
        )
    }
}

/// The channels of the table that the channel map is read as, in the order
/// in which their stream positions first occur in the map.
pub open spec fn keyed_channels(entries: Seq<ChannelEntry>) -> Seq<Channel>
    decreases entries.len(),
{
    if entries.len() == 0 {
        Seq::empty()
    } else {
        entered(
            keyed_channels(entries.drop_last()),
            Channel { index: key_index(entries.last().key@)->0, name: entries.last().name },
        )
    }
}

/// The entry at `place` is the first whose key writes no stream position.
pub open spec fn first_bad_key(entries: Seq<ChannelEntry>, place: int) -> bool {
    &&& 0 <= place < entries.len()
    &&& key_index(entries[place].key@) is None
    &&& forall|k: int| 0 <= k < place ==> key_index((#[trigger] entries[k]).key@) is Some
}

impl Config {
    /// Puts a configuration together, filling in the bind address and the
    /// sampling factor where none is given.
    pub fn from_parts(
        host: String,
        device: String,
        min_channels: usize,
        channel_map: Vec<ChannelEntry>,
        http_bind: Option<String>,
        sampling_factor: Option<usize>,
    ) -> (config: Config)
        ensures
            config.host == host,
            config.device == device,
            config.min_channels == min_channels,
            config.channel_map == channel_map,
            config.http_bind@ == match http_bind {
                Some(bind) => bind@,
                None => "0.0.0.0"@,
            },
            config.sampling_factor == match sampling_factor {
                Some(factor) => factor,
                None => 1,
            },
    {
        let http_bind = match http_bind {
            Some(bind) => bind,
            None => default_bind(),
        };
        let sampling_factor = match sampling_factor {
            Some(factor) => factor,
            None => default_sampling_factor(),
        };
        Config { host, device, min_channels, channel_map, http_bind, sampling_factor }
    }

    /// Reads the channel table from the channel map. Fails on the first
    /// entry whose key writes no stream position.
    pub fn channel_table(&self) -> (table: Result<ChannelTable, ConfigError>)
        ensures
            match table {
                Ok(t) => {
                    &&& t.wf()
                    &&& t@ == keyed_table(self.channel_map@)
                    &&& t.entries() == keyed_channels(self.channel_map@)
                    &&& forall|k: int|
                        0 <= k < self.channel_map@.len() ==> key_index(
                            (#[trigger] self.channel_map@[k]).key@,
                        ) is Some
                },
                Err(error) => first_bad_key(self.channel_map@, error->place as int),
            },
    {
        let mut table = ChannelTable::new();
        let mut i: usize = 0;
        while i < self.channel_map.len()
            invariant
                i <= self.channel_map@.len(),
                table.wf(),
                table@ == keyed_table(self.channel_map@.take(i as int)),
                table.entries() == keyed_channels(self.channel_map@.take(i as int)),
                forall|k: int|
                    0 <= k < i ==> key_index((#[trigger] self.channel_map@[k]).key@) is Some,
            decreases self.channel_map@.len() - i,
        {
            let entry = &self.channel_map[i];
            match parse_channel_index(entry.key.as_str()) {
                Some(index) => {
                    proof {
                        assert(self.channel_map@.take(i + 1).drop_last() =~= self.channel_map@.take(
                            i as int,
                        ));
                    }
                    table.insert(index, entry.name.clone());
                },
                None => {
                    return Err(ConfigError::BadChannelKey { place: i });
                },
            }
            i += 1;
        }
        proof {
            assert(self.channel_map@.take(self.channel_map@.len() as int) =~= self.channel_map@);
        }
        Ok(table)
    }
}

} // verus!
