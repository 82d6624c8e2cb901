use alapi::channels::ChannelTable;
use alapi::config::{ChannelEntry, Config};
use alapi::demux::ChannelBuffers;
use alapi::window::{measure_period, ChannelWindow, SILENCE};
use alapi::handoff::{hand_off, handoff_channel, ProducerStep};
use alapi::history::History;
use alapi::record::Record;

fn words(samples: &[f32]) -> Vec<u32> {
    samples.iter().map(|s| s.to_bits()).collect()
}

fn root_mean_square(samples: &[u32]) -> f32 {
    let mut sum_of_squares = 0.0f32;
    let mut count = 0;
    for word in samples {
        let sample = f32::from_bits(*word);
        sum_of_squares += sample * sample;
        count += 1;
    }
    (sum_of_squares / count as f32).sqrt()
}

fn measure(windows: &Vec<ChannelWindow>) -> Record {
    let computed: Vec<u32> =
        windows.iter().map(|w| root_mean_square(&w.samples).to_bits()).collect();
    measure_period(windows, &computed).unwrap()
}

fn level(record: &Record, name: &str) -> Option<f32> {
    record.get(&name.to_string()).map(f32::from_bits)
}

fn snapshot(history: &History) -> Vec<(String, f32)> {
    let sampling_factor = history.sampling_factor();
    let mut averages = Vec::new();
    for series in history.series() {
        let mut sum = 0.0f32;
        for word in &series.levels {
            sum += f32::from_bits(*word);
        }
        averages.push((series.name, sum / sampling_factor as f32));
    }
    averages
}

fn average_of(averages: &[(String, f32)], name: &str) -> Option<f32> {
    averages.iter().find(|(n, _)| n == name).map(|(_, v)| *v)
}

fn record_of(pairs: &[(&str, f32)]) -> Record {
    let mut record = Record::new();
    for (name, value) in pairs {
        record.insert(name.to_string(), value.to_bits());
    }
    record
}

fn stereo_table() -> ChannelTable {
    let config = Config::from_parts(
        "host".to_string(),
        "device".to_string(),
        2,
        vec![
            ChannelEntry { key: "0".to_string(), name: "left".to_string() },
            ChannelEntry { key: "1".to_string(), name: "right".to_string() },
        ],
        None,
        Some(1),
    );
    config.channel_table().unwrap()
}

#[test]
fn two_periods_give_two_records_and_an_undiluted_snapshot() {
    let sampling_factor = 1;
    let mut buffers = ChannelBuffers::new(&stereo_table(), 2).unwrap();
    let mut history = History::new(sampling_factor);
    let input = words(&[1.0, 0.0, -1.0, 0.0, 1.0, 0.0, -1.0, 0.0]);

    let first = measure(&buffers.ingest(&input[0..4], 2).unwrap());
    assert_eq!(first.len(), 2);
    assert_eq!(level(&first, "left"), Some(1.0));
    assert_eq!(level(&first, "right"), Some(0.0));
    history.insert(first);

    let second = measure(&buffers.ingest(&input[4..8], 2).unwrap());
    assert_eq!(second.len(), 2);
    assert_eq!(level(&second, "left"), Some(1.0));
    assert_eq!(level(&second, "right"), Some(0.0));
    history.insert(second);

    assert_eq!(history.len(), 1);
    let averages = snapshot(&history);
    assert_eq!(averages.len(), 2);
    assert_eq!(average_of(&averages, "left"), Some(1.0));
    assert_eq!(average_of(&averages, "right"), Some(0.0));
}

#[test]
fn records_travel_through_the_handoff_into_the_history() {
    let mut buffers = ChannelBuffers::new(&stereo_table(), 2).unwrap();
    let (sender, receiver) = handoff_channel();
    let mut history = History::new(2);
    let input = words(&[0.5, 0.25, -0.5, 0.25]);
    let windows = buffers.ingest(&input, 2).unwrap();
    assert!(matches!(hand_off(&sender, measure(&windows)).step, ProducerStep::Continue));
    history.insert(receiver.recv().unwrap());
    let averages = snapshot(&history);
    assert_eq!(average_of(&averages, "left"), Some(0.25));
    assert_eq!(average_of(&averages, "right"), Some(0.125));
}

#[test]
fn snapshot_divides_by_the_sampling_factor_during_warm_up() {
    let mut history = History::new(4);
    history.insert(record_of(&[("a", 10.0), ("b", 20.0)]));
    history.insert(record_of(&[("a", 20.0), ("b", 30.0)]));
    assert_eq!(history.len(), 2);
    let averages = snapshot(&history);
    assert_eq!(averages.len(), 2);
    assert_eq!(average_of(&averages, "a"), Some(7.5));
    assert_eq!(average_of(&averages, "b"), Some(12.5));
}

#[test]
fn snapshot_omits_a_channel_that_was_never_observed() {
    let mut history = History::new(4);
    history.insert(record_of(&[("left", 0.0)]));
    let averages = snapshot(&history);
    assert_eq!(average_of(&averages, "left"), Some(0.0));
    assert_eq!(average_of(&averages, "right"), None);
    assert!(snapshot(&History::new(4)).is_empty());
}

#[test]
fn a_window_without_samples_measures_exactly_zero() {
    let empty = ChannelWindow { name: "idle".to_string(), samples: Vec::new() };
    assert!(root_mean_square(&empty.samples).is_nan());
    let measured = empty.measurement(root_mean_square(&empty.samples).to_bits());
    assert_eq!(measured.name, "idle");
    assert_eq!(measured.level, SILENCE);
    assert_eq!(measured.level, 0);
    assert_eq!(f32::from_bits(measured.level).to_bits(), 0.0f32.to_bits());
    assert_eq!(empty.measurement(0x3f80_0000).level, 0);
}

#[test]
fn a_window_with_samples_measures_what_was_computed() {
    let window = ChannelWindow { name: "busy".to_string(), samples: words(&[3.0, 4.0]) };
    let measured = window.measurement(root_mean_square(&window.samples).to_bits());
    assert_eq!(measured.name, "busy");
    assert_eq!(f32::from_bits(measured.level), 12.5f32.sqrt());
    assert_eq!(window.measurement(17).level, 17);
    let silent = ChannelWindow { name: "silent".to_string(), samples: words(&[0.0]) };
    assert_eq!(silent.measurement(root_mean_square(&silent.samples).to_bits()).level, 0);
}

#[test]
fn a_period_record_has_an_entry_for_every_window() {
    let windows = vec![
        ChannelWindow { name: "a".to_string(), samples: vec![1, 2] },
        ChannelWindow { name: "b".to_string(), samples: Vec::new() },
        ChannelWindow { name: "c".to_string(), samples: vec![3] },
    ];
    let record = measure_period(&windows, &vec![10, 20, 30]).unwrap();
    assert_eq!(record.len(), 3);
    assert_eq!(record.get(&"a".to_string()), Some(10));
    assert_eq!(record.get(&"b".to_string()), Some(0));
    assert_eq!(record.get(&"c".to_string()), Some(30));
    assert_eq!(record.entry(0).name, "a");
    assert_eq!(record.entry(1).name, "b");
    assert_eq!(record.entry(2).name, "c");
    let none = measure_period(&Vec::new(), &Vec::new()).unwrap();
    assert_eq!(none.len(), 0);
}

#[test]
fn a_period_record_needs_one_level_for_each_window() {
    let windows = vec![ChannelWindow { name: "a".to_string(), samples: vec![1] }];
    assert!(measure_period(&windows, &Vec::new()).is_none());
    assert!(measure_period(&windows, &vec![1, 2]).is_none());
    assert!(measure_period(&Vec::new(), &vec![1]).is_none());
    assert!(measure_period(&windows, &vec![1]).is_some());
}

#[test]
fn a_period_record_lets_the_later_window_count_for_a_shared_name() {
    let windows = vec![
        ChannelWindow { name: "mic".to_string(), samples: vec![1] },
        ChannelWindow { name: "mic".to_string(), samples: vec![2] },
    ];
    let record = measure_period(&windows, &vec![10, 20]).unwrap();
    assert_eq!(record.len(), 1);
    assert_eq!(record.get(&"mic".to_string()), Some(20));
}

#[test]
fn root_mean_square_of_known_windows() {
    assert_eq!(root_mean_square(&words(&[1.0, -1.0])), 1.0);
    assert_eq!(root_mean_square(&words(&[0.0, 0.0])), 0.0);
    assert_eq!(root_mean_square(&words(&[0.5])), 0.5);
    assert_eq!(root_mean_square(&words(&[2.0, 2.0, 2.0, 2.0])), 2.0);
    assert_eq!(root_mean_square(&words(&[3.0, 4.0])), 12.5f32.sqrt());
}

#[test]
fn a_channel_without_samples_measures_zero() {
    let mut table = ChannelTable::new();
    table.insert(0, "busy".to_string());
    table.insert(7, "silent".to_string());
    let mut buffers = ChannelBuffers::new(&table, 2).unwrap();
    let windows = buffers.ingest(&words(&[3.0, 9.0, 4.0, 9.0]), 2).unwrap();
    let record = measure(&windows);
    assert_eq!(level(&record, "busy"), Some(12.5f32.sqrt()));
    assert_eq!(level(&record, "silent"), Some(0.0));
    assert_eq!(record.get(&"silent".to_string()), Some(0));
}
