use std::collections::HashMap;

use feed_listeners::average::Average;
use feed_listeners::codec::{
    decode_averages, encode_averages, fields_of_row, format_count, format_id, parse_count,
    parse_id, row_from_fields, rows_from_records, DecodeError, RowError,
};
use feed_listeners::config::{Config, SortOrder};
use feed_listeners::cycle::update_feeds;
use feed_listeners::feeds::{sort_feeds, Feed};
use feed_listeners::listeners::ListenerData;
use feed_listeners::registry::{
    load_averages, load_averages_now, persisted_hourly, restore_feed, save_averages, step_feed,
    AverageMap,
};

fn config(spikes_required: u8) -> Config {
    Config {
        spike: 250_000,
        low_listener_increase: 10_000,
        high_listener_dec: 10_000,
        high_listener_dec_every: 100,
        reset_pcnt: 10_000,
        adjust_pcnt: 500_000,
        spikes_required,
        minimum_listeners: 10,
        sort_order: SortOrder::Descending,
    }
}

fn feed(id: i32, listeners: u32, alert: Option<&str>) -> Feed {
    Feed { id, listeners, alert: alert.map(|a| a.to_string()) }
}

fn window(a: &Average) -> Vec<u32> {
    a.moving.iter().copied().collect()
}

#[test]
fn average_starts_at_positive_seed() {
    let a = Average::new(10);
    assert_eq!(a.current, 10_000);
    assert_eq!(a.last, 10_000);
    assert_eq!(window(&a), vec![10]);
}

#[test]
fn average_leaves_zero_seed_out_of_window() {
    let mut a = Average::new(0);
    assert_eq!(a.current, 0);
    assert!(a.moving.is_empty());
    a.update(7);
    assert_eq!(a.current, 7_000);
    assert_eq!(a.last, 0);
    assert_eq!(window(&a), vec![7]);
}

#[test]
fn average_is_mean_of_seed_and_updates() {
    let mut a = Average::new(10);
    a.update(20);
    assert_eq!(a.current, 15_000);
    assert_eq!(a.last, 10_000);
}

#[test]
fn average_keeps_last_five_values() {
    let mut a = Average::new(10);
    for v in [20, 30, 40, 50, 60, 70] {
        a.update(v);
    }
    assert_eq!(window(&a), vec![30, 40, 50, 60, 70]);
    assert_eq!(a.current, 50_000);
    assert_eq!(a.last, 40_000);
}

#[test]
fn average_rounds_down_to_fixed_point() {
    let mut a = Average::new(0);
    a.update(1);
    a.update(2);
    a.update(2);
    assert_eq!(a.current, 1_666);
}

#[test]
fn no_spike_without_history() {
    let d = ListenerData::new(0, [0; 24]);
    let cfg = config(2);
    for v in [0, 1, 49, 50, 1_000, u32::MAX] {
        assert!(!d.has_spiked(&cfg, v));
    }
}

#[test]
fn small_feed_threshold_relaxes_toward_limit() {
    let d = ListenerData::new(20, [0; 24]);
    let cfg = config(2);
    let t10 = d.spike_threshold(&cfg, 10);
    let t30 = d.spike_threshold(&cfg, 30);
    let t49 = d.spike_threshold(&cfg, 49);
    assert!(t30 <= t10);
    assert!(t49 <= t30);
    // (0.25 + 40 * 0.01) in parts per million, times 100 listeners as a level
    assert_eq!(t10, 650_000 * 100_000);
}

#[test]
fn large_feed_threshold_decays_with_rise() {
    let d = ListenerData::new(100, [0; 24]);
    let cfg = config(2);
    let den: i128 = 100_000;
    let t100 = d.spike_threshold(&cfg, 100);
    let t200 = d.spike_threshold(&cfg, 200);
    let t1000 = d.spike_threshold(&cfg, 1_000);
    let t_huge = d.spike_threshold(&cfg, 1_000_000);
    assert_eq!(t100, 250_000 * den);
    // a rise of 100 listeners takes 0.01 off
    assert_eq!(t200, 240_000 * den);
    assert_eq!(t1000, 160_000 * den);
    assert!(t200 <= t100 && t1000 <= t200 && t_huge <= t1000);
    assert_eq!(t_huge, 10_000 * den);
}

#[test]
fn average_delta_uses_corrective_baseline() {
    let mut d = ListenerData::new(100, [0; 24]);
    assert_eq!(d.get_average_delta(150), 50_000);
    assert_eq!(d.get_average_delta(40), -60_000);
    d.unskewed_avg = Some(120_000);
    assert_eq!(d.get_average_delta(150), 30_000);
}

#[test]
fn spike_detected_on_large_jump() {
    let d = ListenerData::new(100, [0; 24]);
    let cfg = config(2);
    assert!(d.has_spiked(&cfg, 1_000));
    assert!(!d.has_spiked(&cfg, 110));
    // a rise of 50 against 150 times (0.25 - 0.005)
    assert!(d.has_spiked(&cfg, 150));
    // a rise of 30 against 130 times (0.25 - 0.003)
    assert!(!d.has_spiked(&cfg, 130));
}

#[test]
fn repeated_spikes_enter_and_decay_corrective_baseline() {
    let cfg = config(2);
    let mut d = restore_feed(&[100; 24], 5);
    assert_eq!(d.average.current, 100_000);
    assert!(d.step(&cfg, 5, 1_000));
    assert_eq!(d.unskewed_avg, None);
    assert!(d.step(&cfg, 5, 1_000));
    assert_eq!(d.unskewed_avg, None);
    assert!(d.step(&cfg, 5, 1_000));
    assert_eq!(d.average.current, 775_000);
    assert_eq!(d.unskewed_avg, Some(775_000));
    assert_eq!(d.hourly[5], 775_000);
    let mut prev = 775_000u64;
    let mut cycles = 0;
    while let Some(_) = d.unskewed_avg {
        d.step(&cfg, 5, 1_000);
        cycles += 1;
        assert!(cycles < 50);
        match d.unskewed_avg {
            Some(u) => {
                assert!(u > prev);
                assert!(u <= 1_000_000);
                assert_eq!(d.hourly[5], u);
                prev = u;
            }
            None => assert_eq!(d.hourly[5], d.average.current),
        }
    }
    assert_eq!(d.average.current, 1_000_000);
    // 820.0 moved halfway from 775.0, then halfway to 1000 each cycle
    assert!(cycles >= 3);
}

#[test]
fn corrective_baseline_adjusts_by_fraction() {
    let cfg = config(2);
    let mut d = restore_feed(&[100; 24], 0);
    d.step(&cfg, 0, 1_000);
    d.step(&cfg, 0, 1_000);
    d.step(&cfg, 0, 1_000);
    d.step(&cfg, 0, 1_000);
    assert_eq!(d.average.current, 820_000);
    assert_eq!(d.unskewed_avg, Some(797_500));
    d.step(&cfg, 0, 1_000);
    assert_eq!(d.unskewed_avg, Some(898_750));
}

#[test]
fn spike_streak_counts_and_resets() {
    let cfg = config(2);
    let mut d = ListenerData::new(100, [0; 24]);
    d.step(&cfg, 1, 1_000);
    assert_eq!(d.spike_count, 1);
    d.step(&cfg, 1, 1_000);
    assert_eq!(d.spike_count, 2);
    d.step(&cfg, 1, 500);
    assert_eq!(d.spike_count, 0);
}

#[test]
fn corrective_baseline_resets_when_average_catches_up() {
    let cfg = config(2);
    let mut d = ListenerData::new(100, [0; 24]);
    d.unskewed_avg = Some(100_000);
    d.step(&cfg, 3, 100);
    assert_eq!(d.unskewed_avg, None);
    assert_eq!(d.hourly[3], 100_000);
}

#[test]
fn zero_average_feed_with_small_values_never_spikes() {
    let cfg = config(2);
    let mut d = ListenerData::new(0, [0; 24]);
    for _ in 0..3 {
        assert!(!d.step(&cfg, 2, 5));
    }
    assert_eq!(d.average.current, 5_000);
    assert_eq!(d.unskewed_avg, None);
    assert_eq!(d.hourly[2], 5_000);
}

#[test]
fn settled_value_is_steady() {
    let cfg = config(0);
    let mut d = ListenerData::new(200, [0; 24]);
    for _ in 0..5 {
        d.step(&cfg, 7, 200);
    }
    for _ in 0..3 {
        assert!(!d.step(&cfg, 7, 200));
        assert_eq!(d.unskewed_avg, None);
        assert_eq!(d.average.current, 200_000);
        assert_eq!(d.hourly[7], d.average.current);
    }
}

#[test]
fn persisted_baselines_round_trip() {
    let cfg = config(2);
    let mut d = ListenerData::new(0, [0; 24]);
    d.step(&cfg, 4, 1);
    d.step(&cfg, 4, 2);
    d.step(&cfg, 4, 2);
    d.step(&cfg, 9, 10);
    assert_eq!(d.hourly[4], 1_666);
    let row = persisted_hourly(&d);
    assert_eq!(row[4], 1);
    assert_eq!(row[9], 3);
    assert_eq!(row[0], 0);
    let r = restore_feed(&row, 9);
    for h in 0..24 {
        assert_eq!(r.hourly[h], row[h] as u64 * 1_000);
        assert!(r.hourly[h] <= d.hourly[h] && d.hourly[h] < r.hourly[h] + 1_000);
    }
    assert_eq!(r.average.current, 3_000);
    assert_eq!(persisted_hourly(&r), row);
}

#[test]
fn load_keeps_last_row_of_each_id() {
    let mut a = [0u32; 24];
    a[3] = 40;
    let mut b = [0u32; 24];
    b[3] = 70;
    let rows = vec![(1, a), (2, a), (1, b)];
    let m = load_averages(&rows, 3);
    assert_eq!(m.len(), 2);
    assert_eq!(m[&1].average.current, 70_000);
    assert_eq!(m[&2].average.current, 40_000);
    assert_eq!(m[&1].hourly[3], 70_000);
    assert_eq!(m[&1].hourly[0], 0);
    assert_eq!(m[&1].unskewed_avg, None);
}

#[test]
fn load_now_holds_every_id() {
    let rows = vec![(5, [30u32; 24]), (6, [0u32; 24])];
    let m = load_averages_now(&rows);
    assert_eq!(m.len(), 2);
    assert_eq!(m[&5].average.current, 30_000);
    assert_eq!(m[&6].average.current, 0);
}

#[test]
fn step_feed_creates_state_for_new_feed() {
    let cfg = config(2);
    let mut m: AverageMap = HashMap::new();
    assert!(!step_feed(&cfg, &mut m, 0, 9, 100));
    assert_eq!(window(&m[&9].average), vec![100]);
    assert_eq!(m[&9].average.current, 100_000);
    assert_eq!(m[&9].average.last, 0);
    assert_eq!(m[&9].hourly[0], 100_000);
    assert!(step_feed(&cfg, &mut m, 0, 9, 1_000));
    assert_eq!(m[&9].average.current, 550_000);
}

#[test]
fn corrective_baseline_never_sticks_short_of_average() {
    let mut cfg = config(2);
    cfg.reset_pcnt = 1;
    let mut d = ListenerData::new(1_000, [0; 24]);
    d.unskewed_avg = Some(999_999);
    d.step(&cfg, 0, 1_000);
    assert_eq!(d.unskewed_avg, Some(1_000_000));
    assert_eq!(d.hourly[0], 1_000_000);
    d.step(&cfg, 0, 1_000);
    assert_eq!(d.unskewed_avg, None);
}

#[test]
fn sort_feeds_keeps_order_of_equal_counts() {
    let cfg = config(2);
    let mut feeds = vec![feed(1, 5, None), feed(2, 9, None), feed(3, 5, None), feed(4, 9, None), feed(5, 5, None)];
    sort_feeds(&cfg, &mut feeds);
    let ids: Vec<i32> = feeds.iter().map(|f| f.id).collect();
    assert_eq!(ids, vec![2, 4, 1, 3, 5]);
}

#[test]
fn sort_feeds_orders_by_listeners() {
    let mut cfg = config(2);
    let mut feeds = vec![feed(1, 30, None), feed(2, 10, None), feed(3, 30, None), feed(4, 20, None)];
    sort_feeds(&cfg, &mut feeds);
    let ids: Vec<i32> = feeds.iter().map(|f| f.id).collect();
    assert_eq!(ids, vec![1, 3, 4, 2]);
    cfg.sort_order = SortOrder::Ascending;
    sort_feeds(&cfg, &mut feeds);
    let ids: Vec<i32> = feeds.iter().map(|f| f.id).collect();
    assert_eq!(ids, vec![2, 4, 1, 3]);
}

#[test]
fn update_feeds_shows_spiked_and_alerted_feeds() {
    let cfg = config(2);
    let mut m = load_averages(&vec![(1, [100; 24]), (2, [100; 24]), (3, [100; 24])], 0);
    let shown = update_feeds(
        &cfg,
        &mut m,
        0,
        vec![
            feed(1, 1_000, None),
            feed(2, 100, None),
            feed(3, 100, Some("road closure")),
            feed(4, 5, Some("below minimum")),
            feed(5, 2_000, None),
        ],
    );
    let ids: Vec<i32> = shown.iter().map(|f| f.id).collect();
    assert_eq!(ids, vec![1, 3]);
    assert_eq!(m[&1].average.current, 550_000);
    assert_eq!(m[&5].average.current, 2_000_000);
    assert_eq!(m[&5].average.last, 0);
    assert!(!m.contains_key(&4));
}

fn bytes(fields: &[&str]) -> Vec<Vec<u8>> {
    fields.iter().map(|f| f.as_bytes().to_vec()).collect()
}

#[test]
fn counts_and_ids_parse() {
    assert_eq!(parse_count(b"0"), Some(0));
    assert_eq!(parse_count(b"0042"), Some(42));
    assert_eq!(parse_count(b"4294967295"), Some(u32::MAX));
    assert_eq!(parse_count(b"4294967296"), None);
    assert_eq!(parse_count(b"99999999999999999999"), None);
    assert_eq!(parse_count(b""), None);
    assert_eq!(parse_count(b"-1"), None);
    assert_eq!(parse_count(b"1.5"), None);
    assert_eq!(parse_id(b"-2147483648"), Some(i32::MIN));
    assert_eq!(parse_id(b"2147483647"), Some(i32::MAX));
    assert_eq!(parse_id(b"2147483648"), None);
    assert_eq!(parse_id(b"-"), None);
    assert_eq!(parse_id(b"-17"), Some(-17));
}

#[test]
fn counts_and_ids_format() {
    assert_eq!(format_count(0), b"0".to_vec());
    assert_eq!(format_count(1_203), b"1203".to_vec());
    assert_eq!(format_count(u32::MAX), b"4294967295".to_vec());
    assert_eq!(format_id(-305), b"-305".to_vec());
    assert_eq!(format_id(i32::MIN), b"-2147483648".to_vec());
    assert_eq!(format_id(12), b"12".to_vec());
}

#[test]
fn row_fields_round_trip() {
    let mut hourly = [0u32; 24];
    for h in 0..24 {
        hourly[h] = (h as u32) * 37;
    }
    let fields = fields_of_row(&(-8, hourly));
    assert_eq!(fields.len(), 25);
    assert_eq!(fields[0], b"-8".to_vec());
    assert_eq!(fields[2], b"37".to_vec());
    assert_eq!(row_from_fields(&fields), Ok((-8, hourly)));
}

#[test]
fn row_errors() {
    let mut good: Vec<&str> = vec!["7"];
    good.extend(std::iter::repeat("5").take(24));
    assert_eq!(row_from_fields(&bytes(&good)), Ok((7, [5u32; 24])));
    assert_eq!(row_from_fields(&bytes(&good[..24])), Err(RowError::FieldCount));
    let mut bad_id = good.clone();
    bad_id[0] = "x7";
    assert_eq!(row_from_fields(&bytes(&bad_id)), Err(RowError::BadId));
    let mut bad_count = good.clone();
    bad_count[24] = "-5";
    assert_eq!(row_from_fields(&bytes(&bad_count)), Err(RowError::BadCount));
}

#[test]
fn averages_text_round_trip() {
    let mut a = [0u32; 24];
    a[1] = 37;
    let rows = vec![(-8, a), (12, [4_000_000_000u32; 24])];
    let text = encode_averages(&rows).unwrap();
    assert!(text.starts_with(b"-8,0,37,0,"));
    assert_eq!(text.iter().filter(|&&b| b == b'\n').count(), 2);
    assert_eq!(decode_averages(&text), Ok(rows));
}

#[test]
fn averages_text_errors() {
    assert_eq!(decode_averages(b"1,2\n"), Err(DecodeError::Row(RowError::FieldCount)));
    assert_eq!(decode_averages(b"1,2\n1,2,3\n"), Err(DecodeError::Csv));
    assert_eq!(decode_averages(b""), Ok(vec![]));
}

#[test]
fn first_bad_record_decides() {
    let mut good: Vec<Vec<u8>> = vec![b"3".to_vec()];
    for _ in 0..24 {
        good.push(b"9".to_vec());
    }
    let mut bad_id = good.clone();
    bad_id[0] = b"three".to_vec();
    let short = good[..3].to_vec();
    assert_eq!(rows_from_records(&vec![good.clone(), good.clone()]), Ok(vec![(3, [9; 24]), (3, [9; 24])]));
    assert_eq!(rows_from_records(&vec![good.clone(), bad_id.clone(), short.clone()]), Err(RowError::BadId));
    assert_eq!(rows_from_records(&vec![short, bad_id]), Err(RowError::FieldCount));
}

#[test]
fn save_gives_one_row_per_feed() {
    let cfg = config(2);
    let mut m = load_averages(&vec![(1, [10; 24]), (2, [20; 24])], 0);
    step_feed(&cfg, &mut m, 0, 1, 13);
    let mut rows = save_averages(&m);
    rows.sort_by_key(|r| r.0);
    assert_eq!(rows.len(), 2);
    assert_eq!(rows[0].0, 1);
    // the mean of 10 and 13 is 11.5, truncated
    assert_eq!(rows[0].1[0], 11);
    assert_eq!(rows[0].1[1], 10);
    assert_eq!(rows[1], (2, [20; 24]));
}
