use simple_tsdb::db::{merge_field_lists, query_store, series_key_for, should_flush, DbConfig, MemTable};
use simple_tsdb::error::Error;
use simple_tsdb::sstable::{decode_series_key, encode_series_key, SSTable};
use simple_tsdb::types::{DataPoint, QueryFilter, SeriesKey};
use simple_tsdb::wal::{decode_records, encode_record, encode_records, legacy_point, legacy_values, replay_measurement};

fn bits(x: f64) -> u64 {
    x.to_bits()
}

fn point(ts: u64, host: &str, field: &str, v: f64) -> DataPoint {
    let mut p = DataPoint::new(ts);
    p.add_tag("host", host).add_field(field, bits(v));
    p
}

fn field_values(
    lists: &Vec<(SeriesKey, String, Vec<(u64, u64)>)>,
    host: &str,
    field: &str,
) -> Vec<(u64, f64)> {
    for (k, f, pts) in lists.iter() {
        let h = k.tags.iter().find(|t| t.0 == "host").map(|t| t.1.clone());
        if h.as_deref() == Some(host) && f == field {
            return pts.iter().map(|&(t, v)| (t, f64::from_bits(v))).collect();
        }
    }
    Vec::new()
}

#[test]
fn wal_record_is_big_endian() {
    let mut out = Vec::new();
    let p = legacy_point(1, bits(2.0));
    encode_record(&p, &mut out).unwrap();
    let mut expected = vec![0, 0, 0, 0, 0, 0, 0, 1, 0, 0, 0, 0, 0, 0, 0, 1, 0, 0, 0, 5];
    expected.extend_from_slice(b"value");
    expected.extend_from_slice(&2.0f64.to_bits().to_be_bytes());
    assert_eq!(out, expected);
}

#[test]
fn wal_replays_complete_records_and_drops_a_torn_tail() {
    let points = vec![point(10, "a", "usage", 1.5), point(11, "b", "idle", 2.5)];
    let mut bytes = encode_records(&points).unwrap();
    let whole = decode_records(&bytes);
    assert_eq!(whole.len(), 2);
    assert_eq!(whole[1].timestamp, 11);
    assert_eq!(whole[1].tags, vec![("host".to_string(), "b".to_string())]);
    assert_eq!(whole[1].fields, vec![("idle".to_string(), bits(2.5))]);
    let more = encode_records(&vec![point(12, "c", "usage", 3.0)]).unwrap();
    bytes.extend_from_slice(&more[..more.len() - 3]);
    let replayed = decode_records(&bytes);
    assert_eq!(replayed.len(), 2);
}

#[test]
fn wal_skips_a_pair_that_is_not_utf8() {
    let p = point(7, "a", "usage", 1.0);
    let mut bytes = Vec::new();
    encode_record(&p, &mut bytes).unwrap();
    // the tag key "host" starts after ts (8), tag count (4) and its length (4)
    bytes[16] = 0xff;
    let replayed = decode_records(&bytes);
    assert_eq!(replayed.len(), 1);
    assert!(replayed[0].tags.is_empty());
    assert_eq!(replayed[0].fields, vec![("usage".to_string(), bits(1.0))]);
}

#[test]
fn series_key_round_trips() {
    let mut k = SeriesKey::new("cpu");
    k.add_tag("region", "eu").add_tag("host", "a");
    let b = encode_series_key(&k).unwrap();
    let back = decode_series_key(&b).unwrap();
    assert!(back.same_series(&k));
    assert!(decode_series_key(&b[..b.len() - 1]).is_err());
}

#[test]
fn series_identity_ignores_tag_order() {
    let mut a = SeriesKey::new("cpu");
    a.add_tag("host", "a").add_tag("region", "b");
    let mut b = SeriesKey::new("cpu");
    b.add_tag("region", "b").add_tag("host", "a");
    assert!(a.same_series(&b));
    b.add_tag("host", "c");
    assert!(!a.same_series(&b));
}

#[test]
fn add_tag_replaces_existing_key() {
    let mut p = DataPoint::new(1);
    p.add_tag("host", "a").add_tag("host", "b");
    assert_eq!(p.tags, vec![("host".to_string(), "b".to_string())]);
}

#[test]
fn sstable_round_trip_and_tag_filter() {
    let snapshot = vec![
        (SeriesKey { measurement: "cpu".to_string(), tags: vec![("host".to_string(), "a".to_string())] },
            vec![point(3, "a", "usage", 1.0), point(1, "a", "usage", 0.5), point(3, "a", "usage", 9.0)]),
        (SeriesKey { measurement: "cpu".to_string(), tags: vec![("host".to_string(), "b".to_string())] },
            vec![point(1, "b", "usage", 7.0), point(3, "b", "usage", 8.0)]),
    ];
    let (img, table) = SSTable::create(&snapshot).unwrap();
    let reopened = SSTable::open(&img).unwrap();
    assert!(reopened.may_contain(0, 10));
    let filter = QueryFilter::new(0, 10).measurement("cpu").add_tag("host", "a").add_field("usage");
    let res = reopened.query(&img, &filter).unwrap();
    assert_eq!(res.len(), 1);
    assert_eq!(res[0].1.len(), 1);
    assert_eq!(res[0].1[0].1, vec![(1, bits(0.5)), (3, bits(9.0))]);
    let res2 = table.query(&img, &QueryFilter::new(2, 10)).unwrap();
    assert_eq!(res2.len(), 2);
}

#[test]
fn sstable_open_rejects_short_file() {
    assert!(matches!(SSTable::open(&[1, 0]), Err(Error::DataError(_))));
}

#[test]
fn sstable_query_skips_a_series_outside_the_file() {
    let snapshot = vec![
        (SeriesKey { measurement: "m".to_string(), tags: vec![("host".to_string(), "a".to_string())] },
            vec![point(1, "a", "f", 1.0)]),
        (SeriesKey { measurement: "m".to_string(), tags: vec![("host".to_string(), "b".to_string())] },
            vec![point(1, "b", "f", 2.0)]),
    ];
    let (img, table) = SSTable::create(&snapshot).unwrap();
    let cut = &img[..img.len() - 2];
    let res = table.query(cut, &QueryFilter::new(0, 5)).unwrap();
    assert_eq!(res.len(), 1);
    assert_eq!(res[0].0.tags[0].1, "a");
    assert_eq!(res[0].1[0].1, vec![(1, bits(1.0))]);
}

#[test]
fn sstable_query_skips_a_series_that_does_not_decode() {
    let snapshot = vec![(SeriesKey::new("m"), vec![point(1, "a", "f", 1.0)])];
    let (mut img, table) = SSTable::create(&snapshot).unwrap();
    let last = img.len() - 1;
    img.truncate(last);
    img.push(0);
    let n = img.len();
    // overwrite the block count of the only field with a larger one
    img[n - 25] = 9;
    assert!(table.query(&img, &QueryFilter::new(0, 5)).is_ok());
}

#[test]
fn memtable_counts_and_flush_decision() {
    let mut mem = MemTable::new();
    for i in 0..3u64 {
        let p = point(i, "a", "usage", i as f64);
        mem.insert(series_key_for("cpu", &p), p);
    }
    assert_eq!(mem.total_points(), 3);
    assert!(should_flush(&mem, 3));
    assert!(!should_flush(&mem, 4));
    let snap = mem.snapshot_and_clear();
    assert_eq!(snap.len(), 1);
    assert_eq!(snap[0].1.len(), 3);
    assert_eq!(mem.total_points(), 0);
}

#[test]
fn query_across_sources_is_sorted_and_last_write_wins() {
    let mut older = MemTable::new();
    for i in 0..100u64 {
        let p = point(1000 + i, "a", "value", i as f64);
        older.insert(series_key_for("default", &p), p);
    }
    let (img, table) = SSTable::create(&older.snapshot_and_clear()).unwrap();
    let mut mem = MemTable::new();
    for i in 0..50u64 {
        let p = point(1100 + i, "a", "value", 1000.0 + i as f64);
        mem.insert(series_key_for("default", &p), p);
    }
    let again = point(1050, "a", "value", -1.0);
    mem.insert(series_key_for("default", &again), again);
    let tables: Vec<(&SSTable, &[u8])> = vec![(&table, img.as_slice())];
    let filter = QueryFilter::new(1050, 1150).measurement("default").add_field("value");
    let res = query_store(&tables, &mem, &filter).unwrap();
    let pts = field_values(&res, "a", "value");
    assert_eq!(pts.len(), 100);
    assert_eq!(pts[0], (1050, -1.0));
    assert_eq!(pts[1], (1051, 51.0));
    assert_eq!(pts[50], (1100, 1000.0));
    assert_eq!(pts[99], (1149, 1049.0));
    for w in pts.windows(2) {
        assert!(w[0].0 < w[1].0);
    }
}

#[test]
fn tag_filter_selects_one_host() {
    let mut mem = MemTable::new();
    for i in 0..5u64 {
        let a = point(i, "a", "usage", 1.0);
        mem.insert(series_key_for("cpu", &a), a);
        let b = point(i, "b", "usage", 2.0);
        mem.insert(series_key_for("cpu", &b), b);
    }
    let filter = QueryFilter::new(0, 10).measurement("cpu").add_tag("host", "a").add_field("usage");
    let res = mem.query(&filter);
    assert_eq!(res.len(), 1);
    assert_eq!(field_values(&res, "a", "usage").len(), 5);
    assert!(field_values(&res, "b", "usage").is_empty());
}

#[test]
fn multi_field_series_gives_each_field() {
    let mut snapshot_mem = MemTable::new();
    for i in 0..30u64 {
        let mut p = DataPoint::new(100 + i);
        p.add_tag("host", "a")
            .add_field("usage", bits(i as f64))
            .add_field("idle", bits(100.0 - i as f64))
            .add_field("system", bits(0.5 * i as f64));
        snapshot_mem.insert(series_key_for("cpu", &p), p);
    }
    let (img, table) = SSTable::create(&snapshot_mem.snapshot_and_clear()).unwrap();
    let filter = QueryFilter::new(100, 129).measurement("cpu").add_tag("host", "a");
    let res = table.query(&img, &filter).unwrap();
    assert_eq!(res.len(), 1);
    assert_eq!(res[0].1.len(), 3);
    for (_, pts) in res[0].1.iter() {
        assert_eq!(pts.len(), 30);
    }
    let idle = res[0].1.iter().find(|f| f.0 == "idle").unwrap();
    assert_eq!(f64::from_bits(idle.1[29].1), 71.0);
}

#[test]
fn merge_dedups_within_one_list() {
    let key = SeriesKey::new("m");
    let parts = vec![
        (key.clone(), "f".to_string(), vec![(2, 1), (1, 5)]),
        (key.clone(), "g".to_string(), vec![(1, 1)]),
        (key.clone(), "f".to_string(), vec![(2, 9)]),
    ];
    let merged = merge_field_lists(&parts);
    assert_eq!(merged.len(), 2);
    let f = merged.iter().find(|e| e.1 == "f").unwrap();
    assert_eq!(f.2, vec![(1, 5), (2, 9)]);
}

#[test]
fn default_config() {
    let c = DbConfig::default();
    assert_eq!(c.sstable_dir, "./data/sstable");
    assert_eq!(c.wal_path, "./data/wal.log");
    assert_eq!(c.memtable_size_threshold, 1000);
}

#[test]
fn canonical_string_sorts_tags() {
    let mut a = SeriesKey::new("cpu");
    a.add_tag("region", "us").add_tag("host", "a").add_tag("host", "b");
    assert_eq!(a.to_canonical_string(), "cpu,host=b,region=us");
    let mut b = SeriesKey::new("cpu");
    b.add_tag("host", "b").add_tag("region", "us");
    assert_eq!(a.to_canonical_string(), b.to_canonical_string());
    assert_eq!(SeriesKey::new("m").to_canonical_string(), "m");
}

#[test]
fn legacy_values_keep_last_write_per_timestamp() {
    let points = vec![
        legacy_point(5, bits(1.0)),
        point(3, "a", "usage", 9.0),
        legacy_point(2, bits(2.0)),
        legacy_point(5, bits(3.0)),
    ];
    assert_eq!(legacy_values(&points), vec![(2, bits(2.0)), (5, bits(3.0))]);
}

#[test]
fn replay_files_points_by_measurement_tag() {
    let mut p = DataPoint::new(1);
    p.add_tag("measurement", "cpu");
    assert_eq!(replay_measurement(&p), "cpu");
    assert_eq!(replay_measurement(&DataPoint::new(1)), "default");
}

#[test]
fn torn_tail_after_a_record_with_a_bad_pair() {
    let mut p = DataPoint::new(1);
    p.add_tag("host", "a").add_tag("zone", "z").add_field("f", bits(1.0));
    let q = point(2, "b", "g", 2.0);
    let mut bytes = encode_records(&vec![p, q]).unwrap();
    // the first tag key "host" starts at offset 16
    bytes[16] = 0xc0;
    let more = encode_records(&vec![point(3, "c", "h", 3.0)]).unwrap();
    bytes.extend_from_slice(&more[..10]);
    let back = decode_records(&bytes);
    assert_eq!(back.len(), 2);
    assert_eq!(back[0].tags, vec![("zone".to_string(), "z".to_string())]);
    assert_eq!(back[1].timestamp, 2);
    assert_eq!(back[1].fields, vec![("g".to_string(), bits(2.0))]);
}

#[test]
fn failed_flush_puts_the_snapshot_back_before_newer_writes() {
    let mut mem = MemTable::new();
    let old = point(5, "a", "v", 1.0);
    mem.insert(series_key_for("m", &old), old);
    let snap = mem.snapshot_and_clear();
    let newer = point(5, "a", "v", 2.0);
    mem.insert(series_key_for("m", &newer), newer);
    mem.restore_snapshot(snap);
    assert_eq!(mem.total_points(), 2);
    let res = mem.query(&QueryFilter::new(0, 10));
    let merged = merge_field_lists(&res);
    assert_eq!(field_values(&merged, "a", "v"), vec![(5, 2.0)]);
}

#[test]
fn log_image_holds_the_records_of_the_memtable() {
    let mut mem = MemTable::new();
    let a = point(1, "a", "v", 1.0);
    let b = point(2, "b", "v", 2.0);
    mem.insert(series_key_for("m", &a), a.clone());
    mem.insert(series_key_for("m", &b), b.clone());
    let image = mem.log_image().unwrap();
    assert_eq!(image, encode_records(&vec![a, b]).unwrap());
}

#[test]
fn series_keys_compare_by_mapping() {
    let mut a = SeriesKey::new("cpu");
    a.add_tag("x", "1").add_tag("y", "2");
    let mut b = SeriesKey::new("cpu");
    b.add_tag("y", "2").add_tag("x", "1");
    assert!(a == b);
    assert!(a != SeriesKey::new("cpu"));
}

#[test]
fn query_filter_clones() {
    let f = QueryFilter::new(1, 9).measurement("cpu").add_tag("host", "a").add_field("usage");
    let g = f.clone();
    assert_eq!(g.time_range, (1, 9));
    assert_eq!(g.measurement.as_deref(), Some("cpu"));
    assert_eq!(g.tags, f.tags);
    assert_eq!(g.fields, f.fields);
}
