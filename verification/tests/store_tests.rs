use entry_store::entry::TsEntry;
use entry_store::store::EntryStore;
use entry_store::Range;

fn entry(url: &str, sequence: u64, length: u64, size: u64, ts: i64, is_header: bool) -> TsEntry {
    TsEntry {
        url: String::from(url),
        sequence,
        length,
        size,
        ts,
        is_header,
    }
}

#[test]
fn empty_store_manifest_event() {
    let store = EntryStore::new();
    assert_eq!(
        store.manifest(false, false, None),
        "#EXTM3U\n#EXT-X-VERSION:6\n#EXT-X-PLAYLIST-TYPE:EVENT\n"
    );
}

#[test]
fn empty_store_manifest_vod() {
    let store = EntryStore::new();
    assert_eq!(
        store.manifest(true, false, None),
        "#EXTM3U\n#EXT-X-VERSION:6\n#EXT-X-PLAYLIST-TYPE:VOD\n#EXT-X-ENDLIST"
    );
}

#[test]
fn endlist_iff_vod() {
    let mut store = EntryStore::new();
    store.add_entry(entry("a.ts", 1, 100, 10, 0, false));
    assert!(store.manifest(true, false, None).ends_with("#EXT-X-ENDLIST"));
    assert!(!store.manifest(false, false, None).contains("#EXT-X-ENDLIST"));
}

#[test]
fn discontinuity_flags_follow_sequence_stream() {
    let mut store = EntryStore::new();
    let seqs: [u64; 6] = [1, 2, 3, 5, 4, 6];
    for (i, s) in seqs.iter().enumerate() {
        store.add_entry(entry(
            &format!("s{}.ts", i),
            *s,
            100,
            1,
            (i as i64) * 1000,
            false,
        ));
    }
    let expected = "#EXTM3U\n#EXT-X-VERSION:6\n#EXT-X-PLAYLIST-TYPE:EVENT\n\
#EXT-X-TARGETDURATION:1\n\
#EXTINF:1.00,\ns0.ts\n\
#EXTINF:1.00,\ns1.ts\n\
#EXTINF:1.00,\ns2.ts\n\
#EXT-X-DISCONTINUITY\n#EXT-X-PROGRAM-DATE-TIME:1970-01-01T00:00:03+00:00\n#EXTINF:1.00,\ns3.ts\n\
#EXT-X-DISCONTINUITY\n#EXT-X-PROGRAM-DATE-TIME:1970-01-01T00:00:04+00:00\n#EXTINF:1.00,\ns4.ts\n\
#EXT-X-DISCONTINUITY\n#EXT-X-PROGRAM-DATE-TIME:1970-01-01T00:00:05+00:00\n#EXTINF:1.00,\ns5.ts\n";
    assert_eq!(store.manifest(false, false, None), expected);
}

#[test]
fn range_includes_inclusive_bounds_only() {
    let mut store = EntryStore::new();
    let urls = ["a.ts", "b.ts", "c.ts", "d.ts"];
    for (i, u) in urls.iter().enumerate() {
        store.add_entry(entry(u, (i as u64) + 1, 250, 1, (i as i64) * 5000, false));
    }
    let m = store.manifest(true, false, Some(Range { x: 5, y: 10 }));
    let expected = "#EXTM3U\n#EXT-X-VERSION:6\n#EXT-X-PLAYLIST-TYPE:VOD\n\
#EXT-X-TARGETDURATION:3\n\
#EXTINF:2.50,\nb.ts\n\
#EXTINF:2.50,\nc.ts\n\
#EXT-X-ENDLIST";
    assert_eq!(m, expected);
}

#[test]
fn range_is_in_inclusive() {
    let r = Range { x: 5, y: 10 };
    assert!(r.is_in(5));
    assert!(r.is_in(10));
    assert!(r.is_in(7));
    assert!(!r.is_in(4));
    assert!(!r.is_in(11));
}

#[test]
fn later_header_wins() {
    let mut store = EntryStore::new();
    store.add_entry(entry("h1.mp4", 1, 0, 1, 0, true));
    store.add_entry(entry("a.ts", 2, 100, 1, 0, false));
    store.add_entry(entry("h2.mp4", 3, 0, 1, 0, true));
    assert_eq!(store.get_header().unwrap().url, "h2.mp4");
    let m = store.manifest(false, false, None);
    assert!(m.contains("#EXT-X-MAP:URI=\"h2.mp4\"\n"));
    assert!(!m.contains("h1.mp4"));
    assert_eq!(m.matches("#EXT-X-MAP").count(), 1);
}

#[test]
fn corrupt_line_is_skipped_and_counted() {
    let lines = vec![
        String::from("a.ts|1|1.00|10|0|false"),
        String::from("this is not an entry"),
        String::from("b.ts|2|1.00|10|1000|false"),
        String::from("c.ts|3|1.00|10|2000|false"),
    ];
    let mut store = EntryStore::new();
    let skipped = store.load(&lines);
    assert_eq!(skipped, 1);
    let m = store.manifest(false, false, None);
    assert_eq!(m.matches("#EXTINF").count(), 3);
    assert_eq!(store.last_sequence(), 3);
}

#[test]
fn continue_sequence_is_max_plus_100() {
    let lines = vec![
        String::from("a.ts|5|1.00|10|0|false"),
        String::from("b.ts|2|1.00|10|1000|false"),
        String::from("h.mp4|9|0.00|10|1000|true"),
        String::from("c.ts|3|1.00|10|2000|false"),
    ];
    let mut store = EntryStore::new();
    store.load(&lines);
    assert_eq!(store.last_sequence(), 9);
    assert_eq!(store.continue_sequence, 109);
}

#[test]
fn replay_is_idempotent() {
    let lines = vec![
        String::from("h.mp4|1|0.50|7|0|true"),
        String::from("a.ts|2|1.25|10|0|false"),
        String::from("broken|line"),
        String::from("b.ts|4|1.75|20|1000|false"),
    ];
    let mut s1 = EntryStore::new();
    let mut s2 = EntryStore::new();
    let k1 = s1.load(&lines);
    let k2 = s2.load(&lines);
    assert_eq!(k1, k2);
    assert_eq!(s1.total_duration(), s2.total_duration());
    assert_eq!(s1.total_size(), s2.total_size());
    assert_eq!(s1.last_sequence(), s2.last_sequence());
    assert_eq!(s1.continue_sequence, s2.continue_sequence);
    assert_eq!(s1.first_ts(), s2.first_ts());
    assert_eq!(s1.last_ts(), s2.last_ts());
    assert_eq!(
        s1.manifest(true, true, None),
        s2.manifest(true, true, None)
    );
}

#[test]
fn aggregates_include_header_entries() {
    let mut store = EntryStore::new();
    store.add_entry(entry("h.mp4", 1, 50, 7, 0, true));
    store.add_entry(entry("a.ts", 2, 125, 10, 0, false));
    assert_eq!(store.total_duration(), 175);
    assert_eq!(store.total_size(), 17);
}

#[test]
fn first_and_last_timestamps() {
    let mut store = EntryStore::new();
    assert_eq!(store.first_ts(), None);
    assert_eq!(store.last_ts(), None);
    store.add_entry(entry("a.ts", 1, 100, 1, 500, false));
    store.add_entry(entry("b.ts", 2, 100, 1, 1500, false));
    assert_eq!(store.first_ts(), Some(500));
    assert_eq!(store.last_ts(), Some(1500));
}

#[test]
fn target_duration_rounds_to_nearest_second() {
    let mut store = EntryStore::new();
    store.add_entry(entry("a.ts", 1, 456, 1, 0, false));
    assert!(store
        .manifest(false, false, None)
        .contains("#EXT-X-TARGETDURATION:5\n"));
    let mut store2 = EntryStore::new();
    store2.add_entry(entry("a.ts", 1, 449, 1, 0, false));
    assert!(store2
        .manifest(false, false, None)
        .contains("#EXT-X-TARGETDURATION:4\n"));
}

#[test]
fn out_of_bounds_range_yields_no_segments() {
    let mut store = EntryStore::new();
    store.add_entry(entry("a.ts", 1, 100, 1, 0, false));
    let m = store.manifest(false, false, Some(Range { x: 100, y: 200 }));
    assert_eq!(m.matches("#EXTINF").count(), 0);
}

#[test]
fn force_time_stamps_every_included_segment() {
    let mut store = EntryStore::new();
    store.add_entry(entry("a.ts", 1, 100, 1, 0, false));
    store.add_entry(entry("b.ts", 2, 100, 1, 1000, false));
    let m = store.manifest(false, true, None);
    assert_eq!(m.matches("#EXT-X-PROGRAM-DATE-TIME").count(), 2);
    assert_eq!(m.matches("#EXT-X-DISCONTINUITY").count(), 0);
}

#[test]
fn timestamps_representable_guard() {
    let mut store = EntryStore::new();
    store.add_entry(entry("a.ts", 1, 100, 1, 1700000000000, false));
    assert!(store.timestamps_representable());
    store.add_entry(entry("b.ts", 2, 100, 1, i64::MAX, false));
    assert!(!store.timestamps_representable());
}

#[test]
fn extreme_field_values_round_trip() {
    let e = entry("u", u64::MAX, u64::MAX, u64::MAX, i64::MIN, false);
    let back = entry_store::entry::TsEntry::from(e.encode().as_str()).unwrap();
    assert_eq!(back.sequence, u64::MAX);
    assert_eq!(back.length, u64::MAX);
    assert_eq!(back.size, u64::MAX);
    assert_eq!(back.ts, i64::MIN);
}
