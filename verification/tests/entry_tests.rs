use entry_store::entry::{EntryError, TsEntry};

fn sample() -> TsEntry {
    TsEntry {
        url: String::from("http://x/1.m4s"),
        sequence: 12,
        length: 425,
        size: 1024,
        ts: 1700000000000,
        is_header: false,
    }
}

#[test]
fn encode_exact_line() {
    let line = sample().encode();
    assert_eq!(line, "http://x/1.m4s|12|4.25|1024|1700000000000|false\n");
}

#[test]
fn encode_header_and_negative_timestamp() {
    let e = TsEntry {
        url: String::from("init.mp4"),
        sequence: 0,
        length: 0,
        size: 7,
        ts: -1500,
        is_header: true,
    };
    assert_eq!(e.encode(), "init.mp4|0|0.00|7|-1500|true\n");
}

#[test]
fn decode_exact_fields() {
    let e = TsEntry::from("http://x/1.m4s|12|4.25|1024|1700000000000|false").unwrap();
    assert_eq!(e.url, "http://x/1.m4s");
    assert_eq!(e.sequence, 12);
    assert_eq!(e.length, 425);
    assert_eq!(e.size, 1024);
    assert_eq!(e.ts, 1700000000000);
    assert!(!e.is_header);
}

#[test]
fn decode_round_trip() {
    let e = sample();
    let back = TsEntry::from(e.encode().as_str()).unwrap();
    assert_eq!(back.url, e.url);
    assert_eq!(back.sequence, e.sequence);
    assert_eq!(back.length, e.length);
    assert_eq!(back.size, e.size);
    assert_eq!(back.ts, e.ts);
    assert_eq!(back.is_header, e.is_header);
}

#[test]
fn decode_rejects_wrong_field_count() {
    assert_eq!(TsEntry::from("a|b").unwrap_err(), EntryError::InvalidFormat);
    assert_eq!(
        TsEntry::from("u|1|2.50|3|4|false|extra").unwrap_err(),
        EntryError::InvalidFormat
    );
    assert_eq!(TsEntry::from("").unwrap_err(), EntryError::InvalidFormat);
}

#[test]
fn decode_duration_fraction_forms() {
    // zero, one or two fraction digits all denote exact centisecond counts
    assert_eq!(TsEntry::from("u|1|2|3|4|false").unwrap().length, 200);
    assert_eq!(TsEntry::from("u|1|2.5|3|4|false").unwrap().length, 250);
    assert_eq!(TsEntry::from("u|1|2.50|3|4|false").unwrap().length, 250);
    assert_eq!(TsEntry::from("u|1|0.1|3|4|false").unwrap().length, 10);
}

#[test]
fn decode_signed_number_fields() {
    let e = TsEntry::from("u|+12|2.50|+3|+4|false").unwrap();
    assert_eq!(e.sequence, 12);
    assert_eq!(e.size, 3);
    assert_eq!(e.ts, 4);
    assert_eq!(TsEntry::from("u|1|2.50|3|-4|false").unwrap().ts, -4);
}

#[test]
fn decode_rejects_bad_fields() {
    // non-numeric sequence
    assert!(TsEntry::from("u|x|2.50|3|4|false").is_err());
    // durations that centiseconds cannot hold exactly
    assert!(TsEntry::from("u|1|2.555|3|4|false").is_err());
    assert!(TsEntry::from("u|1|2.|3|4|false").is_err());
    assert!(TsEntry::from("u|1|-2.50|3|4|false").is_err());
    assert!(TsEntry::from("u|1|1e3|3|4|false").is_err());
    // non-numeric size
    assert!(TsEntry::from("u|1|2.50|big|4|false").is_err());
    // non-numeric timestamp
    assert!(TsEntry::from("u|1|2.50|3|soon|false").is_err());
    // non-boolean header flag
    assert!(TsEntry::from("u|1|2.50|3|4|maybe").is_err());
    // sequence beyond u64
    assert!(TsEntry::from("u|99999999999999999999|2.50|3|4|false").is_err());
}

#[test]
fn decode_allows_empty_url_and_trailing_newline() {
    let e = TsEntry::from("|7|0.10|1|2|true\n").unwrap();
    assert_eq!(e.url, "");
    assert_eq!(e.sequence, 7);
    assert_eq!(e.length, 10);
    assert!(e.is_header);
}

#[test]
fn date_time_epoch() {
    let mut e = sample();
    e.ts = 0;
    assert_eq!(
        e.date_time(),
        "#EXT-X-PROGRAM-DATE-TIME:1970-01-01T00:00:00+00:00\n"
    );
}

#[test]
fn date_time_floors_toward_negative_infinity() {
    let mut e = sample();
    e.ts = -1500;
    assert_eq!(
        e.date_time(),
        "#EXT-X-PROGRAM-DATE-TIME:1969-12-31T23:59:58+00:00\n"
    );
}

#[test]
fn to_segment_continuous() {
    let mut e = sample();
    e.url = String::from("s1.ts");
    assert_eq!(e.to_segment(true, false), "#EXTINF:4.25,\ns1.ts\n");
}

#[test]
fn to_segment_discontinuous_adds_marker_and_time() {
    let mut e = sample();
    e.url = String::from("s1.ts");
    e.ts = 1000;
    assert_eq!(
        e.to_segment(false, false),
        "#EXT-X-DISCONTINUITY\n#EXT-X-PROGRAM-DATE-TIME:1970-01-01T00:00:01+00:00\n#EXTINF:4.25,\ns1.ts\n"
    );
}

#[test]
fn to_segment_force_time() {
    let mut e = sample();
    e.url = String::from("s1.ts");
    e.ts = 2000;
    assert_eq!(
        e.to_segment(true, true),
        "#EXT-X-PROGRAM-DATE-TIME:1970-01-01T00:00:02+00:00\n#EXTINF:4.25,\ns1.ts\n"
    );
}

#[test]
fn to_segment_header_is_empty() {
    let mut e = sample();
    e.is_header = true;
    assert_eq!(e.to_segment(true, false), "");
}
