use entry_store::record::RecordRow;

#[test]
fn record_row_starts_with_zero_aggregates() {
    let r = RecordRow::new(
        7,
        42,
        "a stream",
        Some(String::from("cover.png")),
        String::from("2024-01-01T00:00:00+00:00"),
    );
    assert_eq!(r.live_id, 7);
    assert_eq!(r.room_id, 42);
    assert_eq!(r.title, "a stream");
    assert_eq!(r.length, 0);
    assert_eq!(r.size, 0);
    assert_eq!(r.created_at, "2024-01-01T00:00:00+00:00");
    assert_eq!(r.cover, Some(String::from("cover.png")));
}
