use entry_store::subtitle::{format_time, render_srt, SubtitleSegment};

fn seg(text: &str, start_cs: i64, end_cs: i64) -> SubtitleSegment {
    SubtitleSegment {
        text: String::from(text),
        start_cs,
        end_cs,
    }
}

#[test]
fn format_time_zero() {
    assert_eq!(format_time(0), "00:00:00,000");
}

#[test]
fn format_time_minutes_and_fraction() {
    assert_eq!(format_time(8345), "00:01:23,450");
}

#[test]
fn format_time_hours() {
    assert_eq!(format_time(3723450), "10:20:34,500");
}

#[test]
fn render_srt_numbers_blocks_from_one() {
    let segments = vec![seg("hello", 0, 150), seg("world", 150, 300)];
    let expected = "1\n00:00:00,000 --> 00:00:01,500\nhello\n\n\
2\n00:00:01,500 --> 00:00:03,000\nworld\n\n";
    assert_eq!(render_srt(&segments), expected);
}

#[test]
fn render_srt_empty_is_empty() {
    let segments: Vec<SubtitleSegment> = Vec::new();
    assert_eq!(render_srt(&segments), "");
}
