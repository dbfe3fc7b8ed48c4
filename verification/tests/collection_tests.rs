use audioserve::audio_meta::{is_audio, is_cover, is_description, TimeStamp};
use audioserve::playlist::is_playlist;
use std::time::{Duration, SystemTime};

#[test]
fn test_is_audio() {
    assert!(is_audio("my/song.mp3"));
    assert!(is_audio("other/chapter.opus"));
    assert!(!is_audio("cover.jpg"));
}

#[test]
fn test_is_cover() {
    assert!(is_cover("cover.jpg"));
    assert!(!is_cover("my/song.mp3"));
}

#[test]
fn test_is_description() {
    assert!(!is_description("cover.jpg"));
    assert!(is_description("about.html"));
    assert!(is_description("about.txt"));
    assert!(is_description("some/folder/text.md"));
}

#[test]
fn test_timestamp() {
    let now = SystemTime::now();
    let now_ts = TimeStamp::from_system_time(now);
    let in_future = now + Duration::from_secs(120);
    let in_future_ts = TimeStamp::from_system_time(in_future);
    assert!(now_ts < in_future_ts);
    assert!(now_ts < TimeStamp::from_system_time(in_future));
    assert!(in_future_ts > now_ts);
    assert!(in_future_ts > TimeStamp::from_system_time(now));
}

#[test]
fn test_detection() {
    assert!(is_playlist("mp3tag.m3u"));
    assert!(!is_playlist("track.mp3"));
}

#[test]
fn time_stamp_from_secs_and_nanos() {
    assert_eq!(TimeStamp::from_secs_nanos(1, 999_999_999), TimeStamp(1999));
    assert_eq!(TimeStamp::from_secs_nanos(1_600_000_000, 5_000_000), TimeStamp(1_600_000_000_005));
    assert_eq!(TimeStamp::from_secs_nanos(0, 0), TimeStamp(0));
}
