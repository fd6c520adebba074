use dualcut::captions::{captions_to_clips, group_words_into_lines, parse_whisper_segments, TranscriptError};
use dualcut::document::{Element, TextAlign};
use dualcut::silence::{detect_silence, FULL_SCALE};

fn fx(x: f64) -> i128 {
    (x * 1e9).round() as i128
}

fn w(start: f64, end: f64, text: &str) -> (i128, i128, String) {
    (fx(start), fx(end), text.to_string())
}

#[test]
fn parse_whisper_segments_extracts_seconds_and_text() {
    let json = r#"{"transcription":[
            {"offsets":{"from":0,"to":1500},"text":" Hello"},
            {"offsets":{"from":1500,"to":3000},"text":" world"}
        ]}"#;
    let segments = parse_whisper_segments(json).expect("valid whisper JSON parses");
    assert_eq!(segments, vec![w(0.0, 1.5, " Hello"), w(1.5, 3.0, " world")]);
}

#[test]
fn parse_whisper_segments_rejects_malformed_json() {
    assert!(parse_whisper_segments("not json").is_err());
    assert_eq!(parse_whisper_segments("not json").unwrap_err(), TranscriptError::BadJson);
}

#[test]
fn parse_whisper_segments_rejects_json_missing_the_transcription_array() {
    assert!(parse_whisper_segments(r#"{"foo":"bar"}"#).is_err());
    assert_eq!(
        parse_whisper_segments(r#"{"foo":"bar"}"#).unwrap_err(),
        TranscriptError::NoTranscription
    );
}

#[test]
fn parse_whisper_segments_skips_segments_missing_required_fields() {
    let json = r#"{"transcription":[{"text":"no offsets"}]}"#;
    let segments = parse_whisper_segments(json).expect("still parses, just yields nothing");
    assert!(segments.is_empty());
}

#[test]
fn groups_short_run_into_one_line() {
    let words = vec![w(0.0, 0.2, "hello"), w(0.2, 0.4, "world")];
    let lines = group_words_into_lines(&words, 42, fx(0.6));
    assert_eq!(lines.len(), 1);
    assert_eq!(lines[0].len(), 2);
}

#[test]
fn breaks_line_on_a_long_pause() {
    let words = vec![w(0.0, 0.2, "hello"), w(3.0, 3.2, "world")];
    let lines = group_words_into_lines(&words, 42, fx(0.6));
    assert_eq!(lines.len(), 2);
}

#[test]
fn breaks_line_after_sentence_end_punctuation() {
    let words = vec![w(0.0, 0.2, "Hi."), w(0.3, 0.5, "Bye.")];
    let lines = group_words_into_lines(&words, 42, fx(0.6));
    assert_eq!(lines.len(), 2);
}

#[test]
fn breaks_line_when_it_would_exceed_max_chars() {
    let words: Vec<_> = (0..20).map(|i| w(i as f64, i as f64 + 0.5, "word")).collect();
    let lines = group_words_into_lines(&words, 20, fx(10.0));
    assert!(lines.len() > 1);
    for line in &lines {
        let len: usize = line.iter().map(|(_, _, w)| w.len() + 1).sum();
        assert!(len <= 24, "line exceeded max_chars by more than one word: {len}");
    }
}

#[test]
fn empty_words_produce_no_lines() {
    assert!(group_words_into_lines(&vec![], 42, fx(0.6)).is_empty());
}

#[test]
fn blank_words_are_skipped() {
    let words = vec![w(0.0, 0.1, "  "), w(0.1, 0.2, "hi")];
    let lines = group_words_into_lines(&words, 42, fx(0.6));
    assert_eq!(lines.len(), 1);
    assert_eq!(lines[0].len(), 1);
}

#[test]
fn captions_become_centered_outlined_text_clips() {
    let segs = vec![
        w(0.0, 1.234, " Hello world "),
        w(1.5, 3.0, "Second line"),
        w(3.0, 3.5, "   "),
    ];
    let clips = captions_to_clips(&segs);
    assert_eq!(clips.len(), 2);
    assert_eq!(clips[0].id, "sub-0");
    assert_eq!(clips[0].start, 0);
    assert_eq!(clips[0].duration, fx(1.23));
    match &clips[0].element {
        Element::Text { text, font, color, align, outline, shadow } => {
            assert_eq!(text, "Hello world");
            assert_eq!(font, "Sans Semi-Bold 22");
            assert_eq!(color, "#ffffff");
            assert_eq!(*align, Some(TextAlign::Center));
            assert_eq!(outline.as_deref(), Some("#000000"));
            assert!(!shadow);
        }
        other => panic!("expected text clip, got {other:?}"),
    }
    assert_eq!(clips[1].id, "sub-1");
    assert_eq!(clips[1].start, fx(1.5));
    assert_eq!(clips[1].duration, fx(1.5));
}

#[test]
fn captions_from_empty_transcript_are_empty() {
    assert!(captions_to_clips(&vec![]).is_empty());
}

/// The level of a number of decibels below full scale.
fn level(db: f64) -> u32 {
    (10f64.powf(db / 20.0) * FULL_SCALE as f64) as u32
}

fn tone(secs: f64, sr: u32, amp: f64) -> Vec<i32> {
    vec![(amp * FULL_SCALE as f64) as i32; (secs * sr as f64) as usize]
}

#[test]
fn detects_a_silent_gap_between_two_loud_stretches() {
    let sr = 8000;
    let mut samples = tone(1.0, sr, 0.8);
    samples.extend(tone(1.0, sr, 0.0));
    samples.extend(tone(1.0, sr, 0.8));
    let ranges = detect_silence(&samples, sr, level(-40.0), fx(0.5));
    assert_eq!(ranges.len(), 1);
    let (s, e) = ranges[0];
    assert!((s - fx(1.0)).abs() < fx(0.05), "start {s}");
    assert!((e - fx(2.0)).abs() < fx(0.05), "end {e}");
}

#[test]
fn ignores_silence_shorter_than_min_duration() {
    let sr = 8000;
    let mut samples = tone(1.0, sr, 0.8);
    samples.extend(tone(0.1, sr, 0.0));
    samples.extend(tone(1.0, sr, 0.8));
    assert!(detect_silence(&samples, sr, level(-40.0), fx(0.5)).is_empty());
}

#[test]
fn quiet_but_not_silent_audio_is_not_flagged() {
    let sr = 8000;
    let samples = tone(1.0, sr, 0.1);
    assert!(detect_silence(&samples, sr, level(-40.0), fx(0.5)).is_empty());
}

#[test]
fn empty_input_returns_no_ranges() {
    assert!(detect_silence(&vec![], 8000, level(-40.0), fx(0.5)).is_empty());
}

#[test]
fn trailing_silence_at_end_of_stream_is_detected() {
    let sr = 8000;
    let mut samples = tone(1.0, sr, 0.8);
    samples.extend(tone(0.6, sr, 0.0));
    let ranges = detect_silence(&samples, sr, level(-40.0), fx(0.5));
    assert_eq!(ranges.len(), 1);
    assert!((ranges[0].0 - fx(1.0)).abs() < fx(0.05));
}

#[test]
fn line_lengths_are_counted_in_characters() {
    let words = vec![w(0.0, 0.5, "\u{e9}\u{e9}\u{e9}"), w(0.5, 1.0, "\u{e9}\u{e9}\u{e9}")];
    assert_eq!(group_words_into_lines(&words, 8, fx(0.6)).len(), 1);
}

#[test]
fn a_line_of_just_the_limit_is_not_broken() {
    let words = vec![w(0.0, 0.5, "one"), w(0.5, 1.0, "two")];
    assert_eq!(group_words_into_lines(&words, 7, fx(0.6)).len(), 1);
    assert_eq!(group_words_into_lines(&words, 6, fx(0.6)).len(), 2);
}
