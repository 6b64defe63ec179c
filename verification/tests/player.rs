use ascii_player::cache::{reset_plan, CacheOp};
use ascii_player::config::{default_config_text, parse_config, parse_thousandths, Config, ConfigError};
use ascii_player::digits::{format_dec, parse_dec};
use ascii_player::extract::{audio_extract_args, frame_extract_args, scale_arg};
use ascii_player::glyph::{default_ramp, glyph_index, map_frame};
use ascii_player::order::{sort_names, str_le};
use ascii_player::schedule::{PlaybackState, Scheduler};

fn chars(s: &str) -> Vec<char> {
    s.chars().collect()
}

#[test]
fn glyph_index_boundaries() {
    for len in 1..=16usize {
        assert_eq!(glyph_index(0, len), 0);
        assert_eq!(glyph_index(255, len), len - 1);
    }
}

#[test]
fn glyph_index_formula() {
    for v in 0..=255u8 {
        assert_eq!(glyph_index(v, 12), v as usize * 11 / 255);
    }
}

#[test]
fn block_shape() {
    let luma = vec![0u8, 64, 128, 192, 255, 10];
    let ramp = default_ramp();
    let text = map_frame(&luma, 3, 2, &ramp);
    assert_eq!(text.matches('\n').count(), 2);
    for line in text.lines() {
        assert_eq!(line.chars().count(), 3);
    }
}

#[test]
fn black_frame_renders_spaces() {
    let luma = vec![0u8, 0, 0, 0];
    let ramp = vec![' ', '#'];
    assert_eq!(map_frame(&luma, 2, 2, &ramp), "  \n  \n");
}

#[test]
fn white_frame_renders_dense_glyphs() {
    let luma = vec![255u8, 255, 255, 255];
    let ramp = vec![' ', '#'];
    assert_eq!(map_frame(&luma, 2, 2, &ramp), "##\n##\n");
}

#[test]
fn mid_luma_picks_middle_glyph() {
    let luma = vec![128u8];
    let ramp = default_ramp();
    assert_eq!(map_frame(&luma, 1, 1, &ramp), "w\n");
}

#[test]
fn config_round_trip_defaults() {
    let text = default_config_text();
    let c: Config = parse_config(&text).unwrap();
    assert_eq!(c.video, "bad_apple.mp4");
    assert_eq!(c.width, 100);
    assert_eq!(c.height, 20);
    assert_eq!(c.fps_thousandths, 30_000);
    assert_eq!(c.volume_thousandths, 100);
}

#[test]
fn config_missing_keys_default_to_zero() {
    let c = parse_config("nothing recognized here").unwrap();
    assert_eq!(c.video, "");
    assert_eq!(c.width, 0);
    assert_eq!(c.height, 0);
    assert_eq!(c.fps_thousandths, 0);
    assert_eq!(c.volume_thousandths, 0);
}

#[test]
fn config_last_key_wins() {
    let c = parse_config("width: 3 width: 9").unwrap();
    assert_eq!(c.width, 9);
}

#[test]
fn config_key_without_value_is_rejected() {
    assert!(matches!(parse_config("width:"), Err(ConfigError::MissingValue)));
}

#[test]
fn config_bad_number_is_rejected() {
    assert!(matches!(parse_config("width: abc"), Err(ConfigError::BadNumber)));
    assert!(matches!(parse_config("fps: 2.5.1"), Err(ConfigError::BadNumber)));
    assert!(matches!(parse_config("volume: 1e5"), Err(ConfigError::BadNumber)));
}

#[test]
fn config_fractional_fps() {
    let c = parse_config("fps: 29.97").unwrap();
    assert_eq!(c.fps_thousandths, 29_970);
}

#[test]
fn thousandths_parsing() {
    assert_eq!(parse_thousandths(&chars("0.1")), Some(100));
    assert_eq!(parse_thousandths(&chars("30")), Some(30_000));
    assert_eq!(parse_thousandths(&chars("29.97")), Some(29_970));
    assert_eq!(parse_thousandths(&chars("1.2345")), Some(1_234));
    assert_eq!(parse_thousandths(&chars(".5")), Some(500));
    assert_eq!(parse_thousandths(&chars("5.")), Some(5_000));
    assert_eq!(parse_thousandths(&chars(".")), None);
    assert_eq!(parse_thousandths(&chars("")), None);
    assert_eq!(parse_thousandths(&chars("-1")), None);
}

#[test]
fn decimal_parsing() {
    assert_eq!(parse_dec(&chars("123"), u64::MAX), Some(123));
    assert_eq!(parse_dec(&chars("0"), u64::MAX), Some(0));
    assert_eq!(parse_dec(&chars(""), u64::MAX), None);
    assert_eq!(parse_dec(&chars("12a"), u64::MAX), None);
    assert_eq!(parse_dec(&chars("101"), 100), None);
    assert_eq!(parse_dec(&chars("18446744073709551616"), u64::MAX), None);
}

#[test]
fn decimal_formatting() {
    assert_eq!(format_dec(0), chars("0"));
    assert_eq!(format_dec(7), chars("7"));
    assert_eq!(format_dec(100), chars("100"));
    assert_eq!(format_dec(30_000), chars("30000"));
}

#[test]
fn frame_names_sort_numerically() {
    let names: Vec<String> = vec![
        "frame-0000010.png".to_owned(),
        "frame-0000002.png".to_owned(),
        "frame-0000001.png".to_owned(),
        "frame-0000009.png".to_owned(),
    ];
    let sorted = sort_names(names);
    assert_eq!(
        sorted,
        vec![
            "frame-0000001.png".to_owned(),
            "frame-0000002.png".to_owned(),
            "frame-0000009.png".to_owned(),
            "frame-0000010.png".to_owned(),
        ]
    );
}

#[test]
fn lexicographic_comparison() {
    assert!(str_le(&"a".to_owned(), &"b".to_owned()));
    assert!(!str_le(&"b".to_owned(), &"a".to_owned()));
    assert!(str_le(&"ab".to_owned(), &"abc".to_owned()));
    assert!(!str_le(&"abc".to_owned(), &"ab".to_owned()));
    assert!(str_le(&"same".to_owned(), &"same".to_owned()));
}

#[test]
fn scheduler_three_frames_at_ten_fps() {
    let mut s = Scheduler::new(3, 10_000);
    assert_eq!(s.interval_micros, 100_000);
    assert_eq!(s.state(), PlaybackState::Idle);
    assert_eq!(s.next_frame(), Some(0));
    assert_eq!(s.state(), PlaybackState::Playing);
    assert_eq!(s.next_frame(), Some(1));
    assert_eq!(s.next_frame(), Some(2));
    assert_eq!(s.state(), PlaybackState::Done);
    assert_eq!(s.next_frame(), None);
    assert_eq!(s.state(), PlaybackState::Done);
}

#[test]
fn scheduler_with_no_frames_is_done_at_once() {
    let mut s = Scheduler::new(0, 30_000);
    assert_eq!(s.next_frame(), None);
    assert_eq!(s.state(), PlaybackState::Done);
}

#[test]
fn cache_reset_plans() {
    assert_eq!(reset_plan(true), vec![CacheOp::WipeAll, CacheOp::CreateFrames]);
    assert_eq!(reset_plan(false), vec![CacheOp::CreateFrames]);
}

#[test]
fn extractor_argument_lists() {
    assert_eq!(scale_arg(100, 20), "scale=100:20");
    assert_eq!(
        frame_extract_args("bad_apple.mp4", 100, 20),
        vec![
            "-i".to_owned(),
            "bad_apple.mp4".to_owned(),
            "-vf".to_owned(),
            "image2".to_owned(),
            "-vf".to_owned(),
            "scale=100:20".to_owned(),
            "./cache/frames/frame-%07d.png".to_owned(),
        ]
    );
    assert_eq!(
        audio_extract_args("bad_apple.mp4"),
        vec![
            "-i".to_owned(),
            "bad_apple.mp4".to_owned(),
            "./cache/audio.wav".to_owned(),
        ]
    );
}

#[test]
fn default_ramp_shape() {
    let r = default_ramp();
    assert_eq!(r.len(), 12);
    assert_eq!(r[0], ' ');
    assert_eq!(r[11], '%');
    assert!(!r.contains(&'\n'));
}
