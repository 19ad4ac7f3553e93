use xclips::collect::{collect_spans, sort_spans};
use xclips::driver::{build_plan, extraction_strings};
use xclips::errors::ParseError;
use xclips::naming::{clip_filename, log10_ceil, split_extension};
use xclips::span::Span;

fn lines(texts: &[&str]) -> Vec<Vec<u8>> {
    texts.iter().map(|t| t.as_bytes().to_vec()).collect()
}

#[test]
fn log10_ceil_steps_past_powers_of_ten() {
    assert_eq!(log10_ceil(0), 1);
    assert_eq!(log10_ceil(1), 1);
    assert_eq!(log10_ceil(9), 1);
    assert_eq!(log10_ceil(10), 1);
    assert_eq!(log10_ceil(11), 2);
    assert_eq!(log10_ceil(100), 2);
    assert_eq!(log10_ceil(101), 2);
    assert_eq!(log10_ceil(110), 3);
}

#[test]
fn split_extension_at_last_dot() {
    let (stem, ext) = split_extension(b"movie.mp4").unwrap();
    assert_eq!(stem, b"movie".to_vec());
    assert_eq!(ext, b"mp4".to_vec());

    let (stem, ext) = split_extension(b"a.b.c").unwrap();
    assert_eq!(stem, b"a.b".to_vec());
    assert_eq!(ext, b"c".to_vec());

    assert_eq!(split_extension(b"noextension"), None);
}

#[test]
fn single_clip_name_has_no_index() {
    assert_eq!(clip_filename(b"movie", b"mp4", 0, 1), b"movie_clip.mp4".to_vec());
}

#[test]
fn three_clips_use_one_digit() {
    assert_eq!(clip_filename(b"movie", b"mp4", 0, 3), b"movie_clip0.mp4".to_vec());
    assert_eq!(clip_filename(b"movie", b"mp4", 1, 3), b"movie_clip1.mp4".to_vec());
    assert_eq!(clip_filename(b"movie", b"mp4", 2, 3), b"movie_clip2.mp4".to_vec());
}

#[test]
fn twelve_clips_use_two_digits() {
    assert_eq!(clip_filename(b"movie", b"mp4", 0, 12), b"movie_clip00.mp4".to_vec());
    assert_eq!(clip_filename(b"movie", b"mp4", 11, 12), b"movie_clip11.mp4".to_vec());
}

#[test]
fn ten_clips_still_use_one_digit() {
    assert_eq!(clip_filename(b"movie", b"mp4", 9, 10), b"movie_clip9.mp4".to_vec());
    assert_eq!(clip_filename(b"movie", b"mp4", 10, 11), b"movie_clip10.mp4".to_vec());
}

#[test]
fn sort_orders_and_keeps_duplicates() {
    let mut spans = vec![
        Span::parse(b"5-9").unwrap(),
        Span::parse(b"1-2").unwrap(),
        Span::parse(b"5-9").unwrap(),
        Span::parse(b"1-1").unwrap(),
    ];
    sort_spans(&mut spans);
    assert_eq!(spans.len(), 4);
    assert_eq!(spans[0], Span::parse(b"1-1").unwrap());
    assert_eq!(spans[1], Span::parse(b"1-2").unwrap());
    assert_eq!(spans[2], Span::parse(b"5-9").unwrap());
    assert_eq!(spans[3], Span::parse(b"5-9").unwrap());
}

#[test]
fn collect_merges_file_and_arguments_sorted() {
    let file = lines(&["10-20", "1-2"]);
    let args = lines(&["5-6"]);
    let spans = collect_spans(&file, &args).unwrap();
    assert_eq!(spans.len(), 3);
    assert_eq!(spans[0], Span::parse(b"1-2").unwrap());
    assert_eq!(spans[1], Span::parse(b"5-6").unwrap());
    assert_eq!(spans[2], Span::parse(b"10-20").unwrap());
}

#[test]
fn collect_of_nothing_is_empty() {
    let spans = collect_spans(&Vec::new(), &Vec::new()).unwrap();
    assert!(spans.is_empty());
}

#[test]
fn collect_reports_first_bad_file_line() {
    let file = lines(&["1-2", "abc-def", "3-4"]);
    let bad = collect_spans(&file, &Vec::new()).unwrap_err();
    assert!(bad.from_file);
    assert_eq!(bad.index, 1);
    assert_eq!(bad.error, ParseError::NotATimestamp);
}

#[test]
fn collect_reports_bad_argument() {
    let file = lines(&["1-2"]);
    let args = lines(&["5-3"]);
    let bad = collect_spans(&file, &args).unwrap_err();
    assert!(!bad.from_file);
    assert_eq!(bad.index, 0);
    assert_eq!(bad.error, ParseError::EndBeforeStart);
}

#[test]
fn collect_rejects_blank_line() {
    let file = lines(&["1-2", ""]);
    let bad = collect_spans(&file, &Vec::new()).unwrap_err();
    assert!(bad.from_file);
    assert_eq!(bad.index, 1);
    assert_eq!(bad.error, ParseError::NoDash);
}

#[test]
fn seek_and_duration_strings() {
    let sp = Span::parse(b"1.5-3.25").unwrap();
    let (seek, duration) = extraction_strings(&sp);
    assert_eq!(seek, b"1.500".to_vec());
    // (3*1000 + 250) - 1*1000 + 500: the start's milliseconds are added.
    assert_eq!(duration, b"2.750".to_vec());
}

#[test]
fn duration_of_whole_seconds() {
    let sp = Span::parse(b"10-70").unwrap();
    let (seek, duration) = extraction_strings(&sp);
    assert_eq!(seek, b"10.000".to_vec());
    assert_eq!(duration, b"60.000".to_vec());
}

#[test]
fn zero_length_span() {
    let sp = Span::parse(b"7-7").unwrap();
    let (seek, duration) = extraction_strings(&sp);
    assert_eq!(seek, b"7.000".to_vec());
    assert_eq!(duration, b"0.000".to_vec());
}

#[test]
fn plan_for_one_span() {
    let spans = vec![Span::parse(b"1-2").unwrap()];
    let plan = build_plan(&spans, b"movie.mp4").unwrap();
    assert_eq!(plan.len(), 1);
    assert_eq!(plan[0].filename, b"movie_clip.mp4".to_vec());
    assert_eq!(plan[0].seek, b"1.000".to_vec());
    assert_eq!(plan[0].duration, b"1.000".to_vec());
}

#[test]
fn plan_for_twelve_spans_pads_to_two_digits() {
    let mut texts: Vec<Vec<u8>> = Vec::new();
    for i in 0..12u32 {
        texts.push(format!("{}-{}", i, i + 1).into_bytes());
    }
    let spans = collect_spans(&texts, &Vec::new()).unwrap();
    let plan = build_plan(&spans, b"movie.mp4").unwrap();
    assert_eq!(plan.len(), 12);
    assert_eq!(plan[0].filename, b"movie_clip00.mp4".to_vec());
    assert_eq!(plan[9].filename, b"movie_clip09.mp4".to_vec());
    assert_eq!(plan[11].filename, b"movie_clip11.mp4".to_vec());
}

#[test]
fn empty_plan_for_no_spans() {
    let plan = build_plan(&Vec::new(), b"movie.mp4").unwrap();
    assert!(plan.is_empty());
}

#[test]
fn plan_requires_an_extension_even_with_no_spans() {
    assert_eq!(build_plan(&Vec::new(), b"movie"), None);
}
