use srt_subtitles::{
    format_time, strip_formatting, AppendWithOffset, InvalidPeriod, ParseError, ParseErrorKind,
    Period, Subtitle, SubtitleFile,
};

/// Seconds as the whole milliseconds in which the library counts.
fn millis(seconds: f64) -> u64 {
    (seconds * 1000.0).round() as u64
}

fn subtitle(index: usize, begin: f64, end: f64, lines: &[&str]) -> Subtitle {
    Subtitle {
        index,
        period: Period::new(millis(begin), millis(end)).unwrap(),
        lines: lines.iter().map(|l| l.to_string()).collect(),
    }
}

fn fault(kind: ParseErrorKind, position: usize) -> ParseError {
    ParseError { kind, position }
}

#[test]
fn subtitle_to_string() {
    let sub = Subtitle {
        index: 4,
        period: Period::new(millis(61.5), millis(63.75)).unwrap(),
        lines: vec!["Line 1".to_string(), "<i>Line 2</i>".to_string()],
    };
    let expected = r"4
00:01:01,500 --> 00:01:03,750
Line 1
<i>Line 2</i>
"
    .to_string();
    assert_eq!(expected, sub.to_string());
}

#[test]
fn subtitle_file_to_string() {
    let data = "\u{FEFF}16
00:01:02,328 --> 00:01:04,664
Line 1.1

17
00:01:12,839 --> 00:01:13,839
Line 2.1
";
    let srt = SubtitleFile::from_str(data).unwrap();
    assert_eq!(data, &srt.to_string());
}

#[test]
fn zero_duration_subtitle() {
    let data = "\u{FEFF}16
00:00:01,000 --> 00:00:01,000
Text
";
    let srt = SubtitleFile::from_str(data).unwrap();
    assert_eq!(srt.subtitles.len(), 1);
    assert_eq!(srt.subtitles[0].period.begin(), millis(1.0));
    assert_eq!(srt.subtitles[0].period.end(), millis(1.001));
}

#[test]
fn parses_entries_of_several_lines() {
    let data = "\u{FEFF}16\r\n00:01:02,328 --> 00:01:04,664\r\n¡Si! ¡Aang ha vuelto!\r\n\r\n\
17\r\n00:01:12,839 --> 00:01:13,839\r\nSabía que lo harías.\r\n\r\n\
18\r\n00:01:18,011 --> 00:01:20,843\r\nTu diste la señal a la armada\r\ndel fuego con la bengala,\r\n\r\n";
    let srt = SubtitleFile::from_str(data).unwrap();
    assert_eq!(3, srt.subtitles.len());

    let sub = &srt.subtitles[0];
    assert_eq!(16, sub.index);
    assert_eq!(millis(62.328), sub.period.begin());
    assert_eq!(millis(64.664), sub.period.end());
    assert_eq!(vec!["¡Si! ¡Aang ha vuelto!".to_string()], sub.lines);

    let sub2 = &srt.subtitles[2];
    assert_eq!(
        vec![
            "Tu diste la señal a la armada".to_string(),
            "del fuego con la bengala,".to_string(),
        ],
        sub2.lines
    );
}

#[test]
fn format_time_gives_srt_timestamps() {
    assert_eq!("01:01:21,500", format_time(millis(3681.5)));
    assert_eq!("00:00:00,000", format_time(millis(0.0)));
    assert_eq!("00:00:00,001", format_time(1));
    assert_eq!("00:00:59,999", format_time(59_999));
    assert_eq!("00:01:00,000", format_time(60_000));
    assert_eq!("23:59:59,999", format_time(86_399_999));
}

#[test]
fn format_time_lets_hours_grow() {
    assert_eq!("24:00:00,000", format_time(86_400_000));
    assert_eq!("100:00:00,010", format_time(360_000_010));
    assert_eq!("5124095576030:25:51,615", format_time(u64::MAX));
}

#[test]
fn period_new_wants_begin_before_end() {
    let period = Period::new(5, 6).unwrap();
    assert_eq!(5, period.begin());
    assert_eq!(6, period.end());
    assert_eq!(Err(InvalidPeriod { begin: 5, end: 5 }), Period::new(5, 5));
    assert_eq!(Err(InvalidPeriod { begin: 6, end: 5 }), Period::new(6, 5));
}

#[test]
fn period_shift_moves_both_ends() {
    let period = Period::new(1_500, 4_000).unwrap().shift(10_000);
    assert_eq!(11_500, period.begin());
    assert_eq!(14_000, period.end());
    let last = Period::new(0, 1).unwrap().shift(u64::MAX - 1);
    assert_eq!(u64::MAX - 1, last.begin());
    assert_eq!(u64::MAX, last.end());
}

#[test]
fn parse_keeps_the_numbers_as_written() {
    let data = "16\n00:00:01,000 --> 00:00:02,000\nOne\n\n007\n00:00:03,000 --> 00:00:04,000\nTwo\n\n16\n00:00:05,000 --> 00:00:06,000\nThree\n";
    let srt = SubtitleFile::from_str(data).unwrap();
    let numbers: Vec<usize> = srt.subtitles.iter().map(|s| s.index).collect();
    assert_eq!(vec![16, 7, 16], numbers);
}

#[test]
fn parse_passes_over_marks_and_empty_lines() {
    let data = "\u{FEFF}\u{FEFF}\n\r\n\n1\n00:00:01,000 --> 00:00:02,000\nOne\n\n\n\r\n2\n00:00:03,000 --> 00:00:04,000\nTwo\n\n\n";
    let srt = SubtitleFile::from_str(data).unwrap();
    assert_eq!(
        SubtitleFile {
            subtitles: vec![subtitle(1, 1.0, 2.0, &["One"]), subtitle(2, 3.0, 4.0, &["Two"])],
        },
        srt
    );
}

#[test]
fn parse_without_final_line_break() {
    let srt = SubtitleFile::from_str("1\n00:00:01,000 --> 00:00:02,000\nOne").unwrap();
    assert_eq!(SubtitleFile { subtitles: vec![subtitle(1, 1.0, 2.0, &["One"])] }, srt);
}

#[test]
fn text_goes_on_until_an_empty_line() {
    let data = "1\n00:00:01,000 --> 00:00:02,000\nOne\n2\n00:00:03,000 --> 00:00:04,000\nTwo\n";
    let srt = SubtitleFile::from_str(data).unwrap();
    assert_eq!(1, srt.subtitles.len());
    assert_eq!(
        vec!["One", "2", "00:00:03,000 --> 00:00:04,000", "Two"],
        srt.subtitles[0].lines
    );
}

#[test]
fn times_need_not_keep_to_the_clock() {
    let srt = SubtitleFile::from_str("1\n0:90:75,5 --> 2:0:0,25\nOne\n").unwrap();
    assert_eq!(5_475_500, srt.subtitles[0].period.begin());
    assert_eq!(7_200_250, srt.subtitles[0].period.end());
    assert_eq!(
        Err(fault(ParseErrorKind::InvalidPeriod, 2)),
        SubtitleFile::from_str("1\n0:90:75,5 --> 1:0:0,25\nOne\n")
    );
}

#[test]
fn fractions_round_to_the_millisecond() {
    let srt = SubtitleFile::from_str("1\n00:00:01,0004 --> 00:00:01,0005\nOne\n").unwrap();
    assert_eq!(1_000, srt.subtitles[0].period.begin());
    assert_eq!(1_001, srt.subtitles[0].period.end());
    let srt = SubtitleFile::from_str("1\n00:00:01,9 --> 00:00:01,99951\nOne\n").unwrap();
    assert_eq!(1_900, srt.subtitles[0].period.begin());
    assert_eq!(2_000, srt.subtitles[0].period.end());
}

#[test]
fn reversed_period_is_refused() {
    let data = "\u{FEFF}16\n00:00:02,000 --> 00:00:01,999\nText\n";
    assert_eq!(Err(fault(ParseErrorKind::InvalidPeriod, 4)), SubtitleFile::from_str(data));
    let data = "1\n00:00:01,000 --> 00:00:02,000\nOne\n\n2\n00:00:04,000 --> 00:00:03,000\nTwo\n";
    assert_eq!(Err(fault(ParseErrorKind::InvalidPeriod, 39)), SubtitleFile::from_str(data));
}

#[test]
fn text_off_the_grammar_is_refused() {
    let syntax = |position| Err(fault(ParseErrorKind::Syntax, position));
    assert_eq!(syntax(0), SubtitleFile::from_str(""));
    assert_eq!(syntax(3), SubtitleFile::from_str("\u{FEFF}\n\n"));
    assert_eq!(syntax(0), SubtitleFile::from_str("One\n"));
    assert_eq!(syntax(2), SubtitleFile::from_str("16 \n00:00:01,000 --> 00:00:02,000\nText\n"));
    assert_eq!(syntax(3), SubtitleFile::from_str("16\n\n00:00:01,000 --> 00:00:02,000\nText\n"));
    assert_eq!(syntax(5), SubtitleFile::from_str("16\n00.00:01,000 --> 00:00:02,000\nText\n"));
    assert_eq!(syntax(11), SubtitleFile::from_str("16\n00:00:01.000 --> 00:00:02,000\nText\n"));
    assert_eq!(syntax(12), SubtitleFile::from_str("16\n00:00:01, --> 00:00:02,000\nText\n"));
    assert_eq!(syntax(15), SubtitleFile::from_str("16\n00:00:01,000 -> 00:00:02,000\nText\n"));
    assert_eq!(syntax(32), SubtitleFile::from_str("16\n00:00:01,000 --> 00:00:02,000 \nText\n"));
    assert_eq!(syntax(33), SubtitleFile::from_str("16\n00:00:01,000 --> 00:00:02,000\n\nText\n"));
    assert_eq!(syntax(33), SubtitleFile::from_str("16\n00:00:01,000 --> 00:00:02,000\n"));
    assert_eq!(syntax(37), SubtitleFile::from_str("16\n00:00:01,000 --> 00:00:02,000\nText\rMore\n"));
    assert_eq!(syntax(39), SubtitleFile::from_str("16\n00:00:01,000 --> 00:00:02,000\nText\n\nMore\n"));
}

#[test]
fn numbers_beyond_the_machine_are_refused() {
    let too_large = |position| Err(fault(ParseErrorKind::NumberTooLarge, position));
    assert_eq!(
        too_large(0),
        SubtitleFile::from_str("340282366920938463463374607431768211456\n00:00:01,000 --> 00:00:02,000\nText\n")
    );
    assert_eq!(
        too_large(2),
        SubtitleFile::from_str("1\n5124095576031:00:00,000 --> 5124095576032:00:00,000\nText\n")
    );
    assert_eq!(
        too_large(19),
        SubtitleFile::from_str("1\n00:00:01,000 --> 99999999999999999999:00:02,000\nText\n")
    );
    assert_eq!(
        too_large(30),
        SubtitleFile::from_str(
            "1\n5124095576030:25:51,615 --> 5124095576030:25:51,615\nText\n"
        )
    );
    let srt = SubtitleFile::from_str("1\n5124095576030:25:51,614 --> 5124095576030:25:51,615\nText\n")
        .unwrap();
    assert_eq!(u64::MAX, srt.subtitles[0].period.end());
}

#[test]
fn written_files_read_back() {
    let file = SubtitleFile {
        subtitles: vec![
            subtitle(16, 62.328, 64.664, &["¡Si! ¡Aang ha vuelto!"]),
            subtitle(3, 0.0, 0.001, &["<i>a</i>", "b"]),
            subtitle(16, 360_000.0, 360_001.5, &["- c", "- d", "e"]),
        ],
    };
    let text = file.to_string();
    assert_eq!(
        "\u{FEFF}16\n00:01:02,328 --> 00:01:04,664\n¡Si! ¡Aang ha vuelto!\n\n\
3\n00:00:00,000 --> 00:00:00,001\n<i>a</i>\nb\n\n\
16\n100:00:00,000 --> 100:00:01,500\n- c\n- d\ne\n",
        text
    );
    assert_eq!(Ok(file), SubtitleFile::from_str(&text));
}

#[test]
fn file_without_subtitles_is_only_the_mark() {
    assert_eq!("\u{FEFF}", SubtitleFile { subtitles: vec![] }.to_string());
}

#[test]
fn find_gives_the_first_with_the_number() {
    let file = SubtitleFile {
        subtitles: vec![
            subtitle(2, 1.0, 2.0, &["a"]),
            subtitle(7, 3.0, 4.0, &["b"]),
            subtitle(7, 5.0, 6.0, &["c"]),
            subtitle(1, 7.0, 8.0, &["d"]),
        ],
    };
    assert_eq!(Some(&file.subtitles[1]), file.find(7));
    assert_eq!(Some(&file.subtitles[3]), file.find(1));
    assert_eq!(Some(&file.subtitles[0]), file.find(2));
    assert_eq!(None, file.find(3));
    assert_eq!(None, SubtitleFile { subtitles: vec![] }.find(1));
}

#[test]
fn append_with_offset_renumbers_and_shifts() {
    let mut first = SubtitleFile {
        subtitles: vec![subtitle(16, 1.0, 2.0, &["a"]), subtitle(16, 0.5, 9.0, &["b", "c"])],
    };
    let second = SubtitleFile {
        subtitles: vec![
            subtitle(1, 0.0, 1.5, &["d"]),
            subtitle(9, 2.0, 3.0, &["e"]),
            subtitle(4, 2.5, 2.75, &["f"]),
        ],
    };
    assert!(first.can_append(&second, millis(10.0)));
    first.append_with_offset(second, millis(10.0));
    assert_eq!(
        SubtitleFile {
            subtitles: vec![
                subtitle(1, 1.0, 2.0, &["a"]),
                subtitle(2, 0.5, 9.0, &["b", "c"]),
                subtitle(3, 10.0, 11.5, &["d"]),
                subtitle(4, 12.0, 13.0, &["e"]),
                subtitle(5, 12.5, 12.75, &["f"]),
            ],
        },
        first
    );
}

#[test]
fn append_with_offset_to_and_of_nothing() {
    let mut first = SubtitleFile { subtitles: vec![] };
    first.append_with_offset(SubtitleFile { subtitles: vec![subtitle(5, 1.0, 2.0, &["a"])] }, 0);
    assert_eq!(SubtitleFile { subtitles: vec![subtitle(1, 1.0, 2.0, &["a"])] }, first);
    first.append_with_offset(SubtitleFile { subtitles: vec![] }, 500);
    assert_eq!(SubtitleFile { subtitles: vec![subtitle(1, 1.0, 2.0, &["a"])] }, first);
}

#[test]
fn can_append_tells_when_times_do_not_fit() {
    let first = SubtitleFile { subtitles: vec![subtitle(1, 1.0, 2.0, &["a"])] };
    let second = SubtitleFile {
        subtitles: vec![subtitle(1, 1.0, 2.0, &["b"]), subtitle(2, 3.0, 4.0, &["c"])],
    };
    assert!(first.can_append(&second, u64::MAX - 4_000));
    assert!(!first.can_append(&second, u64::MAX - 3_999));
    assert!(second.can_append(&first, u64::MAX - 2_000));
}

#[test]
fn strip_formatting_takes_tags_out() {
    assert_eq!("Line 2", strip_formatting("<i>Line 2</i>"));
    assert_eq!("a b", strip_formatting("<font color=\"#fff\">a</font> <b>b</b>"));
    assert_eq!("", strip_formatting(""));
    assert_eq!("plain", strip_formatting("plain"));
    assert_eq!("x", strip_formatting("</>x<a>"));
}

#[test]
fn strip_formatting_leaves_what_is_no_tag() {
    assert_eq!("1 < 2 > 0", strip_formatting("1 < 2 > 0"));
    assert_eq!("<3 <I> <>", strip_formatting("<3 <I> <>"));
    assert_eq!("a <i", strip_formatting("a <i"));
    assert_eq!("a <", strip_formatting("a <"));
    assert_eq!("<é>", strip_formatting("<é>"));
    assert_eq!("<", strip_formatting("<<i>"));
}

#[test]
fn plain_text_joins_lines_with_a_space() {
    let sub = subtitle(4, 61.5, 63.75, &["Line 1", "<i>Line 2</i>"]);
    assert_eq!("Line 1 Line 2", sub.plain_text());
    let sub = subtitle(4, 61.5, 63.75, &["<i>one", "two</i>"]);
    assert_eq!("one two", sub.plain_text());
    let sub = subtitle(4, 61.5, 63.75, &["a <b", "c> d"]);
    assert_eq!("a  d", sub.plain_text());
}

#[test]
fn plain_text_of_a_file_has_a_line_for_each_subtitle() {
    let file = SubtitleFile {
        subtitles: vec![
            subtitle(1, 1.0, 2.0, &["<i>¡Si!</i>", "¡Aang ha vuelto!"]),
            subtitle(2, 3.0, 4.0, &["Sabía que lo harías."]),
        ],
    };
    assert_eq!("¡Si! ¡Aang ha vuelto!\nSabía que lo harías.", file.plain_text());
    assert_eq!("", SubtitleFile { subtitles: vec![] }.plain_text());
}
