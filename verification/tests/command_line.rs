use adr_optimizer::cli::{
    batch_config_path, next_positional, parse_i32, parse_result_label, parse_u64, parse_usize,
    requested_exit, split_option, text_to_i64, value_for, CliExit, PointOnlyFlags,
};
use adr_optimizer::options::{
    candidate_parts, parse_settings, scan_quality_preset, split_presets, CliSetting, FlagField,
    FloatField, IntField,
    PointOption, UsizeField,
};
use adr_optimizer::types::ResultLabel;

fn args(items: &[&str]) -> Vec<String> {
    items.iter().map(|s| s.to_string()).collect()
}

#[test]
fn split_option_at_first_equals() {
    assert_eq!(split_option("--days=30"), ("--days", Some("30")));
    assert_eq!(split_option("--days"), ("--days", None));
    assert_eq!(split_option("--x=a=b"), ("--x", Some("a=b")));
    assert_eq!(split_option("=v"), ("", Some("v")));
    assert_eq!(split_option("--x="), ("--x", Some("")));
}

#[test]
fn value_for_inline_or_next() {
    let a = args(&["--days", "30"]);
    let mut i = 0;
    assert_eq!(value_for(&a, &mut i, None, "--days"), Ok("30"));
    assert_eq!(i, 1);
    let mut i = 0;
    assert_eq!(value_for(&a, &mut i, Some("7"), "--days"), Ok("7"));
    assert_eq!(i, 0);
    let b = args(&["--days"]);
    let mut i = 0;
    assert_eq!(value_for(&b, &mut i, None, "--days"), Err("--days expects a value".to_string()));
}

#[test]
fn next_positional_reports_missing_values() {
    let a = args(&["--original", "1"]);
    let mut i = 0;
    assert_eq!(next_positional(&a, &mut i, "--original"), Ok("1"));
    assert_eq!(next_positional(&a, &mut i, "--original"), Err("--original expects three values".to_string()));
}

#[test]
fn values_past_the_end_are_errors() {
    let a = args(&["--days"]);
    let mut i = 5;
    assert_eq!(value_for(&a, &mut i, None, "--days"), Err("--days expects a value".to_string()));
    assert_eq!(i, 6);
    let mut i = 9;
    assert_eq!(value_for(&a, &mut i, Some("3"), "--days"), Ok("3"));
    assert_eq!(i, 9);
    let mut i = 3;
    assert_eq!(next_positional(&a, &mut i, "--original"), Err("--original expects three values".to_string()));
    assert_eq!(i, 4);
}

#[test]
fn integers_parse_like_rust() {
    assert_eq!(parse_i32("42", "--days"), Ok(42));
    assert_eq!(parse_i32("+42", "--days"), Ok(42));
    assert_eq!(parse_i32("-2147483648", "--days"), Ok(i32::MIN));
    assert_eq!(parse_i32("2147483647", "--days"), Ok(i32::MAX));
    assert_eq!(parse_i32("2147483648", "--days"), Err("--days expected an integer, got \"2147483648\"".to_string()));
    assert_eq!(parse_i32("-", "--days"), Err("--days expected an integer, got \"-\"".to_string()));
    assert_eq!(parse_i32("", "--days"), Err("--days expected an integer, got \"\"".to_string()));
    assert_eq!(parse_i32(" 1", "--days"), Err("--days expected an integer, got \" 1\"".to_string()));
    assert_eq!(parse_u64("18446744073709551615", "--seed"), Ok(u64::MAX));
    assert_eq!(parse_u64("18446744073709551616", "--seed"), Err("--seed expected an integer, got \"18446744073709551616\"".to_string()));
    assert_eq!(parse_u64("-1", "--seed"), Err("--seed expected an integer, got \"-1\"".to_string()));
    assert_eq!(parse_usize("007", "--threads"), Ok(7));
    assert_eq!(parse_usize("x", "--threads"), Err("--threads expected a non-negative integer, got \"x\"".to_string()));
    assert_eq!(text_to_i64("-9223372036854775808"), Some(i64::MIN));
    assert_eq!(text_to_i64("9223372036854775808"), None);
}

#[test]
fn integers_agree_with_std() {
    for text in ["0", "-0", "+0", "12", "-12", "+-1", "--1", "1_000", "99999999999", "٣", "+"] {
        assert_eq!(parse_i32(text, "n").ok(), text.parse::<i32>().ok(), "{text}");
        assert_eq!(parse_u64(text, "n").ok(), text.parse::<u64>().ok(), "{text}");
        assert_eq!(text_to_i64(text), text.parse::<i64>().ok(), "{text}");
    }
}

#[test]
fn decimal_text_reads_back() {
    for n in [0u64, 7, 10, 123456789, u64::MAX] {
        assert_eq!(parse_u64(&n.to_string(), "n"), Ok(n));
    }
}

#[test]
fn result_labels_parse_loosely() {
    assert_eq!(parse_result_label("recommended"), Ok(ResultLabel::Recommended));
    assert_eq!(parse_result_label("  AGGRESSIVE "), Ok(ResultLabel::Aggressive));
    assert_eq!(parse_result_label("Calm"), Ok(ResultLabel::Calm));
    assert_eq!(
        parse_result_label("quiet"),
        Err("unknown selection \"quiet\"; expected recommended, aggressive, or calm".to_string())
    );
    for label in [ResultLabel::Recommended, ResultLabel::Aggressive, ResultLabel::Calm] {
        assert_eq!(parse_result_label(label.as_str()), Ok(label));
        assert_eq!(parse_result_label(label.file_fragment()), Ok(label));
    }
}

#[test]
fn help_wins_over_version() {
    assert!(matches!(requested_exit(&args(&["--version", "-h"])), Some(CliExit::Help)));
    assert!(matches!(requested_exit(&args(&["version"])), Some(CliExit::Version)));
    assert!(requested_exit(&args(&["--preset", "Yuusei"])).is_none());
}

#[test]
fn batch_config_path_rules() {
    assert_eq!(batch_config_path(&args(&["--preset", "x"])), Ok(None));
    assert_eq!(batch_config_path(&args(&["--batch-config", "a.json"])), Ok(Some("a.json".to_string())));
    assert_eq!(batch_config_path(&args(&["--batch-config=b.json"])), Ok(Some("b.json".to_string())));
    assert_eq!(
        batch_config_path(&args(&["--batch-config", "a", "--batch-config", "b"])),
        Err("--batch-config may only be provided once".to_string())
    );
    assert_eq!(
        batch_config_path(&args(&["--days", "3", "--batch-config=a"])),
        Err("--batch-config cannot be combined with ordinary CLI options".to_string())
    );
    assert_eq!(batch_config_path(&args(&["--batch-config"])), Err("--batch-config expects a value".to_string()));
}

#[test]
fn point_only_selection_round_trip() {
    for label in [None, Some(ResultLabel::Recommended), Some(ResultLabel::Aggressive), Some(ResultLabel::Calm)] {
        let mut flags = PointOnlyFlags { recommended_only: true, aggressive_only: true, calm_only: true };
        flags.set_point_only_selection(label);
        assert_eq!(flags.point_only_label(), label);
        assert_eq!(flags.validate_point_only("jobs[0]"), Ok(()));
    }
    let both = PointOnlyFlags { recommended_only: true, aggressive_only: false, calm_only: true };
    assert_eq!(both.point_only_label(), Some(ResultLabel::Recommended));
    assert_eq!(
        both.validate_point_only("jobs[1]"),
        Err("jobs[1] has mutually exclusive point-only selections enabled".to_string())
    );
}

#[test]
fn presets_split_on_commas() {
    assert_eq!(split_presets(" A , B,,C "), vec!["A", "B", "C"]);
    assert_eq!(split_presets(""), Vec::<String>::new());
    assert_eq!(split_presets("Kanji Kentei"), vec!["Kanji Kentei"]);
}

#[test]
fn quality_preset_scan_takes_the_last() {
    assert_eq!(scan_quality_preset(&args(&["--preset", "x"])), Ok("medium-high".to_string()));
    assert_eq!(
        scan_quality_preset(&args(&["--quality-preset", "lite", "--quality-preset=high"])),
        Ok("high".to_string())
    );
    assert_eq!(
        scan_quality_preset(&args(&["--quality-preset"])),
        Err("--quality-preset expects a value".to_string())
    );
}

#[test]
fn settings_in_order() {
    let parsed = parse_settings(&args(&[
        "--quality-preset", "lite", "--preset", "A,B", "--presets=C", "--target-dr", "85", "--days=30",
        "--threads", "4", "--seed", "9", "--calm-only", "--no-phase1-expand", "--export", "ex",
        "--output-dir=out", "--phase2-s-step", "0.01",
    ]));
    assert!(parsed.error.is_none());
    let s = &parsed.settings;
    assert_eq!(s.len(), 11);
    assert!(matches!(&s[0], CliSetting::Presets(true, names) if names == &vec!["A".to_string(), "B".to_string()]));
    assert!(matches!(&s[1], CliSetting::Presets(false, names) if names == &vec!["C".to_string()]));
    assert!(matches!(&s[2], CliSetting::Float(FloatField::TargetDr, n, v) if n == "--target-dr" && v == "85"));
    assert!(matches!(&s[3], CliSetting::Int(IntField::Days, 30)));
    assert!(matches!(&s[4], CliSetting::Usize(UsizeField::Threads, 4)));
    assert!(matches!(&s[5], CliSetting::Seed(9)));
    assert!(matches!(&s[6], CliSetting::Flag(FlagField::CalmOnly, true)));
    assert!(matches!(&s[7], CliSetting::Flag(FlagField::Phase1Expand, false)));
    assert!(matches!(&s[8], CliSetting::Export(p) if p == "ex"));
    assert!(matches!(&s[9], CliSetting::OutputDir(p) if p == "out"));
    assert!(matches!(&s[10], CliSetting::Float(FloatField::Phase2SStep, _, v) if v == "0.01"));
}

#[test]
fn settings_errors() {
    let parsed = parse_settings(&args(&["--days", "3", "--bogus"]));
    assert_eq!(parsed.settings.len(), 1);
    assert_eq!(parsed.error, Some("unknown option: --bogus".to_string()));
    let parsed = parse_settings(&args(&["--bogus=1"]));
    assert_eq!(parsed.error, Some("unknown option: --bogus".to_string()));
    let parsed = parse_settings(&args(&["stray"]));
    assert_eq!(parsed.error, Some("unexpected positional argument: stray".to_string()));
    let parsed = parse_settings(&args(&["--days", "x"]));
    assert_eq!(parsed.error, Some("--days expected an integer, got \"x\"".to_string()));
    let parsed = parse_settings(&args(&["--threads", "-1"]));
    assert_eq!(parsed.error, Some("--threads expected a non-negative integer, got \"-1\"".to_string()));
    let parsed = parse_settings(&args(&["--recommended-only", "--calm-only"]));
    assert_eq!(parsed.settings.len(), 2);
    assert_eq!(
        parsed.error,
        Some("--recommended-only, --aggressive-only, and --calm-only are mutually exclusive".to_string())
    );
    let parsed = parse_settings(&args(&["--export"]));
    assert_eq!(parsed.error, Some("--export expects a value".to_string()));
}

#[test]
fn candidate_options_take_three_values() {
    let parsed = parse_settings(&args(&["--original", "1.5", "0.1", "-0.1", "--inspect-point=1", "2", "3"]));
    assert!(parsed.error.is_none());
    assert!(matches!(&parsed.settings[0], CliSetting::Point(PointOption::Original, n, a, b, c)
        if n == "--original" && a == "1.5" && b == "0.1" && c == "-0.1"));
    assert!(matches!(&parsed.settings[1], CliSetting::Point(PointOption::InspectPoint, _, a, b, c)
        if a == "1" && b == "2" && c == "3"));
    let parsed = parse_settings(&args(&["--original", "1", "2"]));
    assert_eq!(parsed.error, Some("--original expects three values".to_string()));
    assert_eq!(parsed.settings.len(), 2);
    assert!(matches!(&parsed.settings[0], CliSetting::FloatCheck(n, v) if n == "--original" && v == "1"));
    assert!(matches!(&parsed.settings[1], CliSetting::FloatCheck(_, v) if v == "2"));
}

#[test]
fn flags_ignore_inline_values() {
    let parsed = parse_settings(&args(&["--matplotlib=no"]));
    assert!(parsed.error.is_none());
    assert!(matches!(&parsed.settings[0], CliSetting::Flag(FlagField::Matplotlib, true)));
}

#[test]
fn candidate_text_splits_on_commas_and_spaces() {
    assert_eq!(candidate_parts("1.5, 0.1 -0.05"), vec!["1.5", "0.1", "-0.05"]);
    assert_eq!(candidate_parts(",,1\t2\u{2003}3,"), vec!["1", "2", "3"]);
    assert!(candidate_parts(" , ").is_empty());
}
