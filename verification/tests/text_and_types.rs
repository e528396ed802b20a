use adr_optimizer::config::{batch_quality_presets, join_preset_names, preset_names, quality_preset_index};
use adr_optimizer::text::{safe_name, script_safe, trim_str};
use adr_optimizer::types::{safety_row_is_safe, PointKey, ResultLabel, SafetySummary, EXACT_KEY_LIMIT};

#[test]
fn json_key_writes_six_decimals() {
    let key = |a, b, c| PointKey(a, b, c).json_key();
    assert_eq!(key(1_570_000, 135_000, -85_000), Some("1.570000,0.135000,-0.085000".to_string()));
    assert_eq!(key(0, 0, 0), Some("0.000000,0.000000,0.000000".to_string()));
    assert_eq!(key(-1, 1, 12_345_678), Some("-0.000001,0.000001,12.345678".to_string()));
}

#[test]
fn json_key_leaves_huge_coordinates_to_floating_point() {
    assert_eq!(PointKey(i64::MIN, i64::MAX, -1_000_000).json_key(), None);
    assert_eq!(PointKey(EXACT_KEY_LIMIT, 0, 0).json_key(), None);
    assert_eq!(PointKey(0, 0, -EXACT_KEY_LIMIT).json_key(), None);
}

#[test]
fn json_key_agrees_with_six_decimals_of_the_double() {
    let near = [
        EXACT_KEY_LIMIT - 1,
        EXACT_KEY_LIMIT - 500_001,
        -(EXACT_KEY_LIMIT - 1),
        1_234_567_890_123_456,
        -999_999,
        123,
    ];
    for (n, &k) in near.iter().enumerate() {
        for step in 0..2000i64 {
            let k = if k > 0 { k - step * 7_919 * (n as i64 + 1) } else { k + step * 7_919 };
            let written = PointKey(k, 0, 0).json_key().unwrap();
            let through_double = format!("{:.6},0.000000,0.000000", k as f64 / 1_000_000.0);
            assert_eq!(written, through_double, "key {k}");
        }
    }
}

#[test]
fn result_label_names() {
    assert_eq!(ResultLabel::Recommended.as_str(), "Recommended");
    assert_eq!(ResultLabel::Aggressive.as_str(), "Aggressive");
    assert_eq!(ResultLabel::Calm.as_str(), "Calm");
    assert_eq!(ResultLabel::Recommended.file_fragment(), "recommended");
    assert_eq!(ResultLabel::Aggressive.file_fragment(), "aggressive");
    assert_eq!(ResultLabel::Calm.file_fragment(), "calm");
}

#[test]
fn safety_row_safe_only_without_flips_or_shortens() {
    assert!(safety_row_is_safe(&SafetySummary { checks: 3000, interval_flips: 0, hard_shortens: 0 }));
    assert!(!safety_row_is_safe(&SafetySummary { checks: 3000, interval_flips: 1, hard_shortens: 0 }));
    assert!(!safety_row_is_safe(&SafetySummary { checks: 3000, interval_flips: 0, hard_shortens: 2 }));
}

#[test]
fn safe_name_replaces_and_trims() {
    assert_eq!(safe_name("Kanji Kentei"), "Kanji_Kentei");
    assert_eq!(safe_name("  a/b.c-d_e  "), "a_b.c-d_e");
    assert_eq!(safe_name("___"), "preset");
    assert_eq!(safe_name(""), "preset");
    assert_eq!(safe_name("日本語::Deck"), "日本語__Deck");
    assert_eq!(safe_name("!!x!!"), "x");
}

#[test]
fn safe_name_is_stable() {
    for input in ["Kanji Kentei", "___", "a b c", "__x__", "日本 語"] {
        let once = safe_name(input);
        assert_eq!(safe_name(&once), once);
        assert!(!once.is_empty());
    }
}

#[test]
fn trim_removes_unicode_white_space() {
    let t: String = trim_str("\u{3000}\t calm \n\u{a0}").into_iter().collect();
    assert_eq!(t, "calm");
    let t: String = trim_str("   ").into_iter().collect();
    assert_eq!(t, "");
}

#[test]
fn script_safe_escapes_closing_tags() {
    assert_eq!(script_safe("{\"a\":\"</script>\"}"), "{\"a\":\"<\\/script>\"}");
    assert_eq!(script_safe("<</"), "<<\\/");
    assert_eq!(script_safe("plain"), "plain");
    assert!(!script_safe("</</x</").contains("</"));
}

#[test]
fn preset_names_in_order() {
    assert_eq!(preset_names(), &["potato", "lite", "medium", "medium-high", "high"]);
    assert_eq!(join_preset_names("|"), "potato|lite|medium|medium-high|high");
}

#[test]
fn quality_preset_lookup() {
    assert_eq!(quality_preset_index("potato"), Ok(0));
    assert_eq!(quality_preset_index("medium-high"), Ok(3));
    assert_eq!(quality_preset_index("high"), Ok(4));
    assert_eq!(
        quality_preset_index("ultra"),
        Err("Unknown quality preset \"ultra\"; valid presets: potato, lite, medium, medium-high, high".to_string())
    );
}

#[test]
fn batch_jobs_fall_back_to_the_batch_preset_then_medium_high() {
    let jobs = vec![Some("lite".to_string()), None];
    assert_eq!(
        batch_quality_presets(&jobs, &Some("high".to_string())).unwrap(),
        vec!["lite".to_string(), "high".to_string()]
    );
    assert_eq!(batch_quality_presets(&jobs, &None).unwrap(), vec!["lite".to_string(), "medium-high".to_string()]);
    assert_eq!(
        batch_quality_presets(&Vec::new(), &None).err().unwrap(),
        "batch config must contain at least one job"
    );
}
