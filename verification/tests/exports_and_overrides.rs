use adr_optimizer::export::{
    export_lines, export_rows_of, is_export_file_name, load_rows, select_row, RowNames,
};
use adr_optimizer::options::{FlagField, FloatField, IntField, UsizeField};
use adr_optimizer::overrides::{
    config_key_kind, json_bool, json_i32, json_u64, json_usize, override_steps, ConfigKey, OverrideStep,
};

fn row(preset: &str, decks: &[&str]) -> RowNames {
    RowNames { preset_name: preset.to_string(), deck_names: decks.iter().map(|d| d.to_string()).collect() }
}

fn rows() -> Vec<RowNames> {
    vec![
        row("Yuusei", &["Japanese::Core"]),
        row("Kanji Kentei", &["Kanji", "Kanji::Extra"]),
        row("Reading", &["Graded Readers"]),
    ]
}

#[test]
fn selector_passes_in_order() {
    let r = rows();
    assert_eq!(select_row(&r, "yuusei"), Ok(0));
    assert_eq!(select_row(&r, "KANJI::EXTRA"), Ok(1));
    assert_eq!(select_row(&r, "read"), Ok(2));
    assert_eq!(select_row(&r, "core"), Ok(0));
}

#[test]
fn exact_preset_name_wins_over_deck_names() {
    let r = vec![row("Kanji Kentei", &["Kanji"]), row("Kanji", &["Core"])];
    assert_eq!(select_row(&r, "KANJI"), Ok(1));
    assert_eq!(select_row(&r, "kanji kentei"), Ok(0));
}

#[test]
fn selector_errors() {
    let r = rows();
    assert_eq!(
        select_row(&r, "e"),
        Err("Preset/deck selector \"e\" is ambiguous. Matches: Yuusei, Kanji Kentei, Reading. Use the exact deck_preset.name.".to_string())
    );
    assert_eq!(
        select_row(&r, "zzz"),
        Err("Preset/deck selector \"zzz\" not found. Available presets: Yuusei, Kanji Kentei, Reading".to_string())
    );
}

#[test]
fn export_file_names() {
    assert!(is_export_file_name("adr-input-2024.jsonl"));
    assert!(is_export_file_name("adr-input-.jsonl"));
    assert!(!is_export_file_name("adr-input.jsonl"));
    assert!(!is_export_file_name("adr-input-2024.json"));
}

#[test]
fn override_keys() {
    let key = |s: &str| config_key_kind(&s.chars().collect());
    assert_eq!(key("days"), Some(ConfigKey::Int(IntField::Days)));
    assert_eq!(key("threads"), Some(ConfigKey::Usize(UsizeField::Threads)));
    assert_eq!(key("point_only"), Some(ConfigKey::Selection));
    assert_eq!(key("optimizer_strategy"), Some(ConfigKey::Selection));
    assert_eq!(key("final_eval_weight"), Some(ConfigKey::Float(FloatField::FinalEvalWeight)));
    assert_eq!(key("ignore_safety"), Some(ConfigKey::Bool(FlagField::IgnoreSafety)));
    assert_eq!(key("target_dr"), Some(ConfigKey::TargetDr));
    assert_eq!(key("days "), None);
}

#[test]
fn override_scalars() {
    assert_eq!(json_i32(Some(5), None, "days", "jobs[0]"), Ok(5));
    assert_eq!(json_i32(None, Some("-7"), "days", "jobs[0]"), Ok(-7));
    assert_eq!(json_i32(Some(1 << 40), None, "days", "jobs[0]"), Err("jobs[0].days expected a 32-bit integer".to_string()));
    assert_eq!(json_i32(None, Some("x"), "days", "cfg"), Err("cfg.days expected a 32-bit integer".to_string()));
    assert_eq!(json_u64(None, Some("12"), "seed", "cfg"), Ok(12));
    assert_eq!(json_u64(None, None, "seed", "cfg"), Err("cfg.seed expected a non-negative integer".to_string()));
    assert_eq!(json_usize(Some(3), None, "threads", "cfg"), Ok(3));
    assert_eq!(json_bool(Some(false), Some("yes"), "x", "cfg"), Ok(false));
    assert_eq!(json_bool(None, Some("YES"), "x", "cfg"), Ok(true));
    assert_eq!(json_bool(None, Some("0"), "x", "cfg"), Ok(false));
    assert_eq!(json_bool(None, Some("maybe"), "x", "cfg"), Err("cfg.x expected a boolean".to_string()));
}

#[test]
fn export_lines_trimmed_without_blanks() {
    assert_eq!(export_lines("{\"a\":1}\r\n\n  \n {\"b\":2} \n"), vec!["{\"a\":1}", "{\"b\":2}"]);
    assert!(export_lines("").is_empty());
    assert!(export_lines("\n \r\n").is_empty());
}

fn keys(items: &[&str]) -> Vec<String> {
    items.iter().map(|s| s.to_string()).collect()
}

#[test]
fn overrides_apply_quality_preset_first_and_stop_at_unknown_keys() {
    let steps = override_steps(&keys(&["days", "quality_preset", "seed"]), "batch config");
    let shown: Vec<String> = steps.iter().map(|s| format!("{:?}", s)).collect();
    assert_eq!(
        shown,
        vec![
            format!("{:?}", OverrideStep::Apply(1, ConfigKey::QualityPreset)),
            format!("{:?}", OverrideStep::Apply(0, ConfigKey::Int(IntField::Days))),
            format!("{:?}", OverrideStep::Apply(2, ConfigKey::Seed)),
        ]
    );
    let steps = override_steps(&keys(&["seed", "colour", "days"]), "jobs[0]");
    assert_eq!(steps.len(), 2);
    match &steps[1] {
        OverrideStep::Unknown(1, message) => {
            assert_eq!(message, "jobs[0] contains unknown config key \"colour\"")
        }
        other => panic!("unexpected step {:?}", other),
    }
    assert!(override_steps(&Vec::new(), "x").is_empty());
}

#[test]
fn an_export_without_rows_is_an_error() {
    assert_eq!(export_rows_of(" \n\r\n", "exports/a.jsonl"), Err("No rows found in exports/a.jsonl".to_string()));
    assert_eq!(export_rows_of("{}\n", "x"), Ok(vec!["{}".to_string()]));
}

#[test]
fn loading_reads_the_names_of_each_row() {
    let text = "{\"deck_preset\":{\"name\":\"Lang\"},\"decks\":[{\"name\":\"French\"},{\"id\":3},{\"name\":\"German\"}],\"x\":0.5}\n\n  {\"decks\":\"none\"}  \r\n";
    let rows = load_rows(text, "e.jsonl").unwrap();
    assert_eq!(rows.len(), 2);
    assert_eq!(rows[0].names.preset_name, "Lang");
    assert_eq!(rows[0].names.deck_names, vec!["French".to_string(), "German".to_string()]);
    assert_eq!(rows[0].value["x"].as_f64(), Some(0.5));
    assert_eq!(rows[1].names.preset_name, "");
    assert!(rows[1].names.deck_names.is_empty());
}

#[test]
fn loading_stops_at_the_first_line_that_is_no_json() {
    let err = load_rows("{}\nnot json\n{", "e.jsonl").err().unwrap();
    let expected = serde_json::from_str::<serde_json::Value>("not json").unwrap_err().to_string();
    assert_eq!(err, format!("invalid JSONL row: {expected}"));
    assert_eq!(load_rows(" \n\n", "e.jsonl").err().unwrap(), "No rows found in e.jsonl");
}
