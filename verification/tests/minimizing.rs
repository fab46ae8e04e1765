use jcode_hashline::minimizer::{
    live_minimizer_options, minimize_with, told_exit_code, MinimizerResult, MinimizerSettings,
};

fn settings(only: &[&str]) -> MinimizerSettings {
    MinimizerSettings {
        enabled: true,
        settings_path: Some("s.toml".to_string()),
        only: only.iter().map(|s| s.to_string()).collect(),
        except: vec![],
        max_capture_bytes: 10,
        source_outline_level: "low".to_string(),
        legacy_filters: false,
    }
}

fn result(text: &str, changed: bool) -> MinimizerResult {
    MinimizerResult {
        text: text.to_string(),
        changed,
        filter: "cargo".to_string(),
        input_bytes: 1200,
        output_bytes: 30,
    }
}

#[test]
fn empty_lists_are_no_lists() {
    let options = live_minimizer_options(&settings(&[]));
    assert_eq!(options.enabled, Some(true));
    assert_eq!(options.only, None);
    assert_eq!(options.except, None);
    assert_eq!(options.settings_hash, None);
    assert_eq!(options.settings_path.as_deref(), Some("s.toml"));
    assert_eq!(options.max_capture_bytes, Some(10));
    assert_eq!(options.source_outline_level.as_deref(), Some("low"));
    assert!(!options.legacy_filters);
    let options = live_minimizer_options(&settings(&["git", "cargo"]));
    assert_eq!(options.only, Some(vec!["git".to_string(), "cargo".to_string()]));
}

#[test]
fn outcomes_of_the_minimizer() {
    let output = || "long output\n".to_string();
    assert_eq!(minimize_with(output(), None), output());
    assert_eq!(minimize_with(output(), Some(result("short", false))), output());
    assert_eq!(
        minimize_with(output(), Some(result("short", true))),
        "short\n[output minimized via cargo : 1200 -> 30 bytes]"
    );
    assert_eq!(
        minimize_with(output(), Some(result("short\n", true))),
        "short\n[output minimized via cargo : 1200 -> 30 bytes]"
    );
    assert_eq!(told_exit_code(None), 0);
    assert_eq!(told_exit_code(Some(-2)), -2);
}
