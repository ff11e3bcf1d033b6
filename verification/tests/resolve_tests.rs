use kcc::flags::parse_flags_text;
use kcc::lines::split_lines;
use kcc::report::exit_code;
use kcc::report::unique_names_with_status;
use kcc::resolve::check_flags;
use kcc::resolve::resolve;
use kcc::resolve::FlagStatus;

fn b(s: &str) -> Vec<u8> {
    s.as_bytes().to_vec()
}

fn rows(parts: &[&str]) -> Vec<Vec<u8>> {
    parts.iter().map(|p| b(p)).collect()
}

#[test]
fn enabled_builtin() {
    let config = rows(&["CONFIG_FOO=y"]);
    let r = resolve(&config, &config, &b("FOO"));
    assert_eq!(r.name, b("CONFIG_FOO"));
    assert_eq!(r.status, FlagStatus::EnabledBuiltin);
}

#[test]
fn enabled_as_module() {
    let config = rows(&["CONFIG_FOO=m"]);
    let r = resolve(&config, &config, &b("FOO"));
    assert_eq!(r.status, FlagStatus::EnabledAsModule);
}

#[test]
fn missing_when_recognized_but_unset() {
    let config = rows(&["CONFIG_BAR=y"]);
    let vocab = rows(&["CONFIG_FOO=y", "CONFIG_BAR=y"]);
    let r = resolve(&config, &vocab, &b("FOO"));
    assert_eq!(r.status, FlagStatus::Missing);
}

#[test]
fn invalid_when_not_in_vocabulary() {
    let config = rows(&["CONFIG_FOO=y"]);
    let vocab = rows(&["CONFIG_BAR=y"]);
    let r = resolve(&config, &vocab, &b("FOO"));
    assert_eq!(r.status, FlagStatus::InvalidOption);
}

#[test]
fn invalid_wins_over_config_content() {
    // The vocabulary is consulted first: a name it does not recognize
    // is invalid even when the checked text would enable it.
    let config = rows(&["CONFIG_FOO=y"]);
    let vocab = rows(&[]);
    let r = resolve(&config, &vocab, &b("FOO"));
    assert_eq!(r.status, FlagStatus::InvalidOption);
}

#[test]
fn other_values_are_passed_over() {
    let config = rows(&["CONFIG_FOO=\"bar\"", "CONFIG_N=0"]);
    let vocab = rows(&["CONFIG_FOO=\"bar\"", "CONFIG_N=0"]);
    assert_eq!(resolve(&config, &vocab, &b("FOO")).status, FlagStatus::Missing);
    assert_eq!(resolve(&config, &vocab, &b("N")).status, FlagStatus::Missing);
}

#[test]
fn first_deciding_line_wins() {
    let config = rows(&["CONFIG_A=m", "CONFIG_A=y"]);
    let r = resolve(&config, &config, &b("A"));
    assert_eq!(r.status, FlagStatus::EnabledAsModule);
}

#[test]
fn deciding_line_after_other_value_wins() {
    let config = rows(&["CONFIG_A=x", "CONFIG_A=y"]);
    let r = resolve(&config, &config, &b("A"));
    assert_eq!(r.status, FlagStatus::EnabledBuiltin);
}

#[test]
fn prefix_spelling_resolves_the_same() {
    let config = rows(&["CONFIG_FOO=y"]);
    let bare = resolve(&config, &config, &b("FOO"));
    let prefixed = resolve(&config, &config, &b("CONFIG_FOO"));
    assert_eq!(bare.name, prefixed.name);
    assert_eq!(bare.status, prefixed.status);
}

#[test]
fn prefix_match_is_exact() {
    // `CONFIG_NET=` must not match `CONFIG_NETWORK=y`.
    let config = rows(&["CONFIG_NETWORK=y"]);
    let r = resolve(&config, &config, &b("NET"));
    assert_eq!(r.status, FlagStatus::InvalidOption);
}

#[test]
fn scenario_flags_file_against_config() {
    let config = split_lines(&b("CONFIG_NET=y\nCONFIG_USB=m\n"));
    let requested = parse_flags_text(&b("NET\n#comment\nUSB\nFOO=ignored\n"));
    let results = check_flags(&config, &config, &requested);
    assert_eq!(results.len(), 3);
    assert_eq!(results[0].name, b("CONFIG_NET"));
    assert_eq!(results[0].status, FlagStatus::EnabledBuiltin);
    assert_eq!(results[1].name, b("CONFIG_USB"));
    assert_eq!(results[1].status, FlagStatus::EnabledAsModule);
    assert_eq!(results[2].name, b("CONFIG_FOO"));
    assert_eq!(results[2].status, FlagStatus::InvalidOption);
    assert_eq!(exit_code(&results), 1);
}

#[test]
fn scenario_with_wider_vocabulary() {
    // Same scenario, with the unknown flag recognized by the reference
    // vocabulary: it is merely missing instead of invalid.
    let config = split_lines(&b("CONFIG_NET=y\nCONFIG_USB=m\n"));
    let vocab = split_lines(&b("CONFIG_NET=y\nCONFIG_USB=m\nCONFIG_FOO=y\n"));
    let requested = parse_flags_text(&b("NET\n#comment\nUSB\nFOO=ignored\n"));
    let results = check_flags(&config, &vocab, &requested);
    assert_eq!(results[2].status, FlagStatus::Missing);
    assert_eq!(exit_code(&results), 1);
}

#[test]
fn order_and_duplicates_preserved() {
    let config = rows(&["CONFIG_NET=y"]);
    let requested = rows(&["NET", "NET", "USB", "USB"]);
    let results = check_flags(&config, &config, &requested);
    assert_eq!(results.len(), 4);
    assert_eq!(results[0].name, b("CONFIG_NET"));
    assert_eq!(results[1].name, b("CONFIG_NET"));
    assert_eq!(results[2].name, b("CONFIG_USB"));
    assert_eq!(results[3].name, b("CONFIG_USB"));
    assert_eq!(results[2].status, FlagStatus::InvalidOption);
    assert_eq!(results[3].status, FlagStatus::InvalidOption);
}

#[test]
fn exit_code_zero_when_all_enabled() {
    let config = rows(&["CONFIG_A=y", "CONFIG_B=m"]);
    let requested = rows(&["A", "B"]);
    let results = check_flags(&config, &config, &requested);
    assert_eq!(exit_code(&results), 0);
}

#[test]
fn follow_up_lists_are_unique() {
    let config = rows(&["CONFIG_OK=y", "CONFIG_UNSET=0"]);
    let requested = rows(&["OK", "UNSET", "UNSET", "GONE", "GONE"]);
    let results = check_flags(&config, &config, &requested);
    let missing = unique_names_with_status(&results, FlagStatus::Missing);
    let invalid = unique_names_with_status(&results, FlagStatus::InvalidOption);
    assert_eq!(missing, rows(&["CONFIG_UNSET"]));
    assert_eq!(invalid, rows(&["CONFIG_GONE"]));
}

#[test]
fn empty_flag_name_participates() {
    let config = rows(&["CONFIG_A=y"]);
    let r = resolve(&config, &config, &b(""));
    assert_eq!(r.name, b("CONFIG_"));
    assert_eq!(r.status, FlagStatus::InvalidOption);
}
