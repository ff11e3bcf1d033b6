use kcc::lines::join_lines;
use kcc::lines::split_lines;
use kcc::mutate::apply_mutation;
use kcc::mutate::dedup_clean_names;
use kcc::mutate::MutationOutcome;
use kcc::report::count_with_outcome;

fn b(s: &str) -> Vec<u8> {
    s.as_bytes().to_vec()
}

fn rows(parts: &[&str]) -> Vec<Vec<u8>> {
    parts.iter().map(|p| b(p)).collect()
}

#[test]
fn scenario_add_one_keep_one() {
    let lines = split_lines(&b("CONFIG_A=y\n"));
    let wanted = rows(&["A", "B"]);
    let report = apply_mutation(&lines, &wanted);
    assert_eq!(report.flags.len(), 2);
    assert_eq!(report.flags[0].name, b("CONFIG_A"));
    assert_eq!(report.flags[0].outcome, MutationOutcome::AlreadyPresent);
    assert_eq!(report.flags[1].name, b("CONFIG_B"));
    assert_eq!(report.flags[1].outcome, MutationOutcome::Added);
    assert_eq!(join_lines(&report.lines), b("CONFIG_A=y\nCONFIG_B=y\n"));
}

#[test]
fn mutation_is_idempotent() {
    let lines = split_lines(&b("CONFIG_A=y\n# comment\n"));
    let wanted = rows(&["A", "B", "C"]);
    let first = apply_mutation(&lines, &wanted);
    let second = apply_mutation(&first.lines, &wanted);
    assert_eq!(second.lines, first.lines);
    assert_eq!(second.flags.len(), 3);
    for one in &second.flags {
        assert_eq!(one.outcome, MutationOutcome::AlreadyPresent);
    }
}

#[test]
fn existing_values_never_altered() {
    let lines = rows(&["CONFIG_C=m", "CONFIG_D=\"x\"", "CONFIG_N=42"]);
    let wanted = rows(&["C", "D", "N"]);
    let report = apply_mutation(&lines, &wanted);
    assert_eq!(report.lines, lines);
    for one in &report.flags {
        assert_eq!(one.outcome, MutationOutcome::AlreadyPresent);
    }
}

#[test]
fn wanted_flags_deduplicate_by_clean_name() {
    let wanted = rows(&["A", "CONFIG_A", "B", "A"]);
    assert_eq!(dedup_clean_names(&wanted), rows(&["A", "B"]));
    let lines = rows(&[]);
    let report = apply_mutation(&lines, &wanted);
    assert_eq!(report.flags.len(), 2);
    assert_eq!(report.flags[0].name, b("CONFIG_A"));
    assert_eq!(report.flags[1].name, b("CONFIG_B"));
    assert_eq!(report.lines, rows(&["CONFIG_A=y", "CONFIG_B=y"]));
}

#[test]
fn comments_do_not_count_as_assignments() {
    // A "not set" comment does not start with the match prefix, so the
    // flag is appended.
    let lines = rows(&["# CONFIG_A is not set"]);
    let wanted = rows(&["A"]);
    let report = apply_mutation(&lines, &wanted);
    assert_eq!(report.flags[0].outcome, MutationOutcome::Added);
    assert_eq!(report.lines, rows(&["# CONFIG_A is not set", "CONFIG_A=y"]));
}

#[test]
fn outcome_counts() {
    let lines = rows(&["CONFIG_A=y"]);
    let wanted = rows(&["A", "B", "C"]);
    let report = apply_mutation(&lines, &wanted);
    assert_eq!(count_with_outcome(&report.flags, MutationOutcome::Added), 2);
    assert_eq!(count_with_outcome(&report.flags, MutationOutcome::AlreadyPresent), 1);
}

#[test]
fn empty_config_gains_all_flags() {
    let lines = rows(&[]);
    let wanted = rows(&["X"]);
    let report = apply_mutation(&lines, &wanted);
    assert_eq!(join_lines(&report.lines), b("CONFIG_X=y\n"));
}
