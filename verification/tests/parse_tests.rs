use kcc::bytes::has_gz_name;
use kcc::flags::canonical_name;
use kcc::flags::clean_name;
use kcc::flags::collect_flags;
use kcc::flags::parse_flags_text;
use kcc::flags::parse_inline_flags;
use kcc::lines::join_lines;
use kcc::lines::split_lines;

fn b(s: &str) -> Vec<u8> {
    s.as_bytes().to_vec()
}

fn rows(parts: &[&str]) -> Vec<Vec<u8>> {
    parts.iter().map(|p| b(p)).collect()
}

#[test]
fn split_lines_plain() {
    assert_eq!(split_lines(&b("a\nb\n")), rows(&["a", "b"]));
    assert_eq!(split_lines(&b("a\nb")), rows(&["a", "b"]));
    assert_eq!(split_lines(&b("")), rows(&[]));
    assert_eq!(split_lines(&b("\n")), rows(&[""]));
}

#[test]
fn split_lines_carriage_returns() {
    assert_eq!(split_lines(&b("a\r\nb\r\n")), rows(&["a", "b"]));
    assert_eq!(split_lines(&b("a\rb\n")), rows(&["a\rb"]));
    assert_eq!(split_lines(&b("a\r")), rows(&["a\r"]));
}

#[test]
fn join_lines_terminates_each_line() {
    assert_eq!(join_lines(&rows(&["CONFIG_A=y", "CONFIG_B=y"])), b("CONFIG_A=y\nCONFIG_B=y\n"));
    assert_eq!(join_lines(&rows(&[])), b(""));
}

#[test]
fn flags_file_comments_blanks_and_values() {
    let flags = parse_flags_text(&b("NET\n#comment\nUSB\nFOO=ignored\n"));
    assert_eq!(flags, rows(&["NET", "USB", "FOO"]));
}

#[test]
fn flags_file_trims_whitespace() {
    let flags = parse_flags_text(&b("  A  \n\n   # note\nB=1\n\t\n"));
    assert_eq!(flags, rows(&["A", "B"]));
}

#[test]
fn inline_flags_split_at_commas() {
    assert_eq!(parse_inline_flags(&b("A,B")), rows(&["A", "B"]));
    assert_eq!(parse_inline_flags(&b(" a , b ,,")), rows(&["a", "b"]));
    assert_eq!(parse_inline_flags(&b("")), rows(&[]));
}

#[test]
fn collect_keeps_declaration_order() {
    let texts = rows(&["NET\nUSB\n", "PCI\n"]);
    let args = rows(&["EXT4,BTRFS"]);
    let flags = collect_flags(&texts, &args);
    assert_eq!(flags, rows(&["NET", "USB", "PCI", "EXT4", "BTRFS"]));
}

#[test]
fn collect_keeps_duplicates() {
    let texts = rows(&["NET\nNET\n"]);
    let args = rows(&["NET"]);
    let flags = collect_flags(&texts, &args);
    assert_eq!(flags, rows(&["NET", "NET", "NET"]));
}

#[test]
fn canonical_name_normalizes_both_spellings() {
    assert_eq!(canonical_name(&b("X")), b("CONFIG_X"));
    assert_eq!(canonical_name(&b("CONFIG_X")), b("CONFIG_X"));
    assert_eq!(canonical_name(&b("")), b("CONFIG_"));
}

#[test]
fn clean_name_strips_one_prefix() {
    assert_eq!(clean_name(&b("CONFIG_FOO")), b("FOO"));
    assert_eq!(clean_name(&b("FOO")), b("FOO"));
    assert_eq!(clean_name(&b("CONFIG_CONFIG_FOO")), b("CONFIG_FOO"));
}

#[test]
fn gz_names() {
    assert!(has_gz_name(&b("config.gz")));
    assert!(has_gz_name(&b("a.tar.gz")));
    assert!(!has_gz_name(&b("config")));
    assert!(!has_gz_name(&b(".gz")));
    assert!(!has_gz_name(&b("gz")));
}
