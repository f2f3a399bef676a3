use sc_localization::{is_language_line, remove_language_lines, upsert_language_line};

#[test]
fn upsert_replaces_single_directive_line() {
    let out = upsert_language_line("foo=1\ng_language = en_EN\nbar=2", "de_DE");
    assert_eq!(out, "foo=1\ng_language = de_DE\nbar=2");
}

#[test]
fn upsert_appends_to_empty_text() {
    let out = upsert_language_line("", "en_EN");
    assert_eq!(out, "g_language = en_EN\n");
}

#[test]
fn upsert_appends_with_separating_newline() {
    let out = upsert_language_line("foo=1\nbar=2", "fr_FR");
    assert_eq!(out, "foo=1\nbar=2\ng_language = fr_FR\n");
}

#[test]
fn upsert_appends_after_trailing_newline() {
    let out = upsert_language_line("foo=1\n", "fr_FR");
    assert_eq!(out, "foo=1\ng_language = fr_FR\n");
}

#[test]
fn upsert_replaces_every_directive_line() {
    let out = upsert_language_line("g_language = a\nx=1\ng_language=b", "zz_ZZ");
    assert_eq!(out, "g_language = zz_ZZ\nx=1\ng_language = zz_ZZ");
}

#[test]
fn upsert_tolerates_whitespace_around_equals() {
    let out = upsert_language_line("g_language\t=  old_code", "xx_XX");
    assert_eq!(out, "g_language = xx_XX");
}

#[test]
fn upsert_ignores_lookalike_keys() {
    let out = upsert_language_line("g_languageX = y", "aa_AA");
    assert_eq!(out, "g_languageX = y\ng_language = aa_AA\n");
}

#[test]
fn upsert_twice_equals_upsert_once() {
    let cases = ["", "foo=1", "foo=1\n", "foo=1\ng_language = en_EN\nbar=2", "g_language=x"];
    for t in cases {
        let once = upsert_language_line(t, "de_DE");
        let twice = upsert_language_line(&once, "de_DE");
        assert_eq!(twice, once);
    }
}

#[test]
fn remove_after_upsert_drops_directive() {
    let up = upsert_language_line("foo=1\nbar=2", "de_DE");
    let removed = remove_language_lines(&up);
    assert_eq!(removed, "foo=1\nbar=2\n");
}

#[test]
fn remove_twice_is_noop() {
    let cases = [
        "foo=1\ng_language = en_EN\nbar=2",
        "g_language = x\nfoo",
        "a\r\ng_language = x\r\nb",
        "plain text\nwithout directive",
    ];
    for t in cases {
        let once = remove_language_lines(t);
        let twice = remove_language_lines(&once);
        assert_eq!(twice, once);
    }
}

#[test]
fn remove_takes_preceding_newline() {
    let removed = remove_language_lines("foo=1\ng_language = en_EN\nbar=2");
    assert_eq!(removed, "foo=1\nbar=2");
}

#[test]
fn remove_on_first_line_leaves_leading_newline() {
    let removed = remove_language_lines("g_language = x\nfoo");
    assert_eq!(removed, "\nfoo");
}

#[test]
fn remove_takes_preceding_carriage_return() {
    let removed = remove_language_lines("a\r\ng_language = x\r\nb");
    assert_eq!(removed, "a\nb");
}

#[test]
fn remove_consecutive_directives() {
    let removed = remove_language_lines("a\ng_language=1\ng_language=2\nb");
    assert_eq!(removed, "a\nb");
}

#[test]
fn remove_without_directive_changes_nothing() {
    let removed = remove_language_lines("foo=1\nbar=2\n");
    assert_eq!(removed, "foo=1\nbar=2\n");
}

#[test]
fn directive_line_recognition() {
    assert!(is_language_line("g_language = en_EN"));
    assert!(is_language_line("g_language=x"));
    assert!(is_language_line("g_language   ="));
    assert!(!is_language_line("g_language"));
    assert!(!is_language_line(" g_language = x"));
    assert!(!is_language_line("g_languageX = y"));
    assert!(!is_language_line("other = 1"));
}
