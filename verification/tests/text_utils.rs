use lumen::text_utils::{apply_template, can_sanitize, sanitize_filename, smart_clean_name};

#[test]
fn sanitize_removes_forbidden_characters() {
    assert_eq!(sanitize_filename("a<b>c:d\"e/f\\g|h?i*j"), "abcdefghij");
    assert_eq!(sanitize_filename("line\nbreak\ttab\u{7f}"), "linebreaktab");
}

#[test]
fn sanitize_blank_becomes_download() {
    assert_eq!(sanitize_filename(""), "download");
    assert_eq!(sanitize_filename("   "), "download");
    assert_eq!(sanitize_filename("<>:?*"), "download");
    assert_eq!(sanitize_filename(" \u{3000} "), "download");
}

#[test]
fn sanitize_keeps_normal_titles() {
    assert_eq!(sanitize_filename("Minha Música (Ao Vivo)"), "Minha Música (Ao Vivo)");
}

#[test]
fn sanitize_truncates_to_200_bytes() {
    let long = "x".repeat(250);
    assert_eq!(sanitize_filename(&long), "x".repeat(200));
    let exact = "é".repeat(100);
    assert_eq!(sanitize_filename(&exact), exact);
    let more = "é".repeat(120);
    assert_eq!(sanitize_filename(&more), "é".repeat(100));
}

#[test]
fn sanitize_truncation_to_blank_gives_download() {
    let s = format!("{}abc", " ".repeat(200));
    assert_eq!(sanitize_filename(&s), "download");
}

#[test]
fn can_sanitize_detects_cut_inside_a_character() {
    assert!(can_sanitize("short"));
    assert!(can_sanitize(&"é".repeat(150)));
    let odd = format!("a{}", "é".repeat(150));
    assert!(!can_sanitize(&odd));
    assert!(can_sanitize(&"x".repeat(500)));
}

#[test]
fn sanitize_is_idempotent_on_examples() {
    for s in ["a/b", "  ", "ok name", &"ü".repeat(130)] {
        let once = sanitize_filename(s);
        assert_eq!(sanitize_filename(&once), once);
    }
}

#[test]
fn clean_removes_junk_brackets() {
    assert_eq!(smart_clean_name("Artist - Song (Official Video)"), "Artist - Song");
    assert_eq!(smart_clean_name("Song [HD] {Lyrics}"), "Song");
    assert_eq!(smart_clean_name("Song (Live at Home)"), "Song (Live at Home)");
    assert_eq!(smart_clean_name("Canção (VÍDEO OFICIAL)"), "Canção");
    assert_eq!(smart_clean_name("Track (4K Remastered) x"), "Track x");
}

#[test]
fn clean_removes_topic_and_separators() {
    assert_eq!(smart_clean_name("Band - Topic"), "Band");
    assert_eq!(smart_clean_name("  Name   with    spaces  "), "Name with spaces");
    assert_eq!(smart_clean_name("-- Name |"), "Name");
    assert_eq!(smart_clean_name("__·Name·__"), "Name");
}

#[test]
fn clean_falls_back_to_trimmed_title() {
    assert_eq!(smart_clean_name("  (Official Video)  "), "(Official Video)");
    assert_eq!(smart_clean_name("   "), "");
    assert_eq!(smart_clean_name(" - | - "), "|");
}

#[test]
fn clean_unclosed_bracket_is_kept() {
    assert_eq!(smart_clean_name("Song (official"), "Song (official");
}

#[test]
fn clean_result_is_trimmed() {
    for t in ["  a  ", "x (hd) ", "\tb\n"] {
        let r = smart_clean_name(t);
        assert_eq!(r.trim(), r);
    }
}

#[test]
fn template_fills_placeholders() {
    assert_eq!(apply_template("%(title)s", "T", "C"), "T");
    assert_eq!(apply_template("%(uploader)s - %(title)s", "T", "C"), "C - T");
    assert_eq!(apply_template("%(channel)s/%(title)s [%(channel)s]", "T", "C"), "C/T [C]");
}

#[test]
fn template_blank_gives_title() {
    assert_eq!(apply_template("", "Title", "Ch"), "Title");
    assert_eq!(apply_template("%(uploader)s", "Title", " "), "Title");
}

#[test]
fn template_without_placeholders_is_kept() {
    assert_eq!(apply_template("fixed name", "T", "C"), "fixed name");
}
