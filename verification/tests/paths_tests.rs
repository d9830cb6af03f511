use disk_flashlight::paths::{normalize, quote_arg, volume_letter};

#[test]
fn quoting() {
    assert_eq!(quote_arg(r"C:\"), r"C:\");
    assert_eq!(quote_arg(r"D:\My Files"), r#""D:\My Files""#);
    assert_eq!(quote_arg(r"D:\My Files\"), r#""D:\My Files\\""#);
}

#[test]
fn quoting_escapes_inner_quotes_and_tabs() {
    assert_eq!(quote_arg("a\"b"), r#""a\"b""#);
    assert_eq!(quote_arg("a\tb"), "\"a\tb\"");
    assert_eq!(quote_arg(""), "");
}

#[test]
fn normalizes_explorer_arguments() {
    assert_eq!(normalize("C:"), r"C:\");
    assert_eq!(normalize(r"C:\"), r"C:\");
    assert_eq!(normalize("C:\""), r"C:\");
    assert_eq!(normalize(r"D:\Projects"), r"D:\Projects");
    assert_eq!(normalize(r#"D:\My Dir\""#), r"D:\My Dir\");
}

#[test]
fn normalize_keeps_other_arguments() {
    assert_eq!(normalize("relative"), "relative");
    assert_eq!(normalize("1:"), "1:");
    assert_eq!(normalize(r#"D:\\\""#), r"D:\");
}

#[test]
fn volume_letters() {
    assert_eq!(volume_letter(r"C:\"), Some('C'));
    assert_eq!(volume_letter("d:"), Some('D'));
    assert_eq!(volume_letter(r"D:\Projects"), None);
    assert_eq!(volume_letter(r"\\server\share"), None);
}
