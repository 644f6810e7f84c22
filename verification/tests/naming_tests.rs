use ipa_personalizer::naming::{
    configuration_path, output_file_name, sanitize_device_name, token_char,
};

#[test]
fn sanitize_replaces_spaces_and_strips_the_rest() {
    assert_eq!(sanitize_device_name("Jackson's iPhone (USB)"), "Jacksons_iPhone_USB");
    assert_eq!(sanitize_device_name("Jackson\u{2019}s iPad (Network)"), "Jacksons_iPad_Network");
    assert_eq!(sanitize_device_name("iPhone 14 Pro"), "iPhone_14_Pro");
}

#[test]
fn sanitize_leaves_nothing_that_a_path_could_use() {
    assert_eq!(sanitize_device_name("../../etc/passwd"), "etcpasswd");
    assert_eq!(sanitize_device_name("a/b\\c:d*e?f\"g<h>i|j"), "abcdefghij");
    assert_eq!(sanitize_device_name("tab\there\nnew"), "tabherenew");
    assert_eq!(sanitize_device_name("caf\u{e9} \u{4e2d}\u{6587}"), "caf\u{e9}_\u{4e2d}\u{6587}");
    assert_eq!(sanitize_device_name("Zo\u{eb}"), "Zo\u{eb}");
    assert_eq!(sanitize_device_name("\u{4e2d}\u{6587}/\u{1F600}"), "\u{4e2d}\u{6587}");
    assert_eq!(sanitize_device_name("a\u{7f}b\u{80}c\u{2014}d\u{a0}e"), "abcde");
    assert_eq!(sanitize_device_name("\u{661}\u{662}"), "\u{661}\u{662}");
    assert_eq!(sanitize_device_name(""), "");
    assert_eq!(sanitize_device_name("()"), "");
}

#[test]
fn sanitize_keeps_underscores() {
    assert_eq!(sanitize_device_name("my_phone"), "my_phone");
    assert_eq!(sanitize_device_name("a _b"), "a__b");
}

#[test]
fn sanitize_is_idempotent() {
    for name in ["Jackson's iPhone (USB)", "a _b", "x/y", "plain", "", "Zo\u{eb}\u{2019}s"] {
        let once = sanitize_device_name(name);
        assert_eq!(sanitize_device_name(&once), once);
    }
}

#[test]
fn token_char_accepts_ascii_letters_and_digits() {
    for c in ['a', 'z', 'A', 'Z', '0', '9', 'm', '\u{e9}', '\u{4e2d}', '\u{661}'] {
        assert!(token_char(c));
    }
    for c in [
        '_', ' ', '-', '/', '.', '\u{2019}', '\0', '@', '[', '`', '{', ':', '\u{7f}', '\u{80}',
        '\u{9f}', '\u{2014}', '\u{1F600}', '\u{10FFFF}',
    ] {
        assert!(!token_char(c));
    }
}

#[test]
fn output_file_name_joins_prefix_and_token() {
    assert_eq!(output_file_name("SideStore", "Jackson's iPhone (USB)"), "SideStore-Jacksons_iPhone_USB.ipa");
    assert_eq!(output_file_name("App", ""), "App-.ipa");
}

#[test]
fn configuration_path_lies_in_the_payload() {
    assert_eq!(configuration_path("SideStore"), "Payload/SideStore.app/Info.plist");
    assert_eq!(configuration_path("App"), "Payload/App.app/Info.plist");
}
