use sayrat::desktop::{parse_desktop_entry, stable_id};
use sayrat::messages::EntryKind;

#[test]
fn stable_id_is_fnv1a_of_the_path_bytes() {
    assert_eq!(stable_id(""), 0xcbf2_9ce4_8422_2325);
    assert_eq!(stable_id("a"), 0xaf63_dc4c_8601_ec8c);
    assert_eq!(stable_id("foobar"), 0x85944171f73967e8);
    assert_eq!(stable_id("/usr/share/applications/one.desktop"), stable_id("/usr/share/applications/one.desktop"));
    assert_ne!(stable_id("/a.desktop"), stable_id("/b.desktop"));
}

#[test]
fn application_entry_fields_are_read() {
    let text = "[Desktop Entry]\nType=Application\nName=One\nComment=First\nExec=one\nIcon=one\n";
    let entry = parse_desktop_entry("/apps/one.desktop", text).unwrap();
    assert_eq!(entry.id, stable_id("/apps/one.desktop"));
    assert_eq!(entry.kind, EntryKind::Application);
    assert_eq!(entry.name, "One");
    assert_eq!(entry.subtitle.as_deref(), Some("First"));
    assert_eq!(entry.command.as_deref(), Some("one"));
    assert_eq!(entry.icon.as_deref(), Some("one"));
}

#[test]
fn generic_name_fills_the_subtitle_only_when_unset() {
    let text = "[Desktop Entry]\nType=Application\nName=Two\nGenericName=Second\nComment=Later\nExec=two\n";
    let entry = parse_desktop_entry("two", text).unwrap();
    assert_eq!(entry.subtitle.as_deref(), Some("Second"));
    assert_eq!(entry.icon, None);
}

#[test]
fn values_are_trimmed_and_keys_are_not() {
    let text = "  [Desktop Entry]  \r\nType = Application\r\nType=Application\r\nName =Ignored\r\nName=  Spaced  Name \t\r\n";
    let entry = parse_desktop_entry("p", text).unwrap();
    assert_eq!(entry.name, "Spaced  Name");
}

#[test]
fn hidden_no_display_and_other_types_are_skipped() {
    let base = "[Desktop Entry]\nType=Application\nName=X\n";
    assert!(parse_desktop_entry("p", &format!("{base}Hidden=TRUE\n")).is_none());
    assert!(parse_desktop_entry("p", &format!("{base}NoDisplay=true\n")).is_none());
    assert!(parse_desktop_entry("p", &format!("{base}Hidden=false\n")).is_some());
    assert!(parse_desktop_entry("p", &format!("{base}Hidden=yes\n")).is_some());
    assert!(parse_desktop_entry("p", "[Desktop Entry]\nType=Link\nName=X\n").is_none());
    assert!(parse_desktop_entry("p", "[Desktop Entry]\nType=Application\n").is_none());
    assert!(parse_desktop_entry("p", "").is_none());
}

#[test]
fn only_the_desktop_entry_group_counts() {
    let text = "# comment\nName=Outside\n[Desktop Entry]\nType=Application\nName=Inside\n[Desktop Action new]\nName=Action\nExec=ignored\n";
    let entry = parse_desktop_entry("p", text).unwrap();
    assert_eq!(entry.name, "Inside");
    assert_eq!(entry.command, None);
}

#[test]
fn later_values_replace_earlier_ones_and_lines_without_equals_are_ignored() {
    let text = "[Desktop Entry]\nType=Application\nName=First\njunk line\nName=Second\nExec=a=b\n";
    let entry = parse_desktop_entry("p", text).unwrap();
    assert_eq!(entry.name, "Second");
    assert_eq!(entry.command.as_deref(), Some("a=b"));
}
