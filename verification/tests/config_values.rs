//! Configuration values and the filename rule for new notes.

use zk::config::{default_template_name, Config, ConfigError};

#[test]
fn default_config_values() {
    let c = Config::default();
    assert_eq!(c.notes_dir, "notes");
    assert_eq!(c.filename_template, "{timestamp}-{title}");
    assert_eq!(c.default_template, "default");
    assert!(c.active_note.is_none());
    assert_eq!(default_template_name(), "default");
    assert_eq!(c.templates_dir(), "_templates");
}

#[test]
fn set_updates_known_keys_only() {
    let mut c = Config::default();
    c.set("notes_dir", "elsewhere").unwrap();
    assert_eq!(c.notes_dir, "elsewhere");
    c.set("filename_template", "{title}").unwrap();
    assert_eq!(c.filename_template, "{title}");
    match c.set("colour", "blue") {
        Err(ConfigError::Message(_)) => {}
        Ok(()) => panic!("unknown keys must be rejected"),
    }
    assert_eq!(c.notes_dir, "elsewhere");
}

#[test]
fn active_note_round_trip() {
    let mut c = Config::default();
    assert!(c.get_active_note().is_none());
    c.set_active_note("abc123");
    assert_eq!(c.get_active_note().map(|s| s.as_str()), Some("abc123"));
}

#[test]
fn note_filename_fills_placeholders() {
    let c = Config::default();
    let name = c.note_filename("20240102030405", "My Note Title");
    assert_eq!(name, "20240102030405-My-Note-Title.md");
}

#[test]
fn note_filename_with_custom_template() {
    let mut c = Config::default();
    c.set("filename_template", "{title}").unwrap();
    assert_eq!(c.note_filename("x", "a b"), "a-b.md");
}

#[test]
fn note_filename_without_placeholders() {
    let mut c = Config::default();
    c.set("filename_template", "fixed").unwrap();
    assert_eq!(c.note_filename("20240101000000", "anything"), "fixed.md");
}
