use centura_capture::slug::slugify;
use centura_capture::transcript::is_auto_name;
use centura_capture::vault::{nonblank_trimmed, transcript_file_name, vault_root_for};
use centura_capture::yaml::yaml_escape;

#[test]
fn slugify_lowercases_and_collapses() {
    assert_eq!(slugify("Weekly Sync: Q3 Plan!"), "weekly-sync-q3-plan");
    assert_eq!(slugify("  Hello   World  "), "hello-world");
    assert_eq!(slugify("ABC_def-123"), "abc-def-123");
}

#[test]
fn slugify_non_ascii_becomes_dash() {
    assert_eq!(slugify("Déjà vu"), "d-j-vu");
}

#[test]
fn slugify_empty_falls_back_to_meeting() {
    assert_eq!(slugify(""), "meeting");
    assert_eq!(slugify("---"), "meeting");
    assert_eq!(slugify("!!! ???"), "meeting");
}

#[test]
fn slugify_is_idempotent_on_examples() {
    for s in ["Weekly Sync: Q3 Plan!", "", "a--b", "-x-", "Meeting 2026-06-30_09-05-39"] {
        let once = slugify(s);
        assert_eq!(slugify(&once), once);
    }
}

#[test]
fn slug_characters_are_safe() {
    let s = slugify("--Ünïcödé / Title \\ with: *stars*--");
    assert!(!s.is_empty());
    assert!(!s.starts_with('-') && !s.ends_with('-'));
    assert!(!s.contains("--"));
    assert!(s.chars().all(|c| c.is_ascii_lowercase() || c.is_ascii_digit() || c == '-'));
}

#[test]
fn yaml_escape_escapes_specials() {
    assert_eq!(yaml_escape("plain"), "plain");
    assert_eq!(yaml_escape("a\"b"), "a\\\"b");
    assert_eq!(yaml_escape("back\\slash"), "back\\\\slash");
    assert_eq!(yaml_escape("line\nbreak\rreturn"), "line\\nbreak\\rreturn");
    assert_eq!(yaml_escape("\\\""), "\\\\\\\"");
}

#[test]
fn yaml_escape_leaves_no_raw_line_breaks() {
    let e = yaml_escape("one\ntwo\r\nthree");
    assert!(!e.contains('\n') && !e.contains('\r'));
    assert_eq!(e, "one\\ntwo\\r\\nthree");
}

#[test]
fn auto_name_detection() {
    assert!(is_auto_name("Meeting 2026-06-30_09-05-39"));
    assert!(is_auto_name("  Meeting 2026-06-30_09-05-39  "));
    assert!(!is_auto_name("Meeting notes"));
    assert!(!is_auto_name("meeting 2026-06-30_09-05-39"));
    assert!(is_auto_name("Meeting 2026-06-3_0"));
    assert!(!is_auto_name("Meeting 2026-6-3_0"));
    assert!(!is_auto_name("Meeting 20260630 0905"));
    assert!(!is_auto_name("Weekly 2026-06-30_09-05-39"));
    assert!(!is_auto_name(""));
}

#[test]
fn nonblank_values() {
    assert_eq!(nonblank_trimmed(None), None);
    assert_eq!(nonblank_trimmed(Some("   ")), None);
    assert_eq!(nonblank_trimmed(Some("\t key \n")), Some("key".to_string()));
}

#[test]
fn vault_root_override_and_default() {
    let default_root = r"C:\Vault\Meetings";
    assert_eq!(vault_root_for(None, default_root), default_root);
    assert_eq!(vault_root_for(Some("  "), default_root), default_root);
    assert_eq!(vault_root_for(Some(" D:\\Vault\\Meetings "), default_root), "D:\\Vault\\Meetings");
}

#[test]
fn collision_file_names() {
    assert_eq!(transcript_file_name("2026.06.30 - sync", 1), "2026.06.30 - sync.md");
    assert_eq!(transcript_file_name("2026.06.30 - sync", 2), "2026.06.30 - sync (2).md");
    assert_eq!(transcript_file_name("2026.06.30 - sync", 10), "2026.06.30 - sync (10).md");
    assert_ne!(transcript_file_name("s", 2), transcript_file_name("s", 3));
}

fn yaml_unescape(s: &str) -> String {
    let mut out = String::new();
    let mut chars = s.chars();
    while let Some(c) = chars.next() {
        if c == '\\' {
            match chars.next() {
                Some('n') => out.push('\n'),
                Some('r') => out.push('\r'),
                Some(other) => out.push(other),
                None => out.push('\\'),
            }
        } else {
            out.push(c);
        }
    }
    out
}

#[test]
fn yaml_escape_reads_back() {
    for s in ["", "plain", "q\"uote", "back\\slash\\", "x\ny\rz", "\\n literal", "\"\\\"\\"] {
        assert_eq!(yaml_unescape(&yaml_escape(s)), s);
    }
}

#[test]
fn auto_name_ignores_surrounding_whitespace() {
    for name in ["Meeting 2026-06-30_09-05-39", "Weekly sync", "", "  Meeting 2026-06-30_09-05-39"] {
        assert_eq!(is_auto_name(&format!(" \t{}\n ", name)), is_auto_name(name));
    }
}
