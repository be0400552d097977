use yei::css::{add_import, add_tokens, new_entry_contents, IMPORT_LINE, ROOT_MARKER, YEI_ROOT_TOKENS};

#[test]
fn import_already_present() {
    assert_eq!(add_import("@import \"tailwindcss\";\n@import \"./yei.css\";\n"), None);
}

#[test]
fn import_after_tailwind_line() {
    assert_eq!(
        add_import("@import \"tailwindcss\";\nbody { margin: 0; }\n").unwrap(),
        "@import \"tailwindcss\";\n@import \"./yei.css\";\nbody { margin: 0; }\n"
    );
}

#[test]
fn import_after_tailwind_at_end() {
    assert_eq!(
        add_import("@import \"tailwindcss\";").unwrap(),
        "@import \"tailwindcss\";@import \"./yei.css\";\n"
    );
}

#[test]
fn import_appended_without_tailwind() {
    assert_eq!(add_import("body {}\n\n  ").unwrap(), "body {}\n@import \"./yei.css\";\n");
    assert_eq!(add_import("").unwrap(), "\n@import \"./yei.css\";\n");
}

#[test]
fn import_added_once() {
    let once = add_import("h1 {}\n").unwrap();
    assert!(once.contains(IMPORT_LINE));
    assert_eq!(add_import(&once), None);
}

#[test]
fn created_entry_imports_yei() {
    let entry = new_entry_contents();
    assert_eq!(entry, "@import \"tailwindcss\";\n@import \"./yei.css\";\n");
    assert_eq!(add_import(&entry), None);
}

#[test]
fn tokens_appended() {
    let out = add_tokens("@import \"tailwindcss\";\n\n").unwrap();
    assert_eq!(out, format!("@import \"tailwindcss\";\n\n{ROOT_MARKER}\n{YEI_ROOT_TOKENS}"));
    assert_eq!(add_tokens(&out), None);
}

#[test]
fn tokens_trim_unicode_space() {
    let out = add_tokens("a\u{3000}\t").unwrap();
    assert!(out.starts_with("a\n\n/* yei tokens */\n:root {"));
}
