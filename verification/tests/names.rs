use yei::add::{
    component_file_name, mod_line, needs_mod_entry, parse_name, parse_version, rewrite_imports,
    version_suffix,
};
use yei::config::Config;

#[test]
fn parse_name_plain() {
    assert_eq!(parse_name("button"), "button");
}

#[test]
fn parse_name_pinned() {
    assert_eq!(parse_name("button@0.1.0"), "button");
}

#[test]
fn parse_name_first_at() {
    assert_eq!(parse_name("a@b@c"), "a");
    assert_eq!(parse_name("@1.0"), "");
    assert_eq!(parse_name(""), "");
}

#[test]
fn parse_name_idempotent() {
    let once = parse_name("badge@2.0.0");
    assert_eq!(parse_name(&once), once);
}

fn config_with(output_path: &str, mod_path: &str) -> Config {
    let mut c = Config::default();
    c.output_path = output_path.to_string();
    c.mod_path = mod_path.to_string();
    c
}

#[test]
fn default_config() {
    let c = Config::default();
    assert_eq!(c.registry, "https://yei-api.aodihis.com");
    assert_eq!(c.version, "latest");
    assert_eq!(c.output_path, "src/components");
    assert_eq!(c.mod_path, "");
    assert_eq!(c.effective_module_path(), "crate::components");
}

#[test]
fn module_path_from_output_path() {
    assert_eq!(config_with("src/foo/bar", "").effective_module_path(), "crate::foo::bar");
}

#[test]
fn module_path_from_windows_path() {
    assert_eq!(config_with("src\\ui\\kit", "").effective_module_path(), "crate::ui::kit");
}

#[test]
fn module_path_repeated_prefix() {
    assert_eq!(config_with("src/src/x", "").effective_module_path(), "crate::x");
    assert_eq!(config_with("src/src\\x", "").effective_module_path(), "crate::x");
}

#[test]
fn module_path_without_src() {
    assert_eq!(config_with("components", "").effective_module_path(), "crate::components");
    assert_eq!(config_with("", "").effective_module_path(), "crate::");
}

#[test]
fn module_path_explicit_wins() {
    assert_eq!(config_with("src/foo", "crate::ui").effective_module_path(), "crate::ui");
}

#[test]
fn derived_module_path_has_no_separators() {
    let p = config_with("src/a/b\\c/d", "").effective_module_path();
    assert!(p.starts_with("crate::"));
    assert!(!p.contains('/') && !p.contains('\\'));
    assert_eq!(p, "crate::a::b::c::d");
}

#[test]
fn chosen_version_prefers_request() {
    let c = Config::default();
    assert_eq!(c.chosen_version(Some("0.1.0".to_string())), "0.1.0");
    assert_eq!(c.chosen_version(None), "latest");
}

#[test]
fn for_output_path_config() {
    let c = Config::for_output_path("src/ui".to_string());
    assert_eq!(c.registry, "https://yei-api.aodihis.com");
    assert_eq!(c.version, "latest");
    assert_eq!(c.output_path, "src/ui");
    assert_eq!(c.mod_path, "");
}

#[test]
fn rewrite_registry_path_is_identity() {
    let src = "use crate::components::icons::Icon;\n".to_string();
    assert_eq!(rewrite_imports(src.clone(), "crate::components"), src);
}

#[test]
fn rewrite_to_other_path() {
    let src = "use crate::components::icons::Icon;\nuse yew::prelude::*;\nuse crate::components::button::Button;\n".to_string();
    assert_eq!(
        rewrite_imports(src, "crate::ui"),
        "use crate::ui::icons::Icon;\nuse yew::prelude::*;\nuse crate::ui::button::Button;\n"
    );
}

#[test]
fn rewrite_leaves_other_text() {
    let src = "use yew::prelude::*;\n// crate::components is not an import\n".to_string();
    assert_eq!(rewrite_imports(src.clone(), "crate::ui"), src);
}

#[test]
fn rewrite_from_derived_path() {
    let path = config_with("src/widgets", "").effective_module_path();
    let out = rewrite_imports("use crate::components::badge::Badge;".to_string(), &path);
    assert_eq!(out, "use crate::widgets::badge::Badge;");
}

#[test]
fn version_suffix_latest_and_pinned() {
    assert_eq!(version_suffix("latest"), "");
    assert_eq!(version_suffix("0.1.0"), "@0.1.0");
}

#[test]
fn file_and_mod_entries() {
    assert_eq!(component_file_name("button"), "button.rs");
    assert_eq!(mod_line("button"), "pub mod button;\n");
    assert!(needs_mod_entry("pub mod icons;\n", "button"));
    assert!(!needs_mod_entry("pub mod icons;\npub mod button;\n", "button"));
}

#[test]
fn mod_entry_added_once() {
    let existing = "pub mod icons;\n".to_string();
    assert!(needs_mod_entry(&existing, "badge"));
    let updated = existing + &mod_line("badge");
    assert!(!needs_mod_entry(&updated, "badge"));
}

#[test]
fn parse_version_pinned_and_plain() {
    assert_eq!(parse_version("button@0.1.0"), Some("0.1.0".to_string()));
    assert_eq!(parse_version("button"), None);
    assert_eq!(parse_version("a@b@c"), Some("b@c".to_string()));
    assert_eq!(parse_version("button@"), Some(String::new()));
}
