use yei::add::{
    begin_install, cargo_dep_line, cargo_dep_lines, finish_install, format_dep_line, init_components,
    record_upgrade, upgrade_plan, InstallStart,
};
use yei::config::Config;
use yei::config::LockFile;
use yei::registry::{is_alias, CargoDep, Client, ComponentMeta, Registry};
use yei::resolve::{resolve_install_order, AddError};

fn meta(name: &str, deps: &[&str]) -> ComponentMeta {
    ComponentMeta {
        name: name.to_string(),
        description: format!("The {name} component"),
        files: vec![format!("{name}.rs")],
        cargo_deps: vec![],
        deps: deps.iter().map(|d| d.to_string()).collect(),
    }
}

fn registry() -> Registry {
    Registry {
        version: "0.1.0".to_string(),
        components: vec![
            meta("icons", &[]),
            meta("button", &["icons"]),
            meta("overlay", &[]),
            meta("dialog", &["button", "overlay"]),
        ],
    }
}

fn strings(v: &[&str]) -> Vec<String> {
    v.iter().map(|s| s.to_string()).collect()
}

fn plan(v: &[(&str, &str)]) -> Vec<(String, String)> {
    v.iter().map(|(n, ver)| (n.to_string(), ver.to_string())).collect()
}

#[test]
fn no_component_is_an_error() {
    assert_eq!(resolve_install_order(&vec![], &registry(), "latest"), Err(AddError::NoComponents));
}

#[test]
fn single_component_without_deps() {
    assert_eq!(
        resolve_install_order(&strings(&["icons"]), &registry(), "latest").unwrap(),
        plan(&[("icons", "latest")])
    );
}

#[test]
fn dependencies_come_first() {
    assert_eq!(
        resolve_install_order(&strings(&["dialog"]), &registry(), "latest").unwrap(),
        plan(&[("icons", "latest"), ("button", "latest"), ("overlay", "latest"), ("dialog", "latest")])
    );
}

#[test]
fn button_after_icons() {
    assert_eq!(
        resolve_install_order(&strings(&["button"]), &registry(), "latest").unwrap(),
        plan(&[("icons", "latest"), ("button", "latest")])
    );
}

#[test]
fn pinned_version_is_kept() {
    assert_eq!(
        resolve_install_order(&strings(&["button@0.1.0"]), &registry(), "latest").unwrap(),
        plan(&[("icons", "latest"), ("button", "0.1.0")])
    );
}

#[test]
fn default_version_for_unpinned() {
    assert_eq!(
        resolve_install_order(&strings(&["button"]), &registry(), "0.2.0").unwrap(),
        plan(&[("icons", "0.2.0"), ("button", "0.2.0")])
    );
}

#[test]
fn each_component_once() {
    assert_eq!(
        resolve_install_order(&strings(&["button", "dialog@0.1.0", "button"]), &registry(), "latest")
            .unwrap(),
        plan(&[("icons", "latest"), ("button", "latest"), ("overlay", "latest"), ("dialog", "0.1.0")])
    );
}

#[test]
fn first_pin_wins() {
    assert_eq!(
        resolve_install_order(&strings(&["icons", "icons@1.0", "icons@2.0"]), &registry(), "latest")
            .unwrap(),
        plan(&[("icons", "1.0")])
    );
}

#[test]
fn unknown_component_is_kept() {
    assert_eq!(
        resolve_install_order(&strings(&["nope@1.0", "icons"]), &registry(), "latest").unwrap(),
        plan(&[("nope", "1.0"), ("icons", "latest")])
    );
}

#[test]
fn cyclic_dependencies_terminate() {
    let reg = Registry {
        version: "x".to_string(),
        components: vec![meta("a", &["b"]), meta("b", &["a", "c"]), meta("c", &["c"])],
    };
    assert_eq!(
        resolve_install_order(&strings(&["a"]), &reg, "latest").unwrap(),
        plan(&[("c", "latest"), ("b", "latest"), ("a", "latest")])
    );
}

#[test]
fn every_dependency_is_installed_before() {
    let reg = registry();
    let order: Vec<String> = resolve_install_order(&strings(&["dialog", "badge"]), &reg, "latest")
        .unwrap()
        .into_iter()
        .map(|(n, _)| n)
        .collect();
    for (k, name) in order.iter().enumerate() {
        if let Some(i) = reg.find_component(name) {
            for d in &reg.components[i].deps {
                assert!(order[..k].contains(d));
            }
        }
    }
}

#[test]
fn find_component_first_match() {
    let mut reg = registry();
    reg.components.push(meta("button", &[]));
    assert_eq!(reg.find_component("button"), Some(1));
    assert_eq!(reg.find_component("missing"), None);
}

#[test]
fn dep_line_without_features() {
    let dep = CargoDep { name: "yew".to_string(), version: "0.21".to_string(), features: vec![] };
    assert_eq!(cargo_dep_line(&dep), "yew = \"0.21\"");
}

#[test]
fn dep_line_with_features() {
    let dep = CargoDep {
        name: "yew".to_string(),
        version: "0.21".to_string(),
        features: vec!["csr".to_string(), "ssr".to_string()],
    };
    assert_eq!(cargo_dep_line(&dep), "yew = { version = \"0.21\", features = [\"csr\", \"ssr\"] }");
}

#[test]
fn dep_lines_for_component() {
    let mut reg = registry();
    reg.components[1].cargo_deps = vec![
        CargoDep { name: "yew".to_string(), version: "0.21".to_string(), features: vec!["csr".to_string()] },
        CargoDep { name: "web-sys".to_string(), version: "0.3".to_string(), features: vec![] },
    ];
    assert_eq!(
        cargo_dep_lines(&reg, "button"),
        strings(&["yew = { version = \"0.21\", features = [\"csr\"] }", "web-sys = \"0.3\""])
    );
    assert!(cargo_dep_lines(&reg, "icons").is_empty());
    assert!(cargo_dep_lines(&reg, "missing").is_empty());
}

#[test]
fn lock_read_after_write() {
    let mut lock = LockFile::new();
    assert!(lock.is_empty());
    assert_eq!(lock.insert("button".to_string(), "latest".to_string()), None);
    assert_eq!(lock.insert("icons".to_string(), "0.1.0".to_string()), None);
    assert!(lock.contains_key("button"));
    assert_eq!(lock.get("icons"), Some("0.1.0".to_string()));
    assert_eq!(lock.insert("icons".to_string(), "latest".to_string()), Some("0.1.0".to_string()));
    assert_eq!(lock.get("icons"), Some("latest".to_string()));
    assert_eq!(lock.get("button"), Some("latest".to_string()));
    assert_eq!(lock.get("badge"), None);
    assert_eq!(lock.len(), 2);
    assert_eq!(lock.names(), strings(&["button", "icons"]));
}

#[test]
fn lock_default_is_empty() {
    let lock = LockFile::default();
    assert_eq!(lock.len(), 0);
    assert!(!lock.contains_key("button"));
}

#[test]
fn client_urls() {
    let c = Client::new("https://example.com//");
    assert_eq!(c.registry_url("latest"), "https://example.com/registry");
    assert_eq!(c.registry_url("0.1.0"), "https://example.com/registry/0.1.0");
    assert_eq!(c.component_url("button", "latest"), "https://example.com/component/button");
    assert_eq!(c.component_url("button", "0.1.0"), "https://example.com/component/button/0.1.0");
    assert_eq!(c.versions_url(), "https://example.com/versions");
    assert_eq!(c.style_url(), "https://example.com/style");
}

#[test]
fn client_without_trailing_slash() {
    let c = Client::new("http://localhost:8080");
    assert_eq!(c.versions_url(), "http://localhost:8080/versions");
}

#[test]
fn latest_is_the_alias() {
    assert!(is_alias("latest"));
    assert!(!is_alias("0.1.0"));
}

#[test]
fn begin_install_skips_locked() {
    let mut lock = LockFile::new();
    lock.insert("icons".to_string(), "latest".to_string());
    let client = Client::new("https://r.example/");
    assert!(matches!(begin_install(&lock, &client, "icons", "latest"), InstallStart::AlreadyInstalled));
    match begin_install(&lock, &client, "button", "0.1.0") {
        InstallStart::Fetch(url) => assert_eq!(url, "https://r.example/component/button/0.1.0"),
        InstallStart::AlreadyInstalled => panic!("button is not installed"),
    }
}

#[test]
fn finish_install_records_and_rewrites() {
    let mut lock = LockFile::new();
    let mut config = Config::default();
    config.output_path = "src/ui".to_string();
    let files = finish_install(
        &mut lock,
        &config,
        "button",
        "0.1.0",
        "use crate::components::icons::Icon;\n".to_string(),
        Some("pub mod icons;\n"),
    );
    assert_eq!(files.file_name, "button.rs");
    assert_eq!(files.source, "use crate::ui::icons::Icon;\n");
    assert_eq!(files.mod_entry, Some("pub mod button;\n".to_string()));
    assert_eq!(lock.get("button"), Some("0.1.0".to_string()));
}

#[test]
fn finish_install_mod_entry_once() {
    let mut lock = LockFile::new();
    let config = Config::default();
    let files = finish_install(&mut lock, &config, "icons", "latest", "x".to_string(), Some("pub mod icons;\n"));
    assert_eq!(files.mod_entry, None);
    assert_eq!(files.source, "x");
    let files = finish_install(&mut lock, &config, "badge", "latest", "y".to_string(), None);
    assert_eq!(files.mod_entry, None);
    assert_eq!(lock.len(), 2);
}

#[test]
fn init_installs_icons() {
    assert_eq!(init_components(), strings(&["icons"]));
}

#[test]
fn empty_pin_is_no_pin() {
    assert_eq!(
        resolve_install_order(&strings(&["button@"]), &registry(), "latest").unwrap(),
        plan(&[("icons", "latest"), ("button", "latest")])
    );
    assert_eq!(
        resolve_install_order(&strings(&["icons@", "icons@0.3.0"]), &registry(), "latest").unwrap(),
        plan(&[("icons", "0.3.0")])
    );
}

#[test]
fn format_dep_line_from_rendering() {
    assert_eq!(format_dep_line("yew", "0.21", false, "ignored"), "yew = \"0.21\"");
    assert_eq!(
        format_dep_line("yew", "0.21", true, "[\"csr\"]"),
        "yew = { version = \"0.21\", features = [\"csr\"] }"
    );
}

#[test]
fn upgrade_everything_to_latest() {
    let mut lock = LockFile::new();
    lock.insert("button".to_string(), "0.1.0".to_string());
    lock.insert("icons".to_string(), "latest".to_string());
    let client = Client::new("https://r.example");
    let items = upgrade_plan(&lock, &client);
    let names: Vec<&str> = items.iter().map(|i| i.name.as_str()).collect();
    assert_eq!(names, vec!["button", "icons"]);
    assert_eq!(items[0].url, "https://r.example/component/button");
    assert_eq!(items[0].file_name, "button.rs");
    for item in &items {
        record_upgrade(&mut lock, &item.name);
    }
    assert_eq!(lock.get("button"), Some("latest".to_string()));
    assert_eq!(lock.get("icons"), Some("latest".to_string()));
    assert_eq!(lock.len(), 2);
}

#[test]
fn add_keeps_lock_and_adds_plan() {
    let reg = registry();
    let mut lock = LockFile::new();
    lock.insert("icons".to_string(), "0.0.9".to_string());
    let client = Client::new("https://r.example");
    let config = Config::default();
    for (name, version) in resolve_install_order(&strings(&["button@0.1.0"]), &reg, "latest").unwrap() {
        if let InstallStart::Fetch(_) = begin_install(&lock, &client, &name, &version) {
            finish_install(&mut lock, &config, &name, &version, String::new(), None);
        }
    }
    assert_eq!(lock.get("icons"), Some("0.0.9".to_string()));
    assert_eq!(lock.get("button"), Some("0.1.0".to_string()));
    assert_eq!(lock.len(), 2);
}
