use eve_core::plugin::{panel_args_json, validate, PluginManifest, PluginPanel};
use serde_json::Value;

const MANIFEST: &str = r#"{
    "id": "wallet-watch",
    "name": "Wallet Watcher",
    "version": "1.0.0",
    "author": "Capsuleer",
    "panels": [
        { "title": "My net worth", "command": "get_account_overview", "args": {} },
        { "title": "System risk", "command": "get_system_risk", "args": { "system": "Jita" } }
    ]
}"#;

fn text(v: &Value, key: &str) -> String {
    v.get(key).and_then(Value::as_str).unwrap_or("").to_string()
}

/// Reads a manifest out of its JSON text, field by field.
fn manifest_from_json(json: &str) -> PluginManifest {
    let v: Value = serde_json::from_str(json).unwrap();
    let panels = v
        .get("panels")
        .and_then(Value::as_array)
        .map(|ps| {
            ps.iter()
                .map(|p| PluginPanel {
                    title: text(p, "title"),
                    command: text(p, "command"),
                    args: p.get("args").filter(|a| a.is_object()).map(|a| a.to_string()),
                })
                .collect()
        })
        .unwrap_or_default();
    PluginManifest {
        id: text(&v, "id"),
        name: text(&v, "name"),
        version: text(&v, "version"),
        description: text(&v, "description"),
        author: text(&v, "author"),
        panels,
    }
}

#[test]
fn parses_and_validates_against_allowlist() {
    let m = manifest_from_json(MANIFEST);
    assert_eq!(m.id, "wallet-watch");
    assert_eq!(m.panels.len(), 2);
    let allow = ["get_account_overview", "get_system_risk"];
    assert!(validate(&m, &allow).is_empty());
    assert_eq!(panel_args_json(&m.panels[0]), "{}");
    assert!(panel_args_json(&m.panels[1]).contains("Jita"));
}

#[test]
fn rejects_command_outside_registry() {
    let m = manifest_from_json(MANIFEST);
    let errors = validate(&m, &["get_account_overview"]);
    assert_eq!(errors.len(), 1);
    assert!(errors[0].contains("get_system_risk"));
}

#[test]
fn flags_empty_or_malformed_manifest() {
    let m = PluginManifest {
        id: String::new(),
        name: String::new(),
        version: String::new(),
        description: String::new(),
        author: String::new(),
        panels: Vec::new(),
    };
    let errors = validate(&m, &[]);
    assert!(errors.iter().any(|e| e.contains("id")));
    assert!(errors.iter().any(|e| e.contains("name")));
    assert!(errors.iter().any(|e| e.contains("no panels")));
}

#[test]
fn rejected_panel_message_names_index_title_and_command() {
    let m = manifest_from_json(MANIFEST);
    let errors = validate(&m, &[]);
    assert_eq!(
        errors,
        vec![
            "panel 0 (\"My net worth\") uses a command not in the read-only registry: get_account_overview".to_string(),
            "panel 1 (\"System risk\") uses a command not in the read-only registry: get_system_risk".to_string(),
        ]
    );
}

#[test]
fn blank_id_is_whitespace_too() {
    let mut m = manifest_from_json(MANIFEST);
    m.id = "   ".to_string();
    let errors = validate(&m, &["get_account_overview", "get_system_risk"]);
    assert_eq!(errors, vec!["missing plugin id".to_string()]);
}

#[test]
fn non_object_args_become_empty_object() {
    let p = PluginPanel {
        title: "t".to_string(),
        command: "c".to_string(),
        args: None,
    };
    assert_eq!(panel_args_json(&p), "{}");
}

#[test]
fn panel_args_are_always_object_text() {
    let m = manifest_from_json(MANIFEST);
    for p in &m.panels {
        let t = panel_args_json(p);
        assert!(t.starts_with('{') && t.ends_with('}'));
    }
    let p = PluginPanel { title: "t".to_string(), command: "c".to_string(), args: None };
    assert_eq!(panel_args_json(&p), "{}");
    let q = PluginPanel {
        title: "t".to_string(),
        command: "c".to_string(),
        args: Some("{\"system\":\"Amarr\"}".to_string()),
    };
    assert_eq!(panel_args_json(&q), "{\"system\":\"Amarr\"}");
}
