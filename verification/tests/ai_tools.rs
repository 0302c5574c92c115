use eve_core::ai_tools::{agents, memory_context, system_prompt_for, tool_specs, tool_specs_for, GUARDRAILS};

#[test]
fn memory_context_none_when_empty() {
    assert!(memory_context(&[]).is_none());
}

#[test]
fn memory_context_lists_notes() {
    let notes = vec![
        ("goal".into(), "Carrier".into(), "Train toward a Nyx".into()),
        ("preference".into(), "Lowsec".into(), "Avoids lowsec".into()),
    ];
    let ctx = memory_context(&notes).unwrap();
    assert!(ctx.contains("[goal] Carrier: Train toward a Nyx"));
    assert!(ctx.contains("[preference] Lowsec"));
}

#[test]
fn memory_context_caps_at_twenty_notes() {
    let notes: Vec<(String, String, String)> = (0..25).map(|i| ("k".to_string(), format!("t{i}"), "b".to_string())).collect();
    let ctx = memory_context(&notes).unwrap();
    assert_eq!(ctx.lines().count(), 21);
    assert!(ctx.contains("- [k] t19: b\n"));
    assert!(!ctx.contains("t20"));
}

#[test]
fn roster_has_commander_first_with_all_tools() {
    let roster = agents();
    assert_eq!(roster.len(), 6);
    assert_eq!(roster[0].id, "commander");
    assert!(roster[0].tools.is_empty());
    assert_eq!(roster[1].tools, vec!["search_item", "compare_hubs", "scan_arbitrage"]);
}

#[test]
fn prompts_append_guardrails_and_fall_back_to_commander() {
    let p = system_prompt_for("intel");
    assert!(p.starts_with("You are a cautious EVE intel analyst"));
    assert!(p.ends_with(GUARDRAILS));
    assert_eq!(system_prompt_for("nobody"), system_prompt_for("commander"));
}

#[test]
fn agents_reference_only_real_tools() {
    let names: std::collections::HashSet<String> = tool_specs().into_iter().map(|t| t.name).collect();
    for a in agents() {
        for t in &a.tools {
            assert!(names.contains(*t), "agent '{}' references unknown tool '{}'", a.id, t);
        }
        let n = tool_specs_for(a.id).len();
        if a.tools.is_empty() {
            assert_eq!(n, tool_specs().len());
        } else {
            assert_eq!(n, a.tools.len());
        }
    }
}

#[test]
fn tool_schemas_are_json_objects() {
    for t in tool_specs() {
        let schema: serde_json::Value = serde_json::from_str(&t.parameters).unwrap();
        assert!(schema.is_object(), "{} has no object schema", t.name);
        assert_eq!(schema["type"], "object");
    }
}

#[test]
fn market_analyst_gets_its_tools_in_catalog_order() {
    let names: Vec<String> = tool_specs_for("market").into_iter().map(|t| t.name).collect();
    assert_eq!(names, vec!["search_item", "compare_hubs", "scan_arbitrage"]);
    let unknown = tool_specs_for("nobody");
    assert_eq!(unknown.len(), tool_specs().len());
}

#[test]
fn fit_stats_requires_eft_text() {
    let fit = tool_specs().into_iter().find(|t| t.name == "fit_stats").unwrap();
    let schema: serde_json::Value = serde_json::from_str(&fit.parameters).unwrap();
    assert_eq!(schema["required"][0], "eft");
    assert!(fit.description.starts_with("Dogma stats for an EFT fit"));
}

#[test]
fn specialists_get_one_tool_per_listed_name() {
    for a in agents() {
        let offered = tool_specs_for(a.id);
        if a.tools.is_empty() {
            assert_eq!(offered.len(), 9);
        } else {
            assert_eq!(offered.len(), a.tools.len());
            for t in &offered {
                assert!(a.tools.contains(&t.name.as_str()));
            }
        }
    }
    assert_eq!(tool_specs_for("").len(), 9);
}
