//! Community dashboard panels, declared as data: a plugin manifest names,
//! for each panel, one tool of the host's read-only registry and its
//! arguments. A manifest with a panel whose tool is not on the allowlist is
//! refused, so a plugin can do nothing the read-only tools cannot.

use vstd::prelude::*;
use crate::text::{trim, chars_of, trim_bounds, str_eq, dec, usize_to_string};

verus! {

/// One panel a plugin contributes: a title plus an allowlisted tool call.
#[derive(Debug, Clone, PartialEq)]
pub struct PluginPanel {
    pub title: String,
    /// A tool name from the host's read-only registry.
    pub command: String,
    /// The arguments passed to the tool, as JSON text, when the manifest
    /// gives them as a JSON object; none otherwise.
    pub args: Option<String>,
}

/// A plugin manifest.
#[derive(Debug, Clone, PartialEq)]
pub struct PluginManifest {
    pub id: String,
    pub name: String,
    pub version: String,
    pub description: String,
    pub author: String,
    pub panels: Vec<PluginPanel>,
}

/// The problem reported for panel `i` whose command is not allowed.
pub open spec fn panel_error(i: nat, title: Seq<char>, command: Seq<char>) -> Seq<char> {
    "panel "@ + dec(i) + " (\""@ + title + "\") uses a command not in the read-only registry: "@ + command
}

/// The problems with panels `panels[..k]`, in order.
pub open spec fn panel_errors(panels: Seq<PluginPanel>, allowed: Seq<Seq<char>>, k: int) -> Seq<Seq<char>>
    decreases k,
{
    if k <= 0 {
        seq![]
    } else {
        let prev = panel_errors(panels, allowed, k - 1);
        let p = panels[k - 1];
        if allowed.contains(p.command@) {
            prev
        } else {
            prev.push(panel_error((k - 1) as nat, p.title@, p.command@))
        }
    }
}

/// The problems [`validate`] reports, in order: a blank id, a blank name,
/// no panels, then each panel whose command is not allowed.
pub open spec fn manifest_errors(m: PluginManifest, allowed: Seq<Seq<char>>) -> Seq<Seq<char>> {
    (if trim(m.id@).len() == 0 {
        seq!["missing plugin id"@]
    } else {
        seq![]
    }) + (if trim(m.name@).len() == 0 {
        seq!["missing plugin name"@]
    } else {
        seq![]
    }) + (if m.panels@.len() == 0 {
        seq!["plugin defines no panels"@]
    } else {
        seq![]
    }) + panel_errors(m.panels@, allowed, m.panels@.len() as int)
}

proof fn lemma_panel_errors_empty(panels: Seq<PluginPanel>, allowed: Seq<Seq<char>>, k: int)
    requires
        0 <= k <= panels.len(),
        panel_errors(panels, allowed, k).len() == 0,
    ensures
        forall|i: int| 0 <= i < k ==> allowed.contains(#[trigger] panels[i].command@),
    decreases k,
{
    if k > 0 {
        let prev = panel_errors(panels, allowed, k - 1);
        if !allowed.contains(panels[k - 1].command@) {
            assert(panel_errors(panels, allowed, k).len() == prev.len() + 1);
        }
        lemma_panel_errors_empty(panels, allowed, k - 1);
    }
}

/// A manifest that passes validation has an id, a name and at least one
/// panel, and every panel calls a tool on the allowlist.
pub proof fn lemma_valid_manifest_uses_allowed_tools(m: PluginManifest, allowed: Seq<Seq<char>>)
    requires
        manifest_errors(m, allowed).len() == 0,
    ensures
        trim(m.id@).len() > 0,
        trim(m.name@).len() > 0,
        m.panels@.len() > 0,
        forall|i: int| 0 <= i < m.panels@.len() ==> allowed.contains(#[trigger] m.panels@[i].command@),
{
    lemma_panel_errors_empty(m.panels@, allowed, m.panels@.len() as int);
}

/// The texts of a list of string slices.
pub open spec fn slice_texts(v: Seq<&str>) -> Seq<Seq<char>> {
    v.map_values(|s: &str| s@)
}

/// The texts of a list of strings.
pub open spec fn string_texts(v: Seq<String>) -> Seq<Seq<char>> {
    v.map_values(|s: String| s@)
}

/// Whether `s` is blank (only whitespace).
fn is_blank(s: &str) -> (r: bool)
    ensures
        r == (trim(s@).len() == 0),
{
    let c = chars_of(s);
    let (a, b) = trim_bounds(&c, 0, c.len());
    assert(c@.subrange(0, c@.len() as int) =~= c@);
    a == b
}

/// Whether `allowed` holds `command`.
fn allowed_has(allowed: &[&str], command: &str) -> (r: bool)
    ensures
        r == slice_texts(allowed@).contains(command@),
{
    let ghost av = slice_texts(allowed@);
    let mut k: usize = 0;
    while k < allowed.len()
        invariant
            av == slice_texts(allowed@),
            k <= allowed@.len(),
            forall|j: int| 0 <= j < k ==> av[j] != command@,
        decreases allowed@.len() - k,
    {
        if str_eq(allowed[k], command) {
            assert(av[k as int] == command@);
            return true;
        }
        k += 1;
    }
    false
}

/// Appends `t` to the list `v`.
fn push_error(v: &mut Vec<String>, t: String)
    ensures
        string_texts(final(v)@) == string_texts(old(v)@).push(t@),
{
    let ghost before = string_texts(v@);
    v.push(t);
    assert(string_texts(v@) =~= before.push(t@));
}

/// Validates a manifest against the host's allowlist of read-only tool
/// names: the problems found, in order (none means the plugin is safe to
/// run). A blank id or name, no panels, and each panel whose command is not
/// in the allowlist are problems.
pub fn validate(manifest: &PluginManifest, allowed_tools: &[&str]) -> (r: Vec<String>)
    ensures
        string_texts(r@) == manifest_errors(*manifest, slice_texts(allowed_tools@)),
{
    let ghost allowed = slice_texts(allowed_tools@);
    let mut errors: Vec<String> = Vec::new();
    assert(string_texts(errors@) =~= seq![]);
    if is_blank(manifest.id.as_str()) {
        push_error(&mut errors, "missing plugin id".to_owned());
    }
    if is_blank(manifest.name.as_str()) {
        push_error(&mut errors, "missing plugin name".to_owned());
    }
    if manifest.panels.len() == 0 {
        push_error(&mut errors, "plugin defines no panels".to_owned());
    }
    let ghost head = string_texts(errors@);
    let mut i: usize = 0;
    assert(head + panel_errors(manifest.panels@, allowed, 0) =~= head);
    while i < manifest.panels.len()
        invariant
            allowed == slice_texts(allowed_tools@),
            i <= manifest.panels@.len(),
            string_texts(errors@) == head + panel_errors(manifest.panels@, allowed, i as int),
        decreases manifest.panels@.len() - i,
    {
        let panel = &manifest.panels[i];
        if !allowed_has(allowed_tools, panel.command.as_str()) {
            let mut e = "panel ".to_owned();
            let n = usize_to_string(i);
            e.append(n.as_str());
            e.append(" (\"");
            e.append(panel.title.as_str());
            e.append("\") uses a command not in the read-only registry: ");
            e.append(panel.command.as_str());
            let ghost before = string_texts(errors@);
            push_error(&mut errors, e);
            assert(before.push(e@) =~= head + panel_errors(manifest.panels@, allowed, i + 1));
        }
        i += 1;
    }
    proof {
        let m = *manifest;
        let id_part: Seq<Seq<char>> = if trim(m.id@).len() == 0 {
            seq!["missing plugin id"@]
        } else {
            seq![]
        };
        let name_part: Seq<Seq<char>> = if trim(m.name@).len() == 0 {
            seq!["missing plugin name"@]
        } else {
            seq![]
        };
        let panels_part: Seq<Seq<char>> = if m.panels@.len() == 0 {
            seq!["plugin defines no panels"@]
        } else {
            seq![]
        };
        assert(head =~= id_part + name_part + panels_part);
    }
    errors
}

/// The arguments of a panel as JSON text for the tool executor: their
/// text when the manifest gave them as a JSON object, `{}` otherwise, so a
/// malformed manifest cannot pass odd input.
pub fn panel_args_json(panel: &PluginPanel) -> (r: String)
    ensures
        r@ == match panel.args {
            Some(t) => t@,
            None => "{}"@,
        },
{
    match &panel.args {
        Some(t) => t.clone(),
        None => "{}".to_owned(),
    }
}

} // verus!
