//! The assistant's agents and memory: specialist personas scoped to parts of
//! the tool registry, and the player notes recalled into a conversation.

use vstd::prelude::*;
use crate::text::{append_str, chars_of, str_eq, string_from_chars};

verus! {

/// Most notes recalled into one conversation.
pub const MEMORY_NOTE_LIMIT: usize = 20;

/// Opening of the recalled-memory message.
pub const MEMORY_HEADER: &'static str = "What you remember about this player (use it to personalize advice; do not repeat it back verbatim):\n";

/// Clause appended to every agent's prompt.
pub const GUARDRAILS: &'static str = " Call the provided tools to fetch real numbers — never invent prices, kills, or risk figures; the tools do the math and you explain the result concisely. You cannot take in-game actions; recommend, and let the player act. Prices are in ISK.";

/// One specialist agent: a persona over a subset of the tool registry.
#[derive(Debug, Clone, PartialEq)]
pub struct AgentDef {
    pub id: &'static str,
    pub name: &'static str,
    pub description: &'static str,
    pub persona: &'static str,
    /// Tools this agent may call; empty means all of them.
    pub tools: Vec<&'static str>,
}

/// The line a note `(kind, title, body)` becomes: `- [kind] title: body`.
pub open spec fn note_line(kind: Seq<char>, title: Seq<char>, body: Seq<char>) -> Seq<char> {
    "- ["@ + kind + "] "@ + title + ": "@ + body + "\n"@
}

/// The lines of the notes `ns`, one after another.
pub open spec fn note_lines(ns: Seq<(String, String, String)>) -> Seq<char>
    decreases ns.len(),
{
    if ns.len() == 0 {
        seq![]
    } else {
        note_lines(ns.drop_last()) + note_line(ns.last().0@, ns.last().1@, ns.last().2@)
    }
}

/// The memory message for `notes`: none without notes; else the header and
/// a line for each of the first [`MEMORY_NOTE_LIMIT`] notes.
pub open spec fn memory_spec(notes: Seq<(String, String, String)>) -> Option<Seq<char>> {
    if notes.len() == 0 {
        None
    } else {
        Some(
            MEMORY_HEADER@ + note_lines(
                notes.take(if notes.len() < MEMORY_NOTE_LIMIT {
                    notes.len() as int
                } else {
                    MEMORY_NOTE_LIMIT as int
                }),
            ),
        )
    }
}

/// Formats remembered notes `(kind, title, body)` into a message for the
/// assistant, or `None` when there are none; at most the first 20 notes are
/// included, one line each.
pub fn memory_context(notes: &[(String, String, String)]) -> (r: Option<String>)
    ensures
        match r {
            Some(s) => memory_spec(notes@) == Some(s@),
            None => memory_spec(notes@) is None,
        },
{
    if notes.len() == 0 {
        return None;
    }
    let n = if notes.len() < MEMORY_NOTE_LIMIT {
        notes.len()
    } else {
        MEMORY_NOTE_LIMIT
    };
    let mut out = chars_of(MEMORY_HEADER);
    let mut k: usize = 0;
    while k < n
        invariant
            n <= notes@.len(),
            k <= n,
            out@ == MEMORY_HEADER@ + note_lines(notes@.take(k as int)),
        decreases n - k,
    {
        let (kind, title, body) = &notes[k];
        let ghost before = out@;
        append_str(&mut out, "- [");
        append_str(&mut out, kind.as_str());
        append_str(&mut out, "] ");
        append_str(&mut out, title.as_str());
        append_str(&mut out, ": ");
        append_str(&mut out, body.as_str());
        append_str(&mut out, "\n");
        proof {
            let ns = notes@.take(k + 1);
            assert(ns.drop_last() =~= notes@.take(k as int));
            assert(ns.last() == notes@[k as int]);
            assert(out@ =~= before + note_line(kind@, title@, body@));
        }
        k += 1;
    }
    Some(string_from_chars(out.as_slice()))
}

/// An agent as `(id, name, description, persona, tools)`.
pub open spec fn agent_view(a: AgentDef) -> (Seq<char>, Seq<char>, Seq<char>, Seq<char>, Seq<Seq<char>>) {
    (a.id@, a.name@, a.description@, a.persona@, a.tools@.map_values(|t: &str| t@))
}

/// The agent roster: the Commander with every tool, then the specialists.
pub open spec fn roster() -> Seq<(Seq<char>, Seq<char>, Seq<char>, Seq<char>, Seq<Seq<char>>)> {
    seq![
        ("commander"@, "Commander"@, "General orchestrator — routes across every domain."@,
            "You are the EVE Commander, the player's all-round advisor."@, seq![]),
        ("market"@, "Market Analyst"@, "Prices, arbitrage, what-to-haul."@,
            "You are a sharp EVE market analyst focused on prices, spreads, and hauling."@,
            seq!["search_item"@, "compare_hubs"@, "scan_arbitrage"@]),
        ("intel"@, "Threat Analyst"@, "Is it safe to undock / fly this route?"@,
            "You are a cautious EVE intel analyst; you assess danger and advise on safety."@,
            seq!["system_risk"@]),
        ("fitting"@, "Fitting Coach"@, "Critique and compare ship fits."@,
            "You are an expert EVE fitting coach; you read EHP/DPS/cap and suggest improvements."@,
            seq!["fit_stats"@, "search_item"@]),
        ("wealth"@, "Accounting Analyst"@, "Net worth, wealth trend, income choices."@,
            "You are the player's EVE accountant; you explain wealth, trend, and income options."@,
            seq!["account_overview"@, "portfolio_trend"@, "rank_income"@]),
        ("skills"@, "Skills Mentor"@, "Skill-plan ROI and training priorities."@,
            "You are an EVE skills mentor; you rank training by ISK impact and goals."@,
            seq!["skill_roi"@]),
    ]
}

/// The roster entry for `id`; the Commander when no agent has that id.
pub open spec fn agent_for(id: Seq<char>) -> (Seq<char>, Seq<char>, Seq<char>, Seq<char>, Seq<Seq<char>>) {
    let r = roster();
    if exists|i: int| 0 <= i < r.len() && (#[trigger] r[i]).0 == id {
        r[choose|i: int| 0 <= i < r.len() && (#[trigger] r[i]).0 == id]
    } else {
        r[0]
    }
}

fn def(id: &'static str, name: &'static str, description: &'static str, persona: &'static str, tools: Vec<&'static str>) -> (a: AgentDef)
    ensures
        a.id == id,
        a.name == name,
        a.description == description,
        a.persona == persona,
        a.tools == tools,
{
    AgentDef { id, name, description, persona, tools }
}

/// The agent roster: the Commander, who may use every tool, then the
/// market, intel, fitting, wealth and skills specialists, each scoped to
/// its tools.
pub fn agents() -> (r: Vec<AgentDef>)
    ensures
        r@.map_values(|a: AgentDef| agent_view(a)) == roster(),
{
    let mut v: Vec<AgentDef> = Vec::new();
    v.push(def("commander", "Commander", "General orchestrator — routes across every domain.",
        "You are the EVE Commander, the player's all-round advisor.", Vec::new()));
    v.push(def("market", "Market Analyst", "Prices, arbitrage, what-to-haul.",
        "You are a sharp EVE market analyst focused on prices, spreads, and hauling.",
        vec!["search_item", "compare_hubs", "scan_arbitrage"]));
    v.push(def("intel", "Threat Analyst", "Is it safe to undock / fly this route?",
        "You are a cautious EVE intel analyst; you assess danger and advise on safety.",
        vec!["system_risk"]));
    v.push(def("fitting", "Fitting Coach", "Critique and compare ship fits.",
        "You are an expert EVE fitting coach; you read EHP/DPS/cap and suggest improvements.",
        vec!["fit_stats", "search_item"]));
    v.push(def("wealth", "Accounting Analyst", "Net worth, wealth trend, income choices.",
        "You are the player's EVE accountant; you explain wealth, trend, and income options.",
        vec!["account_overview", "portfolio_trend", "rank_income"]));
    v.push(def("skills", "Skills Mentor", "Skill-plan ROI and training priorities.",
        "You are an EVE skills mentor; you rank training by ISK impact and goals.",
        vec!["skill_roi"]));
    proof {
        let w = v@.map_values(|a: AgentDef| agent_view(a));
        assert(w[0].4 =~= roster()[0].4);
        assert(w[1].4 =~= roster()[1].4);
        assert(w[2].4 =~= roster()[2].4);
        assert(w[3].4 =~= roster()[3].4);
        assert(w[4].4 =~= roster()[4].4);
        assert(w[5].4 =~= roster()[5].4);
        assert(w =~= roster());
    }
    v
}

/// The agent with id `id`, or the Commander when there is none.
fn agent(id: &str) -> (a: AgentDef)
    ensures
        agent_view(a) == agent_for(id@),
{
    let mut all = agents();
    let ghost r = roster();
    assert(all@.map_values(|a: AgentDef| agent_view(a)).len() == all@.len());
    let mut i: usize = 0;
    let mut found: Option<usize> = None;
    while i < all.len()
        invariant_except_break
            found is None,
        invariant
            i <= all@.len(),
            all@.len() == r.len(),
            all@.map_values(|a: AgentDef| agent_view(a)) == r,
            r == roster(),
            forall|j: int| 0 <= j < i ==> (#[trigger] r[j]).0 != id@,
        ensures
            all@.len() == r.len(),
            all@.map_values(|a: AgentDef| agent_view(a)) == r,
            match found {
                Some(k) => k < all@.len() && r[k as int].0 == id@ && forall|j: int| 0 <= j < k ==> (#[trigger] r[j]).0 != id@,
                None => forall|j: int| 0 <= j < r.len() ==> (#[trigger] r[j]).0 != id@,
            },
        decreases all@.len() - i,
    {
        assert(r[i as int] == agent_view(all@[i as int]));
        if str_eq(all[i].id, id) {
            found = Some(i);
            break;
        }
        i += 1;
    }
    match found {
        Some(k) => {
            proof {
                lemma_roster_ids_distinct();
                let c = choose|c: int| 0 <= c < r.len() && (#[trigger] r[c]).0 == id@;
                assert(c == k);
                assert(r[k as int] == agent_view(all@[k as int]));
            }
            all.swap_remove(k)
        },
        None => {
            assert(r[0] == agent_view(all@[0]));
            all.swap_remove(0)
        },
    }
}

proof fn lemma_roster_ids_distinct()
    ensures
        forall|i: int, j: int| 0 <= i < j < roster().len() ==> (#[trigger] roster()[i]).0 != (#[trigger] roster()[j]).0,
{
    reveal_strlit("commander");
    reveal_strlit("market");
    reveal_strlit("intel");
    reveal_strlit("fitting");
    reveal_strlit("wealth");
    reveal_strlit("skills");
    let r = roster();
    assert(r[0].0[0] == 'c' && r[1].0[0] == 'm' && r[2].0[0] == 'i' && r[3].0[0] == 'f' && r[4].0[0] == 'w'
        && r[5].0[0] == 's');
}

/// The system prompt for an agent: its persona followed by the shared
/// guardrails (the Commander's persona for an unknown id).
pub fn system_prompt_for(agent_id: &str) -> (r: String)
    ensures
        r@ == agent_for(agent_id@).3 + GUARDRAILS@,
{
    let a = agent(agent_id);
    let mut v = chars_of(a.persona);
    append_str(&mut v, GUARDRAILS);
    string_from_chars(v.as_slice())
}

/// A tool offered to the assistant: its name, what it does, and the JSON
/// schema of its arguments, as JSON text.
#[derive(Debug, Clone, PartialEq)]
pub struct ToolSpec {
    pub name: String,
    pub description: String,
    pub parameters: String,
}

/// The tools offered to the assistant, as `(name, description, argument
/// schema as JSON text)`, in order. All are read-only.
pub open spec fn tool_catalog() -> Seq<(Seq<char>, Seq<char>, Seq<char>)> {
    seq![
        ("search_item"@, "Resolve an item name to its type_id via the SDE. Use this first when the user names an item, before pricing it."@, "{\"type\":\"object\",\"properties\":{\"query\":{\"type\":\"string\",\"description\":\"Item name or prefix\"}},\"required\":[\"query\"]}"@),
        ("compare_hubs"@, "Best buy/sell price for an item type across the five major trade hubs (Jita, Amarr, Dodixie, Rens, Hek)."@, "{\"type\":\"object\",\"properties\":{\"type_id\":{\"type\":\"integer\"}},\"required\":[\"type_id\"]}"@),
        ("scan_arbitrage"@, "Best cross-hub buy-low/sell-high hauls on a curated set of liquid items, ranked by per-unit profit after sales tax."@, "{\"type\":\"object\",\"properties\":{}}"@),
        ("system_risk"@, "Unified 0-100 threat score for the active character's current system, fusing recent kills, security and a gate-camp signal."@, "{\"type\":\"object\",\"properties\":{}}"@),
        ("fit_stats"@, "Dogma stats for an EFT fit: EHP (with buffer/resist modules), DPS, volley, and capacitor. Use to critique or compare fits."@, "{\"type\":\"object\",\"properties\":{\"eft\":{\"type\":\"string\",\"description\":\"EFT fit text\"}},\"required\":[\"eft\"]}"@),
        ("account_overview"@, "The player's total net worth, wallet, and skill points aggregated across all their characters, with a per-character breakdown."@, "{\"type\":\"object\",\"properties\":{}}"@),
        ("portfolio_trend"@, "Net-worth change over the last N days from persisted local snapshots. Use to answer how the player's wealth is trending."@, "{\"type\":\"object\",\"properties\":{\"days\":{\"type\":\"integer\",\"description\":\"Look-back window in days (default 30)\"}}}"@),
        ("rank_income"@, "Rank income activities by risk-adjusted ISK/hr over the time available. Supply the activities you are comparing with their gross ISK/hr."@, "{\"type\":\"object\",\"properties\":{\"hours\":{\"type\":\"number\",\"description\":\"Hours available\"},\"activities\":{\"type\":\"array\",\"items\":{\"type\":\"object\",\"properties\":{\"name\":{\"type\":\"string\"},\"isk_per_hour\":{\"type\":\"number\"},\"risk\":{\"type\":\"number\",\"description\":\"0.0-1.0 expected loss fraction\"},\"setup_cost\":{\"type\":\"number\"},\"eligible\":{\"type\":\"boolean\"}},\"required\":[\"name\",\"isk_per_hour\"]}}},\"required\":[\"hours\",\"activities\"]}"@),
        ("skill_roi"@, "Rank candidate skill plans by ISK return on training time. Supply each plan's training time and the income it unlocks."@, "{\"type\":\"object\",\"properties\":{\"plans\":{\"type\":\"array\",\"items\":{\"type\":\"object\",\"properties\":{\"label\":{\"type\":\"string\"},\"train_seconds\":{\"type\":\"integer\"},\"isk_per_hour\":{\"type\":\"number\"},\"hours_per_day\":{\"type\":\"number\"},\"upfront_isk\":{\"type\":\"number\"}},\"required\":[\"label\",\"train_seconds\",\"isk_per_hour\",\"hours_per_day\"]}}},\"required\":[\"plans\"]}"@),
    ]
}

/// The name, description and argument schema (JSON text) of tool `k`.
fn tool_entry(k: usize) -> (r: (&'static str, &'static str, &'static str))
    requires
        k < 9,
    ensures
        (r.0@, r.1@, r.2@) == tool_catalog()[k as int],
{
    if k == 0 {
        ("search_item", "Resolve an item name to its type_id via the SDE. Use this first when the user names an item, before pricing it.", "{\"type\":\"object\",\"properties\":{\"query\":{\"type\":\"string\",\"description\":\"Item name or prefix\"}},\"required\":[\"query\"]}")
    } else if k == 1 {
        ("compare_hubs", "Best buy/sell price for an item type across the five major trade hubs (Jita, Amarr, Dodixie, Rens, Hek).", "{\"type\":\"object\",\"properties\":{\"type_id\":{\"type\":\"integer\"}},\"required\":[\"type_id\"]}")
    } else if k == 2 {
        ("scan_arbitrage", "Best cross-hub buy-low/sell-high hauls on a curated set of liquid items, ranked by per-unit profit after sales tax.", "{\"type\":\"object\",\"properties\":{}}")
    } else if k == 3 {
        ("system_risk", "Unified 0-100 threat score for the active character's current system, fusing recent kills, security and a gate-camp signal.", "{\"type\":\"object\",\"properties\":{}}")
    } else if k == 4 {
        ("fit_stats", "Dogma stats for an EFT fit: EHP (with buffer/resist modules), DPS, volley, and capacitor. Use to critique or compare fits.", "{\"type\":\"object\",\"properties\":{\"eft\":{\"type\":\"string\",\"description\":\"EFT fit text\"}},\"required\":[\"eft\"]}")
    } else if k == 5 {
        ("account_overview", "The player's total net worth, wallet, and skill points aggregated across all their characters, with a per-character breakdown.", "{\"type\":\"object\",\"properties\":{}}")
    } else if k == 6 {
        ("portfolio_trend", "Net-worth change over the last N days from persisted local snapshots. Use to answer how the player's wealth is trending.", "{\"type\":\"object\",\"properties\":{\"days\":{\"type\":\"integer\",\"description\":\"Look-back window in days (default 30)\"}}}")
    } else if k == 7 {
        ("rank_income", "Rank income activities by risk-adjusted ISK/hr over the time available. Supply the activities you are comparing with their gross ISK/hr.", "{\"type\":\"object\",\"properties\":{\"hours\":{\"type\":\"number\",\"description\":\"Hours available\"},\"activities\":{\"type\":\"array\",\"items\":{\"type\":\"object\",\"properties\":{\"name\":{\"type\":\"string\"},\"isk_per_hour\":{\"type\":\"number\"},\"risk\":{\"type\":\"number\",\"description\":\"0.0-1.0 expected loss fraction\"},\"setup_cost\":{\"type\":\"number\"},\"eligible\":{\"type\":\"boolean\"}},\"required\":[\"name\",\"isk_per_hour\"]}}},\"required\":[\"hours\",\"activities\"]}")
    } else {
        ("skill_roi", "Rank candidate skill plans by ISK return on training time. Supply each plan's training time and the income it unlocks.", "{\"type\":\"object\",\"properties\":{\"plans\":{\"type\":\"array\",\"items\":{\"type\":\"object\",\"properties\":{\"label\":{\"type\":\"string\"},\"train_seconds\":{\"type\":\"integer\"},\"isk_per_hour\":{\"type\":\"number\"},\"hours_per_day\":{\"type\":\"number\"},\"upfront_isk\":{\"type\":\"number\"}},\"required\":[\"label\",\"train_seconds\",\"isk_per_hour\",\"hours_per_day\"]}}},\"required\":[\"plans\"]}")
    }
}

/// Tool `k` of the catalog.
fn make_tool(k: usize) -> (t: ToolSpec)
    requires
        k < 9,
    ensures
        (t.name@, t.description@, t.parameters@) == tool_catalog()[k as int],
{
    let (name, description, schema) = tool_entry(k);
    ToolSpec { name: name.to_owned(), description: description.to_owned(), parameters: schema.to_owned() }
}

/// Tools as `(name, description, argument schema)`.
pub open spec fn tools_view(v: Seq<ToolSpec>) -> Seq<(Seq<char>, Seq<char>, Seq<char>)> {
    v.map_values(|t: ToolSpec| (t.name@, t.description@, t.parameters@))
}

/// The catalog entries an agent with tool list `tools` is offered: all of
/// them for an empty list, else those named in it, in catalog order.
pub open spec fn catalog_for(tools: Seq<Seq<char>>) -> Seq<(Seq<char>, Seq<char>, Seq<char>)> {
    if tools.len() == 0 {
        tool_catalog()
    } else {
        tool_catalog().filter(|e: (Seq<char>, Seq<char>, Seq<char>)| tools.contains(e.0))
    }
}

/// The tools offered to the assistant (read-only, by design).
pub fn tool_specs() -> (r: Vec<ToolSpec>)
    ensures
        tools_view(r@) == tool_catalog(),
{
    let mut v: Vec<ToolSpec> = Vec::new();
    let mut k: usize = 0;
    while k < 9
        invariant
            k <= 9,
            tools_view(v@) == tool_catalog().take(k as int),
        decreases 9 - k,
    {
        let t = make_tool(k);
        let ghost before = tools_view(v@);
        v.push(t);
        assert(tools_view(v@) =~= before.push(tool_catalog()[k as int]));
        assert(tool_catalog().take(k + 1) =~= tool_catalog().take(k as int).push(tool_catalog()[k as int]));
        k += 1;
    }
    assert(tool_catalog().take(9) =~= tool_catalog());
    v
}

/// Whether `tools` names `name`.
fn names_tool(tools: &Vec<&'static str>, name: &str) -> (r: bool)
    ensures
        r == tools@.map_values(|t: &str| t@).contains(name@),
{
    let ghost tv = tools@.map_values(|t: &str| t@);
    let mut i: usize = 0;
    while i < tools.len()
        invariant
            tv == tools@.map_values(|t: &str| t@),
            i <= tools@.len(),
            forall|j: int| 0 <= j < i ==> tv[j] != name@,
        decreases tools@.len() - i,
    {
        if str_eq(tools[i], name) {
            assert(tv[i as int] == name@);
            return true;
        }
        i += 1;
    }
    false
}

/// The tools an agent may use: all of them for the Commander (or an
/// unknown id), else those on the agent's list, in catalog order.
pub fn tool_specs_for(agent_id: &str) -> (r: Vec<ToolSpec>)
    ensures
        tools_view(r@) == catalog_for(agent_for(agent_id@).4),
{
    let a = agent(agent_id);
    let ghost tools = agent_for(agent_id@).4;
    if a.tools.len() == 0 {
        return tool_specs();
    }
    let ghost pred = |e: (Seq<char>, Seq<char>, Seq<char>)| tools.contains(e.0);
    let mut v: Vec<ToolSpec> = Vec::new();
    let mut k: usize = 0;
    assert(tool_catalog().take(0).filter(pred) =~= seq![]);
    while k < 9
        invariant
            k <= 9,
            tools == a.tools@.map_values(|t: &str| t@),
            pred == (|e: (Seq<char>, Seq<char>, Seq<char>)| tools.contains(e.0)),
            tools_view(v@) == tool_catalog().take(k as int).filter(pred),
        decreases 9 - k,
    {
        let (name, _, _) = tool_entry(k);
        proof {
            assert(tool_catalog().take(k + 1) =~= tool_catalog().take(k as int).push(tool_catalog()[k as int]));
            tool_catalog().take(k as int).lemma_filter_push(tool_catalog()[k as int], pred);
        }
        if names_tool(&a.tools, name) {
            let t = make_tool(k);
            let ghost before = tools_view(v@);
            v.push(t);
            assert(tools_view(v@) =~= before.push(tool_catalog()[k as int]));
        }
        k += 1;
    }
    assert(tool_catalog().take(9) =~= tool_catalog());
    v
}

/// Every tool an agent is scoped to is in the catalog.
pub proof fn lemma_agents_use_known_tools()
    ensures
        forall|i: int, t: Seq<char>|
            0 <= i < roster().len() && #[trigger] roster()[i].4.contains(t) ==> exists|j: int|
                0 <= j < tool_catalog().len() && #[trigger] tool_catalog()[j].0 == t,
{
    let r = roster();
    let c = tool_catalog();
    assert forall|i: int, t: Seq<char>| 0 <= i < r.len() && #[trigger] r[i].4.contains(t) implies exists|j: int|
        0 <= j < c.len() && #[trigger] c[j].0 == t by {
        let k = choose|k: int| 0 <= k < r[i].4.len() && r[i].4[k] == t;
        assert(c[0].0 == "search_item"@);
        assert(c[1].0 == "compare_hubs"@);
        assert(c[2].0 == "scan_arbitrage"@);
        assert(c[3].0 == "system_risk"@);
        assert(c[4].0 == "fit_stats"@);
        assert(c[5].0 == "account_overview"@);
        assert(c[6].0 == "portfolio_trend"@);
        assert(c[7].0 == "rank_income"@);
        assert(c[8].0 == "skill_roi"@);
    }
}

/// The catalog names are pairwise distinct.
proof fn lemma_catalog_names_distinct()
    ensures
        forall|a: int, b: int|
            0 <= a < b < tool_catalog().len() ==> (#[trigger] tool_catalog()[a]).0 != (#[trigger] tool_catalog()[b]).0,
{
    let c = tool_catalog();
    reveal_strlit("search_item");
    reveal_strlit("compare_hubs");
    reveal_strlit("scan_arbitrage");
    reveal_strlit("system_risk");
    reveal_strlit("fit_stats");
    reveal_strlit("account_overview");
    reveal_strlit("portfolio_trend");
    reveal_strlit("rank_income");
    reveal_strlit("skill_roi");
    assert(c[0].0.len() != c[1].0.len());
    assert(c[0].0.len() != c[2].0.len());
    assert(c[0].0[1] != c[3].0[1]);
    assert(c[0].0.len() != c[4].0.len());
    assert(c[0].0.len() != c[5].0.len());
    assert(c[0].0.len() != c[6].0.len());
    assert(c[0].0[0] != c[7].0[0]);
    assert(c[0].0.len() != c[8].0.len());
    assert(c[1].0.len() != c[2].0.len());
    assert(c[1].0.len() != c[3].0.len());
    assert(c[1].0.len() != c[4].0.len());
    assert(c[1].0.len() != c[5].0.len());
    assert(c[1].0.len() != c[6].0.len());
    assert(c[1].0.len() != c[7].0.len());
    assert(c[1].0.len() != c[8].0.len());
    assert(c[2].0.len() != c[3].0.len());
    assert(c[2].0.len() != c[4].0.len());
    assert(c[2].0.len() != c[5].0.len());
    assert(c[2].0.len() != c[6].0.len());
    assert(c[2].0.len() != c[7].0.len());
    assert(c[2].0.len() != c[8].0.len());
    assert(c[3].0.len() != c[4].0.len());
    assert(c[3].0.len() != c[5].0.len());
    assert(c[3].0.len() != c[6].0.len());
    assert(c[3].0[0] != c[7].0[0]);
    assert(c[3].0.len() != c[8].0.len());
    assert(c[4].0.len() != c[5].0.len());
    assert(c[4].0.len() != c[6].0.len());
    assert(c[4].0.len() != c[7].0.len());
    assert(c[4].0[0] != c[8].0[0]);
    assert(c[5].0.len() != c[6].0.len());
    assert(c[5].0.len() != c[7].0.len());
    assert(c[5].0.len() != c[8].0.len());
    assert(c[6].0.len() != c[7].0.len());
    assert(c[6].0.len() != c[8].0.len());
    assert(c[7].0.len() != c[8].0.len());
    assert forall|a: int, b: int| 0 <= a < b < c.len() implies (#[trigger] c[a]).0 != (#[trigger] c[b]).0 by {
        assert(a == 0 || a == 1 || a == 2 || a == 3 || a == 4 || a == 5 || a == 6 || a == 7);
        assert(b == 1 || b == 2 || b == 3 || b == 4 || b == 5 || b == 6 || b == 7 || b == 8);
    }
}

/// A specialist is offered as many tools as its list names, the Commander
/// (who names none) the whole catalog, and an id that names no agent is
/// answered as the Commander is.
pub proof fn lemma_agent_tool_counts()
    ensures
        roster()[0].4.len() == 0,
        forall|i: int|
            0 <= i < roster().len() ==> agent_for((#[trigger] roster()[i]).0) == roster()[i],
        forall|i: int|
            1 <= i < roster().len() ==> catalog_for((#[trigger] roster()[i]).4).len() == roster()[i].4.len(),
        forall|id: Seq<char>|
            (forall|i: int| 0 <= i < roster().len() ==> (#[trigger] roster()[i]).0 != id) ==> catalog_for(
                agent_for(id).4,
            ) == tool_catalog(),
{
    let r = roster();
    let c = tool_catalog();
    lemma_catalog_names_distinct();
    reveal_strlit("commander");
    reveal_strlit("market");
    reveal_strlit("intel");
    reveal_strlit("fitting");
    reveal_strlit("wealth");
    reveal_strlit("skills");
    assert(r[1].0[0] != r[4].0[0]);
    assert(r[1].0[0] != r[5].0[0]);
    assert(r[4].0[0] != r[5].0[0]);
    assert forall|i: int| 0 <= i < r.len() implies agent_for((#[trigger] r[i]).0) == r[i] by {
        assert(exists|j: int| 0 <= j < r.len() && (#[trigger] r[j]).0 == r[i].0);
        let j = choose|j: int| 0 <= j < r.len() && (#[trigger] r[j]).0 == r[i].0;
        assert(j == i);
    }
    reveal_with_fuel(Seq::filter, 10);
    assert(r[1].4[0] == c[0].0 && r[1].4[1] == c[1].0 && r[1].4[2] == c[2].0);
    assert(c.filter(|e: (Seq<char>, Seq<char>, Seq<char>)| r[1].4.contains(e.0)) =~= seq![c[0], c[1], c[2]]);
    assert(r[2].4[0] == c[3].0);
    assert(c.filter(|e: (Seq<char>, Seq<char>, Seq<char>)| r[2].4.contains(e.0)) =~= seq![c[3]]);
    assert(r[3].4[0] == c[4].0 && r[3].4[1] == c[0].0);
    assert(c.filter(|e: (Seq<char>, Seq<char>, Seq<char>)| r[3].4.contains(e.0)) =~= seq![c[0], c[4]]);
    assert(r[4].4[0] == c[5].0 && r[4].4[1] == c[6].0 && r[4].4[2] == c[7].0);
    assert(c.filter(|e: (Seq<char>, Seq<char>, Seq<char>)| r[4].4.contains(e.0)) =~= seq![c[5], c[6], c[7]]);
    assert(r[5].4[0] == c[8].0);
    assert(c.filter(|e: (Seq<char>, Seq<char>, Seq<char>)| r[5].4.contains(e.0)) =~= seq![c[8]]);
    assert forall|i: int| 1 <= i < r.len() implies catalog_for((#[trigger] r[i]).4).len() == r[i].4.len() by {
        assert(i == 1 || i == 2 || i == 3 || i == 4 || i == 5);
    }
}

/// The names of tools.
pub open spec fn tool_names(v: Seq<ToolSpec>) -> Seq<Seq<char>> {
    v.map_values(|t: ToolSpec| t.name@)
}

/// The names of catalog entries.
pub open spec fn entry_names(c: Seq<(Seq<char>, Seq<char>, Seq<char>)>) -> Seq<Seq<char>> {
    c.map_values(|e: (Seq<char>, Seq<char>, Seq<char>)| e.0)
}

/// Filtering entries by name, then taking names, is taking names, then
/// filtering them.
proof fn lemma_names_of_filter(c: Seq<(Seq<char>, Seq<char>, Seq<char>)>, tools: Seq<Seq<char>>)
    ensures
        entry_names(c.filter(|e: (Seq<char>, Seq<char>, Seq<char>)| tools.contains(e.0))) == entry_names(c).filter(
            |n: Seq<char>| tools.contains(n),
        ),
    decreases c.len(),
{
    let p = |e: (Seq<char>, Seq<char>, Seq<char>)| tools.contains(e.0);
    let q = |n: Seq<char>| tools.contains(n);
    if c.len() == 0 {
        c.lemma_filter_len(p);
        entry_names(c).lemma_filter_len(q);
        assert(entry_names(c.filter(p)) =~= entry_names(c).filter(q));
    } else {
        let d = c.drop_last();
        lemma_names_of_filter(d, tools);
        assert(d.push(c.last()) =~= c);
        assert(entry_names(d).push(c.last().0) =~= entry_names(c));
        d.lemma_filter_push(c.last(), p);
        entry_names(d).lemma_filter_push(c.last().0, q);
        if p(c.last()) {
            assert(entry_names(d.filter(p).push(c.last())) =~= entry_names(d.filter(p)).push(c.last().0));
        }
    }
}

/// The tools offered to an agent (`r`, what [`tool_specs_for`] returns for
/// the id `id`): for an agent that names tools, the catalog's tools in
/// catalog order kept to those it names, one per name; for the Commander,
/// who names none, and for an id that names no agent, the whole catalog,
/// as [`tool_specs`] gives it.
pub proof fn lemma_tool_list_of_agent(id: Seq<char>, r: Seq<ToolSpec>)
    requires
        tools_view(r) == catalog_for(agent_for(id).4),
    ensures
        forall|i: int|
            0 <= i < roster().len() && (#[trigger] roster()[i]).0 == id ==> {
                &&& tool_names(r) == if roster()[i].4.len() == 0 {
                    entry_names(tool_catalog())
                } else {
                    entry_names(tool_catalog()).filter(|n: Seq<char>| roster()[i].4.contains(n))
                }
                &&& r.len() == if roster()[i].4.len() == 0 {
                    tool_catalog().len()
                } else {
                    roster()[i].4.len()
                }
            },
        (forall|i: int| 0 <= i < roster().len() ==> (#[trigger] roster()[i]).0 != id) ==> tool_names(r)
            == entry_names(tool_catalog()),
{
    lemma_agent_tool_counts();
    let tools = agent_for(id).4;
    assert(tool_names(r) =~= entry_names(tools_view(r)));
    if tools.len() > 0 {
        lemma_names_of_filter(tool_catalog(), tools);
    }
}

} // verus!
