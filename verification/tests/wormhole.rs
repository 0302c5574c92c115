use eve_core::wormhole::{build_chain, ChainLink};

fn link(from: &str, to: &str, mass: &str, eol: bool) -> ChainLink {
    ChainLink { from: from.into(), to: to.into(), mass_state: mass.into(), eol }
}

#[test]
fn chain_bfs_distances_and_risk_propagation() {
    let links = vec![
        link("Home", "A", "stable", false),
        link("A", "B", "stable", true),
        link("B", "C", "stable", false),
        link("Home", "D", "critical", false),
    ];
    let chain = build_chain("Home", &links);
    let node = |s: &str| chain.iter().find(|n| n.system == s).unwrap().clone();
    assert_eq!(node("Home").hops, 0);
    assert_eq!(node("A").hops, 1);
    assert!(!node("A").via_eol);
    assert_eq!(node("B").hops, 2);
    assert!(node("B").via_eol);
    assert!(node("C").via_eol);
    assert_eq!(node("C").hops, 3);
    assert!(node("D").via_critical);
    assert!(!node("D").via_eol);
    assert_eq!(chain[0].system, "Home");
}

#[test]
fn chain_takes_shortest_path_flags() {
    let links = vec![
        link("Home", "X", "stable", false),
        link("Home", "Y", "stable", true),
        link("Y", "X", "stable", false),
    ];
    let chain = build_chain("Home", &links);
    let x = chain.iter().find(|n| n.system == "X").unwrap();
    assert_eq!(x.hops, 1);
    assert!(!x.via_eol);
}

#[test]
fn empty_chain_is_just_root() {
    let chain = build_chain("Home", &[]);
    assert_eq!(chain.len(), 1);
    assert_eq!(chain[0].system, "Home");
    assert_eq!(chain[0].hops, 0);
}

#[test]
fn equal_length_paths_keep_the_first_by_name() {
    // Two 2-hop routes to Z: via B (eol) and via A (clean). A sorts first, so
    // Z is reached through A and is not flagged.
    let links = vec![
        link("Home", "B", "stable", false),
        link("Home", "A", "stable", false),
        link("B", "Z", "stable", true),
        link("A", "Z", "stable", false),
    ];
    let chain = build_chain("Home", &links);
    let names: Vec<(&str, i64)> = chain.iter().map(|n| (n.system.as_str(), n.hops)).collect();
    assert_eq!(names, vec![("Home", 0), ("A", 1), ("B", 1), ("Z", 2)]);
    assert!(!chain[3].via_eol);
}

#[test]
fn first_of_parallel_links_counts_and_unnamed_ends_are_ignored() {
    let links = vec![
        link("Home", "A", "critical", false),
        link("A", "Home", "stable", true),
        link("", "Q", "stable", false),
        link("Q", "", "stable", false),
    ];
    let chain = build_chain("Home", &links);
    assert_eq!(chain.len(), 2);
    assert!(chain[1].via_critical);
    assert!(!chain[1].via_eol);
}

#[test]
fn unreachable_systems_are_not_listed() {
    let links = vec![link("Home", "A", "stable", false), link("X", "Y", "stable", false)];
    let chain = build_chain("Home", &links);
    let names: Vec<&str> = chain.iter().map(|n| n.system.as_str()).collect();
    assert_eq!(names, vec!["Home", "A"]);
}
