use eve_core::loyalty::{summarize, try_summarize, LoyaltyEntry};

fn e(id: i64, member: &str, points: i64) -> LoyaltyEntry {
    LoyaltyEntry { id, member: member.into(), points, reason: String::new(), category: String::new(), created_at: 0 }
}

#[test]
fn balances_net_earn_and_redeem_case_insensitively() {
    let entries = vec![
        e(1, "Pilot A", 100),
        e(2, "pilot a", 50),
        e(3, "Pilot A", -30),
        e(4, "Pilot B", 200),
        e(5, "  ", 999),
    ];
    let board = summarize(&entries);
    assert_eq!(board.len(), 2);
    assert_eq!(board[0].member, "Pilot B");
    let a = board.iter().find(|m| m.member == "Pilot A").unwrap();
    assert_eq!(a.earned, 150);
    assert_eq!(a.redeemed, 30);
    assert_eq!(a.balance, 120);
    assert_eq!(a.entry_count, 3);
}

#[test]
fn empty_ledger_is_empty() {
    assert!(summarize(&[]).is_empty());
}

#[test]
fn equal_balances_rank_by_name_and_names_are_trimmed() {
    let entries = vec![e(1, "  zed ", 10), e(2, "Amy", 10), e(3, "bob", 5), e(4, "BOB", -5)];
    let board = summarize(&entries);
    let names: Vec<&str> = board.iter().map(|m| m.member.as_str()).collect();
    assert_eq!(names, vec!["Amy", "zed", "bob"]);
    assert_eq!(board[2].balance, 0);
    assert_eq!(board[2].earned, 5);
    assert_eq!(board[2].redeemed, 5);
    assert_eq!(board[2].entry_count, 2);
}

#[test]
fn negative_balance_ranks_last() {
    let board = summarize(&[e(1, "x", -7), e(2, "y", 0)]);
    assert_eq!(board[0].member, "y");
    assert_eq!(board[1].balance, -7);
}

#[test]
fn try_summarize_refuses_an_overflowing_member_only() {
    let fits = vec![e(1, "Pilot A", i64::MAX), e(2, "Pilot B", i64::MAX), e(3, "  ", i64::MAX), e(4, "", i64::MAX)];
    let board = try_summarize(&fits).unwrap();
    assert_eq!(board.len(), 2);
    assert_eq!(board[0].member, "Pilot A");
    assert_eq!(board[0].earned, i64::MAX);
    let over = vec![e(1, "Pilot A", i64::MAX), e(2, "pilot a", 1)];
    assert!(try_summarize(&over).is_none());
    let min = vec![e(1, "Pilot A", i64::MIN)];
    assert!(try_summarize(&min).is_none());
    let redeem = vec![e(1, "Pilot A", -5), e(2, "Pilot A", 7)];
    assert_eq!(try_summarize(&redeem).unwrap(), summarize(&redeem));
}
