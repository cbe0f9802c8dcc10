use nabla_game::game::move_log::{decimal, describe_slot, move_log_entry, record_move, SlotChange};

#[test]
fn test_decimal_has_no_leading_zeros() {
    assert_eq!(decimal(0), "0");
    assert_eq!(decimal(7), "7");
    assert_eq!(decimal(10), "10");
    assert_eq!(decimal(4096), "4096");
    assert_eq!(decimal(u64::MAX), u64::MAX.to_string());
}

#[test]
fn test_cleared_slot_reads_empty() {
    assert_eq!(describe_slot(&None), "empty");
    assert_eq!(describe_slot(&Some("x^2".to_string())), "x^2");
}

#[test]
fn test_move_log_entry_lists_cards_and_changed_slots() {
    let entry = move_log_entry(
        2,
        &vec!["Mult".to_string(), "0".to_string()],
        &vec![
            SlotChange { slot: 0, before: "x".to_string(), after: "empty".to_string() },
            SlotChange { slot: 4, before: "cos(x)".to_string(), after: "sin(x)".to_string() },
        ],
    );
    assert_eq!(entry, "P2: Mult + 0 on slot 1: x \u{2192} empty, slot 5: cos(x) \u{2192} sin(x)");
    let entry = move_log_entry(
        1,
        &vec!["X".to_string()],
        &vec![SlotChange { slot: 3, before: "empty".to_string(), after: "x".to_string() }],
    );
    assert_eq!(entry, "P1: X on slot 4: empty \u{2192} x");
}

#[test]
fn test_nothing_is_logged_while_the_setting_is_off() {
    let changes = vec![SlotChange { slot: 2, before: "x".to_string(), after: "1".to_string() }];
    let names = vec!["Derivative".to_string()];
    assert_eq!(record_move(false, 1, &names, &changes), None);
    assert_eq!(
        record_move(true, 1, &names, &changes),
        Some("P1: Derivative on slot 3: x \u{2192} 1".to_string())
    );
}
