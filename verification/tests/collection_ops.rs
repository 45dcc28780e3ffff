use ticket_select::collection::{ClickOutcome, Collection, TicketItem};

fn item(uid: &str) -> TicketItem {
    TicketItem { uid: uid.to_string(), selected: false }
}

fn ten_tickets() -> Collection {
    let mut c = Collection::new();
    for i in 0..10 {
        c.append(item(&format!("t{}", i)));
    }
    c
}

fn uids(c: &Collection) -> Vec<String> {
    let mut out = Vec::new();
    let mut i = 0;
    while let Some(u) = c.uid_at(i) {
        out.push(u);
        i += 1;
    }
    out
}

#[test]
fn empty_collection_is_inert() {
    let mut c = Collection::new();
    assert_eq!(c.len(), 0);
    assert_eq!(c.count_selected(), 0);
    assert_eq!(c.clear_selection(), 0);
    assert_eq!(c.delete_selected(), 0);
    assert_eq!(c.toggle_or_anchor(0), ClickOutcome::Skipped);
    assert_eq!(c.anchor(), None);
}

#[test]
fn click_sets_anchor_and_selects() {
    let mut c = ten_tickets();
    let out = c.toggle_or_anchor(2);
    assert_eq!(out, ClickOutcome::AnchorSet { index: 2 });
    assert_eq!(c.anchor(), Some(2));
    assert_eq!(c.selected_at(2), Some(true));
    assert_eq!(c.count_selected(), 1);
}

#[test]
fn click_selected_item_deselects_and_clears_anchor() {
    let mut c = ten_tickets();
    c.toggle_or_anchor(2);
    let out = c.toggle_or_anchor(2);
    assert_eq!(out, ClickOutcome::Deselected);
    assert_eq!(c.anchor(), None);
    assert_eq!(c.selected_at(2), Some(false));
    assert_eq!(c.count_selected(), 0);
}

#[test]
fn second_click_selects_inclusive_range() {
    // Ten items, none selected: click 2, then click 6; the whole block
    // [2, 6] is selected and the anchor is gone.
    let mut c = ten_tickets();
    assert_eq!(c.toggle_or_anchor(2), ClickOutcome::AnchorSet { index: 2 });
    let out = c.toggle_or_anchor(6);
    assert_eq!(out, ClickOutcome::RangeSelected { size: 5 });
    assert_eq!(c.anchor(), None);
    assert_eq!(c.count_selected(), 5);
    for i in 0..10 {
        assert_eq!(c.selected_at(i), Some(i >= 2 && i <= 6));
    }
}

#[test]
fn second_click_below_anchor_selects_downward_range() {
    let mut c = ten_tickets();
    assert_eq!(c.toggle_or_anchor(6), ClickOutcome::AnchorSet { index: 6 });
    let out = c.toggle_or_anchor(2);
    assert_eq!(out, ClickOutcome::RangeSelected { size: 5 });
    for i in 0..10 {
        assert_eq!(c.selected_at(i), Some(i >= 2 && i <= 6));
    }
}

#[test]
fn range_select_then_delete_scenario() {
    // [t0..t9], click 2 then 6, count 5, delete 5; survivors keep order.
    let mut c = ten_tickets();
    c.toggle_or_anchor(2);
    c.toggle_or_anchor(6);
    assert_eq!(c.count_selected(), 5);
    let removed = c.delete_selected();
    assert_eq!(removed, 5);
    assert_eq!(c.len(), 5);
    assert_eq!(uids(&c), vec!["t0", "t1", "t7", "t8", "t9"]);
    assert_eq!(c.count_selected(), 0);
}

#[test]
fn range_endpoints_order_irrelevant() {
    let mut fwd = ten_tickets();
    let mut rev = ten_tickets();
    let a = fwd.select_range(2, 5, true);
    let b = rev.select_range(5, 2, true);
    assert_eq!(a, 4);
    assert_eq!(b, 4);
    for i in 0..10 {
        assert_eq!(fwd.selected_at(i), rev.selected_at(i));
    }
}

#[test]
fn single_index_range_selects_one_item() {
    let mut c = ten_tickets();
    let applied = c.select_range(4, 4, true);
    assert_eq!(applied, 1);
    assert_eq!(c.count_selected(), 1);
    assert_eq!(c.selected_at(4), Some(true));
}

#[test]
fn range_clipped_to_bounds() {
    let mut c = ten_tickets();
    let applied = c.select_range(8, 14, true);
    assert_eq!(applied, 2);
    assert_eq!(c.count_selected(), 2);
    assert_eq!(c.selected_at(8), Some(true));
    assert_eq!(c.selected_at(9), Some(true));
}

#[test]
fn range_fully_out_of_bounds_is_skipped() {
    let mut c = ten_tickets();
    let applied = c.select_range(10, 20, true);
    assert_eq!(applied, 0);
    assert_eq!(c.count_selected(), 0);
}

#[test]
fn count_after_range_select_matches_width() {
    // On an all-unselected collection of size >= hi + 1 the count equals
    // hi - lo + 1.
    let mut c = ten_tickets();
    c.select_range(1, 3, true);
    assert_eq!(c.count_selected(), 3);
}

#[test]
fn clear_selection_resets_count_to_zero() {
    let mut c = ten_tickets();
    c.select_range(0, 9, true);
    assert_eq!(c.count_selected(), 10);
    let cleared = c.clear_selection();
    assert_eq!(cleared, 10);
    assert_eq!(c.count_selected(), 0);
}

#[test]
fn clear_selection_twice_reports_zero_second_time() {
    let mut c = ten_tickets();
    c.select_range(3, 7, true);
    assert_eq!(c.clear_selection(), 5);
    assert_eq!(c.clear_selection(), 0);
    assert_eq!(c.count_selected(), 0);
}

#[test]
fn delete_preserves_order_of_survivors() {
    // An interleaved selection: every other item goes; the rest keep
    // their relative order.
    let mut c = ten_tickets();
    for i in [1, 3, 5, 7, 9] {
        c.select_range(i, i, true);
    }
    let removed = c.delete_selected();
    assert_eq!(removed, 5);
    assert_eq!(uids(&c), vec!["t0", "t2", "t4", "t6", "t8"]);
}

#[test]
fn delete_with_nothing_selected_removes_nothing() {
    let mut c = ten_tickets();
    assert_eq!(c.delete_selected(), 0);
    assert_eq!(c.len(), 10);
}

#[test]
fn delete_everything_empties_collection() {
    let mut c = ten_tickets();
    c.select_range(0, 9, true);
    assert_eq!(c.delete_selected(), 10);
    assert_eq!(c.len(), 0);
}

#[test]
fn stale_anchor_skips_after_shrink() {
    // Anchor set at index 3 of four items; the item at 3 then disappears
    // through a bulk delete.  A later range referencing index 3 must skip
    // rather than select whatever shifted into that position.
    let mut c = Collection::new();
    for i in 0..4 {
        c.append(item(&format!("t{}", i)));
    }
    assert_eq!(c.toggle_or_anchor(3), ClickOutcome::AnchorSet { index: 3 });
    assert_eq!(c.delete_selected(), 1);
    assert_eq!(c.len(), 3);
    assert_eq!(c.anchor(), Some(3));
    let applied = c.select_range(3, 3, true);
    assert_eq!(applied, 0);
    assert_eq!(c.count_selected(), 0);
}

#[test]
fn prepend_shifts_existing_items() {
    let mut c = Collection::new();
    c.append(item("t0"));
    c.prepend(item("fresh"));
    assert_eq!(uids(&c), vec!["fresh", "t0"]);
}

#[test]
fn selection_survives_append() {
    let mut c = ten_tickets();
    c.select_range(0, 1, true);
    c.append(item("t10"));
    assert_eq!(c.count_selected(), 2);
    assert_eq!(c.selected_at(10), Some(false));
}

#[test]
fn out_of_bounds_click_leaves_state_alone() {
    let mut c = ten_tickets();
    c.toggle_or_anchor(4);
    assert_eq!(c.toggle_or_anchor(99), ClickOutcome::Skipped);
    assert_eq!(c.anchor(), Some(4));
    assert_eq!(c.count_selected(), 1);
}
