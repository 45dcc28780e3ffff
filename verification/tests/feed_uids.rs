use ticket_select::collection::Collection;
use ticket_select::feed::{hex_uid, TicketFeed};

#[test]
fn hex_uid_pads_to_eight_digits() {
    assert_eq!(hex_uid(0), "00000000");
    assert_eq!(hex_uid(1), "00000001");
    assert_eq!(hex_uid(15), "0000000f");
    assert_eq!(hex_uid(255), "000000ff");
    assert_eq!(hex_uid(0xdeadbeef), "deadbeef");
}

#[test]
fn hex_uid_grows_past_eight_digits() {
    assert_eq!(hex_uid(0x1_0000_0000), "100000000");
    assert_eq!(hex_uid(u64::MAX), "ffffffffffffffff");
}

#[test]
fn feed_mints_increasing_unselected_tickets() {
    let mut feed = TicketFeed::new();
    let t0 = feed.mint();
    let t1 = feed.mint();
    let t2 = feed.mint();
    assert_eq!(t0.uid, "00000000");
    assert_eq!(t1.uid, "00000001");
    assert_eq!(t2.uid, "00000002");
    assert!(!t0.selected && !t1.selected && !t2.selected);
}

#[test]
fn feed_fills_collection_in_order() {
    let mut feed = TicketFeed::new();
    let mut c = Collection::new();
    for _ in 0..3 {
        c.append(feed.mint());
    }
    assert_eq!(c.uid_at(0), Some("00000000".to_string()));
    assert_eq!(c.uid_at(2), Some("00000002".to_string()));
    assert_eq!(c.count_selected(), 0);
}

#[test]
fn feed_can_prepend_newest_first() {
    let mut feed = TicketFeed::new();
    let mut c = Collection::new();
    for _ in 0..3 {
        c.prepend(feed.mint());
    }
    assert_eq!(c.uid_at(0), Some("00000002".to_string()));
    assert_eq!(c.uid_at(2), Some("00000000".to_string()));
}
