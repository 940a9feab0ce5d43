use exchange::{EngineError, IncrementalMessage, MatchingEngine, Order, RecoveryBook, Side};

fn ok(r: Result<Order, EngineError>) -> Order {
    match r {
        Ok(o) => o,
        Err(e) => panic!("request refused: {:?}", e),
    }
}

fn nums(msgs: &[IncrementalMessage]) -> Vec<i64> {
    msgs.iter().map(|m| m.get_num()).collect()
}

#[test]
fn test_no_match() {
    // buy 1 at 1, sell 1 at 2 --> no match
    let mut match_eng = MatchingEngine::new();
    let buy_order = Order::new(1, 1, Side::Buy);
    let sell_order = Order::new(1, 2, Side::Sell);
    ok(match_eng.insert(&buy_order));
    ok(match_eng.insert(&sell_order));
    let msgs = match_eng.take_messages();
    assert_eq!(msgs.len(), 2);
    let first = msgs[0].get_orders();
    assert_eq!(msgs[0].get_num(), 1);
    assert_eq!(first[0].get_qty(), 1);
    assert_eq!(first[0].get_price(), 1);
    let id_1 = first[0].get_id();
    let second = msgs[1].get_orders();
    assert_eq!(msgs[1].get_num(), 2);
    assert_eq!(second[0].get_qty(), 1);
    assert_eq!(second[0].get_price(), 2);
    assert_eq!(match_eng.find_order_by_id(id_1).unwrap().get_qty(), 1);
}

#[test]
fn test_match() {
    // buy 1 at 1, sell 1 at 1 --> match
    let mut match_eng = MatchingEngine::new();
    let buy_order = Order::new(1, 1, Side::Buy);
    let sell_order = Order::new(1, 1, Side::Sell);
    ok(match_eng.insert(&buy_order));
    ok(match_eng.insert(&sell_order));
    let msgs = match_eng.take_messages();
    assert_eq!(nums(&msgs), vec![1, 2]);
    let first = msgs[0].get_orders();
    assert_eq!(first[0].get_qty(), 1);
    assert_eq!(first[0].get_price(), 1);
    let id_1 = first[0].get_id();
    assert_eq!(msgs[1].get_orders().len(), 0);
    assert!(match_eng.find_order_by_id(id_1).is_none());
}

#[test]
fn test_no_match_match() {
    // buy 1 at 1, buy 1 at 2, sell 1 at 3 --> no match
    // sell 1 at 2 --> match buy at 2
    let mut match_eng = MatchingEngine::new();
    ok(match_eng.insert(&Order::new(1, 1, Side::Buy)));
    ok(match_eng.insert(&Order::new(1, 2, Side::Buy)));
    ok(match_eng.insert(&Order::new(1, 3, Side::Sell)));
    let msgs = match_eng.take_messages();
    assert_eq!(nums(&msgs), vec![1, 2, 3]);
    let m1 = msgs[0].get_orders();
    let m2 = msgs[1].get_orders();
    let m3 = msgs[2].get_orders();
    assert_eq!(m1[0].get_qty(), 1);
    assert_eq!(m1[0].get_price(), 1);
    assert_eq!(m2[0].get_qty(), 1);
    assert_eq!(m2[0].get_price(), 2);
    assert_eq!(m3[0].get_qty(), 1);
    assert_eq!(m3[0].get_price(), 3);
    let id_1 = m1[0].get_id();
    let id_2 = m2[0].get_id();
    assert_eq!(match_eng.find_order_by_id(id_1).unwrap().get_qty(), 1);
    assert_eq!(match_eng.find_order_by_id(id_2).unwrap().get_qty(), 1);

    ok(match_eng.insert(&Order::new(1, 2, Side::Sell)));
    let msgs = match_eng.take_messages();
    assert_eq!(nums(&msgs), vec![4]);
    assert_eq!(msgs[0].get_orders().len(), 0);
    // buy order at 1 not affected
    assert_eq!(match_eng.find_order_by_id(id_1).unwrap().get_qty(), 1);
    // buy at 2 no longer exists
    assert!(match_eng.find_order_by_id(id_2).is_none());
}

#[test]
fn test_match_2() {
    // buy 1 at 1, buy 1 at 2, sell 1 at 1 --> match buy at 2
    let mut match_eng = MatchingEngine::new();
    ok(match_eng.insert(&Order::new(1, 1, Side::Buy)));
    ok(match_eng.insert(&Order::new(1, 2, Side::Buy)));
    ok(match_eng.insert(&Order::new(1, 1, Side::Sell)));
    let msgs = match_eng.take_messages();
    assert_eq!(nums(&msgs), vec![1, 2, 3]);
    let mut ids = Vec::new();
    let m1 = msgs[0].get_orders();
    ids.push(m1[0].get_id());
    assert_eq!(m1[0].get_qty(), 1);
    assert_eq!(m1[0].get_price(), 1);
    let m2 = msgs[1].get_orders();
    ids.push(m2[0].get_id());
    assert_eq!(m2[0].get_qty(), 1);
    assert_eq!(m2[0].get_price(), 2);
    // the incoming sell matched the buy at 2
    assert_eq!(msgs[2].get_orders().len(), 0);
    assert_eq!(match_eng.find_order_by_id(ids[0]).unwrap().get_qty(), 1);
    assert!(match_eng.find_order_by_id(ids[1]).is_none());
}

#[test]
fn test_match_3() {
    // buy 1 at 1, buy 1 at 1, buy 1 at 3, buy 1 at 3, sell 2 at 3 --> match 2 buys at 3
    let mut match_eng = MatchingEngine::new();
    for price in [1, 1, 3, 3] {
        ok(match_eng.insert(&Order::new(1, price, Side::Buy)));
    }
    let sell = ok(match_eng.insert(&Order::new(2, 3, Side::Sell)));
    assert_eq!(sell.get_qty(), 0);
    let msgs = match_eng.take_messages();
    assert_eq!(nums(&msgs), vec![1, 2, 3, 4, 5, 6]);
    let mut ids = Vec::new();
    for (n, price) in [(0, 1), (1, 1), (2, 3), (3, 3)] {
        let affected = msgs[n].get_orders();
        ids.push(affected[0].get_id());
        assert_eq!(affected[0].get_qty(), 1);
        assert_eq!(affected[0].get_price(), price);
    }
    // 1 more buy at 3 remaining to be matched
    assert_eq!(msgs[4].get_orders().len(), 1);
    assert_eq!(msgs[5].get_orders().len(), 0);
    // buys at 1 not affected
    assert_eq!(match_eng.find_order_by_id(ids[0]).unwrap().get_qty(), 1);
    assert_eq!(match_eng.find_order_by_id(ids[1]).unwrap().get_qty(), 1);
    // buys at 3 matched
    assert!(match_eng.find_order_by_id(ids[2]).is_none());
    assert!(match_eng.find_order_by_id(ids[3]).is_none());
}

#[test]
fn test_match_4() {
    // buy 1 at 1, buy 1 at 1, buy 1 at 3, buy 1 at 3, sell 4 at 1 --> match all
    let mut match_eng = MatchingEngine::new();
    for price in [1, 1, 3, 3] {
        ok(match_eng.insert(&Order::new(1, price, Side::Buy)));
    }
    ok(match_eng.insert(&Order::new(4, 1, Side::Sell)));
    let msgs = match_eng.take_messages();
    assert_eq!(nums(&msgs), vec![1, 2, 3, 4, 5, 6, 7, 8]);
    let mut ids = Vec::new();
    for (n, price) in [(0, 1), (1, 1), (2, 3), (3, 3)] {
        let affected = msgs[n].get_orders();
        ids.push(affected[0].get_id());
        assert_eq!(affected[0].get_qty(), 1);
        assert_eq!(affected[0].get_price(), price);
    }
    // 1 more buy at 3 to be matched
    assert_eq!(msgs[4].get_orders().len(), 1);
    assert_eq!(msgs[4].get_orders()[0].get_price(), 3);
    // all buys at 3 matched
    assert_eq!(msgs[5].get_orders().len(), 0);
    // 1 more buy at 1 to be matched
    assert_eq!(msgs[6].get_orders().len(), 1);
    assert_eq!(msgs[6].get_orders()[0].get_price(), 1);
    // match completed
    assert_eq!(msgs[7].get_orders().len(), 0);
    for id in ids {
        assert!(match_eng.find_order_by_id(id).is_none());
    }
}

#[test]
fn test_empty() {
    // buy 1 at 1, delete buy 1 at 1 --> market empty
    let mut match_eng = MatchingEngine::new();
    let id = ok(match_eng.insert(&Order::new(1, 1, Side::Buy))).get_id();
    let removed = match_eng.delete(id);
    assert_eq!(removed.unwrap().get_id(), id);
    let msgs = match_eng.take_messages();
    assert_eq!(nums(&msgs), vec![1, 2]);
    let first = msgs[0].get_orders();
    let id_1 = first[0].get_id();
    assert_eq!(first[0].get_qty(), 1);
    assert_eq!(first[0].get_price(), 1);
    assert_eq!(msgs[1].get_orders().len(), 0);
    assert!(match_eng.find_order_by_id(id_1).is_none());
    assert!(match_eng.book_levels(Side::Buy).is_empty());
    assert!(match_eng.book_levels(Side::Sell).is_empty());
}

#[test]
fn test_match_empty() {
    // buy 2 at 1, sell 1 at 1 --> match buy at 1; delete buy at 1 --> market empty
    let mut match_eng = MatchingEngine::new();
    let id = ok(match_eng.insert(&Order::new(2, 1, Side::Buy))).get_id();
    ok(match_eng.insert(&Order::new(1, 1, Side::Sell)));
    match_eng.delete(id);
    let msgs = match_eng.take_messages();
    assert_eq!(nums(&msgs), vec![1, 2, 3]);
    let first = msgs[0].get_orders();
    let id_1 = first[0].get_id();
    assert_eq!(first[0].get_qty(), 2);
    assert_eq!(first[0].get_price(), 1);
    // remaining quantity of the buy order is 1 after the match
    assert_eq!(msgs[1].get_orders()[0].get_qty(), 1);
    assert_eq!(msgs[2].get_orders().len(), 0);
    assert!(match_eng.find_order_by_id(id_1).is_none());
}

#[test]
fn update_qty_inc() {
    let mut match_eng = MatchingEngine::new();
    let old_id = ok(match_eng.insert(&Order::new(100, 1000, Side::Sell))).get_id();
    let other_id = ok(match_eng.insert(&Order::new(10, 1000, Side::Sell))).get_id();
    let updated = ok(match_eng.update(old_id, &Order::new(150, 1000, Side::Sell)));
    assert_eq!(updated.get_id(), old_id);
    assert_eq!(match_eng.find_order_by_id(old_id).unwrap().get_qty(), 150);
    let level = &match_eng.book_levels(Side::Sell)[0].1;
    assert_eq!(level[0].get_id(), other_id);
    assert_eq!(level[1].get_id(), old_id);
    ok(match_eng.insert(&Order::new(11, 1000, Side::Buy)));
    assert!(match_eng.find_order_by_id(other_id).is_none());
    assert_eq!(match_eng.find_order_by_id(old_id).unwrap().get_qty(), 149);
}

#[test]
fn update_qty_dec() {
    let mut match_eng = MatchingEngine::new();
    let old_id = ok(match_eng.insert(&Order::new(100, 1000, Side::Sell))).get_id();
    ok(match_eng.insert(&Order::new(10, 1000, Side::Sell)));
    ok(match_eng.update(old_id, &Order::new(95, 1000, Side::Sell)));
    assert_eq!(match_eng.find_order_by_id(old_id).unwrap().get_qty(), 95);
    ok(match_eng.insert(&Order::new(11, 1000, Side::Buy)));
    // the order kept its place, so it traded first
    assert_eq!(match_eng.find_order_by_id(old_id).unwrap().get_qty(), 84);
}

#[test]
fn test_update_price() {
    let mut match_eng = MatchingEngine::new();
    let old_id = ok(match_eng.insert(&Order::new(100, 1000, Side::Sell))).get_id();
    match_eng.take_messages();
    let replaced = ok(match_eng.update(old_id, &Order::new(100, 1200, Side::Buy)));
    // a new id, the side of the old order, the new price
    assert_ne!(replaced.get_id(), old_id);
    assert_eq!(replaced.get_side(), Side::Sell);
    assert!(match_eng.find_order_by_id(old_id).is_none());
    assert_eq!(match_eng.find_order_by_id(replaced.get_id()).unwrap().get_price(), 1200);
    let msgs = match_eng.take_messages();
    assert_eq!(nums(&msgs), vec![2, 3]);
    assert_eq!(msgs[0].get_price(), 1000);
    assert_eq!(msgs[0].get_orders().len(), 0);
    assert_eq!(msgs[1].get_price(), 1200);
}

#[test]
fn insert_then_delete_leaves_book_empty() {
    let mut match_eng = MatchingEngine::new();
    let id = ok(match_eng.insert(&Order::new(5, 7, Side::Sell))).get_id();
    assert!(match_eng.delete(id).is_some());
    assert!(match_eng.find_order_by_id(id).is_none());
    assert!(match_eng.book_levels(Side::Sell).is_empty());
    assert!(match_eng.book_levels(Side::Buy).is_empty());
}

#[test]
fn unknown_ids_are_reported_absent() {
    let mut match_eng = MatchingEngine::new();
    ok(match_eng.insert(&Order::new(5, 7, Side::Sell)));
    match_eng.take_messages();
    assert!(match_eng.delete(42).is_none());
    assert!(match_eng.find_order_by_id(42).is_none());
    assert_eq!(
        match_eng.update(42, &Order::new(1, 7, Side::Sell)).err(),
        Some(EngineError::NotFound)
    );
    assert!(match_eng.take_messages().is_empty());
}

#[test]
fn invalid_arguments_are_refused() {
    let mut match_eng = MatchingEngine::new();
    assert_eq!(match_eng.insert(&Order::new(0, 7, Side::Sell)).err(), Some(EngineError::InvalidArgument));
    assert_eq!(match_eng.insert(&Order::new(3, 0, Side::Buy)).err(), Some(EngineError::InvalidArgument));
    assert_eq!(match_eng.insert(&Order::new(-2, 5, Side::Buy)).err(), Some(EngineError::InvalidArgument));
    let id = ok(match_eng.insert(&Order::new(3, 5, Side::Buy))).get_id();
    assert_eq!(match_eng.update(id, &Order::new(0, 5, Side::Buy)).err(), Some(EngineError::InvalidArgument));
    assert_eq!(match_eng.update(id, &Order::new(3, -1, Side::Buy)).err(), Some(EngineError::InvalidArgument));
    assert_eq!(match_eng.take_messages().len(), 1);
    assert_eq!(match_eng.find_order_by_id(id).unwrap().get_qty(), 3);
}

#[test]
fn ids_are_fresh_and_sequential() {
    let mut match_eng = MatchingEngine::new();
    let a = ok(match_eng.insert(&Order::new(1, 1, Side::Buy))).get_id();
    let b = ok(match_eng.insert(&Order::new(1, 1, Side::Sell))).get_id();
    let c = ok(match_eng.insert(&Order::new(1, 1, Side::Buy))).get_id();
    assert_eq!((a, b, c), (0, 1, 2));
}

#[test]
fn better_price_trades_first_whatever_the_arrival() {
    let mut match_eng = MatchingEngine::new();
    let low = ok(match_eng.insert(&Order::new(1, 10, Side::Buy))).get_id();
    let high = ok(match_eng.insert(&Order::new(1, 12, Side::Buy))).get_id();
    let mid = ok(match_eng.insert(&Order::new(1, 11, Side::Buy))).get_id();
    let bids: Vec<i64> = match_eng.book_levels(Side::Buy).iter().map(|l| l.0).collect();
    assert_eq!(bids, vec![12, 11, 10]);
    ok(match_eng.insert(&Order::new(1, 9, Side::Sell)));
    assert!(match_eng.find_order_by_id(high).is_none());
    assert!(match_eng.find_order_by_id(mid).is_some());
    assert!(match_eng.find_order_by_id(low).is_some());

    let a = ok(match_eng.insert(&Order::new(1, 30, Side::Sell))).get_id();
    let b = ok(match_eng.insert(&Order::new(1, 20, Side::Sell))).get_id();
    let asks: Vec<i64> = match_eng.book_levels(Side::Sell).iter().map(|l| l.0).collect();
    assert_eq!(asks, vec![20, 30]);
    ok(match_eng.insert(&Order::new(1, 40, Side::Buy)));
    assert!(match_eng.find_order_by_id(b).is_none());
    assert!(match_eng.find_order_by_id(a).is_some());
}

#[test]
fn equal_prices_trade_in_arrival_order() {
    let mut match_eng = MatchingEngine::new();
    let first = ok(match_eng.insert(&Order::new(2, 5, Side::Sell))).get_id();
    let second = ok(match_eng.insert(&Order::new(2, 5, Side::Sell))).get_id();
    ok(match_eng.insert(&Order::new(3, 5, Side::Buy)));
    assert!(match_eng.find_order_by_id(first).is_none());
    assert_eq!(match_eng.find_order_by_id(second).unwrap().get_qty(), 1);
}

#[test]
fn traded_volume_matches_what_the_book_lost() {
    let mut match_eng = MatchingEngine::new();
    ok(match_eng.insert(&Order::new(3, 10, Side::Sell)));
    ok(match_eng.insert(&Order::new(4, 11, Side::Sell)));
    ok(match_eng.insert(&Order::new(5, 12, Side::Sell)));
    let before: i64 = match_eng.book_levels(Side::Sell).iter().flat_map(|l| l.1.iter().map(|o| o.get_qty())).sum();
    let incoming = ok(match_eng.insert(&Order::new(9, 11, Side::Buy)));
    // 3 at 10 and 4 at 11 trade; 2 are left and rest at 11
    assert_eq!(incoming.get_qty(), 2);
    let after: i64 = match_eng.book_levels(Side::Sell).iter().flat_map(|l| l.1.iter().map(|o| o.get_qty())).sum();
    assert_eq!(before - after, 9 - 2);
    let bids = match_eng.book_levels(Side::Buy);
    assert_eq!(bids.len(), 1);
    assert_eq!(bids[0].0, 11);
    assert_eq!(bids[0].1[0].get_qty(), 2);
}

#[test]
fn partial_fill_leaves_the_front_order_in_place() {
    let mut match_eng = MatchingEngine::new();
    let big = ok(match_eng.insert(&Order::new(10, 5, Side::Buy))).get_id();
    let small = ok(match_eng.insert(&Order::new(1, 5, Side::Buy))).get_id();
    ok(match_eng.insert(&Order::new(4, 5, Side::Sell)));
    let level = &match_eng.book_levels(Side::Buy)[0].1;
    assert_eq!(level[0].get_id(), big);
    assert_eq!(level[0].get_qty(), 6);
    assert_eq!(level[1].get_id(), small);
}

#[test]
fn sequence_numbers_have_no_gap() {
    let mut match_eng = MatchingEngine::new();
    ok(match_eng.insert(&Order::new(1, 3, Side::Buy)));
    ok(match_eng.insert(&Order::new(1, 4, Side::Sell)));
    let id = ok(match_eng.insert(&Order::new(2, 2, Side::Buy))).get_id();
    ok(match_eng.update(id, &Order::new(1, 2, Side::Buy)));
    ok(match_eng.insert(&Order::new(5, 1, Side::Sell)));
    match_eng.delete(id);
    let msgs = match_eng.take_messages();
    let expected: Vec<i64> = (1..=msgs.len() as i64).collect();
    assert_eq!(nums(&msgs), expected);
}

#[test]
fn replaying_the_feed_rebuilds_the_book() {
    let mut match_eng = MatchingEngine::new();
    ok(match_eng.insert(&Order::new(1, 10, Side::Buy)));
    ok(match_eng.insert(&Order::new(2, 10, Side::Buy)));
    ok(match_eng.insert(&Order::new(3, 12, Side::Sell)));
    let id = ok(match_eng.insert(&Order::new(4, 9, Side::Buy))).get_id();
    ok(match_eng.insert(&Order::new(2, 10, Side::Sell)));
    ok(match_eng.update(id, &Order::new(4, 11, Side::Buy)));
    ok(match_eng.insert(&Order::new(1, 13, Side::Sell)));
    let msgs = match_eng.take_messages();
    let replica = RecoveryBook::from_messages(&msgs);
    assert_eq!(replica.last_applied(), msgs.len() as i64);
    let feed = replica.snapshot();
    assert_eq!(feed.get_last_msg(), msgs.len() as i64);
    let mut expected: Vec<Vec<(i64, i64, i64)>> = Vec::new();
    let mut bids = match_eng.book_levels(Side::Buy);
    bids.reverse();
    for (_, orders) in bids.iter().chain(match_eng.book_levels(Side::Sell).iter()) {
        expected.push(orders.iter().map(|o| (o.get_id(), o.get_qty(), o.get_price())).collect());
    }
    let got: Vec<Vec<(i64, i64, i64)>> = feed
        .get_state()
        .iter()
        .map(|l| l.iter().map(|o| (o.get_id(), o.get_qty(), o.get_price())).collect())
        .collect();
    assert_eq!(got, expected);
    assert_eq!(got.len(), 4);
}

#[test]
fn replica_drops_a_cleared_level_and_replaces_a_changed_one() {
    let mut replica = RecoveryBook::new();
    let buy = Order::with_fields(7, 3, 100, Side::Buy, String::from("t"));
    replica.apply(&IncrementalMessage::new(100, 1, vec![buy.clone()]));
    let sell = Order::with_fields(8, 2, 105, Side::Sell, String::from("t"));
    replica.apply(&IncrementalMessage::new(105, 2, vec![sell]));
    let smaller = Order::with_fields(7, 1, 100, Side::Buy, String::from("t"));
    replica.apply(&IncrementalMessage::new(100, 3, vec![smaller]));
    let feed = replica.snapshot();
    assert_eq!(feed.get_last_msg(), 3);
    let state = feed.get_state();
    assert_eq!(state.len(), 2);
    assert_eq!(state[0][0].get_qty(), 1);
    assert_eq!(state[1][0].get_price(), 105);
    replica.apply(&IncrementalMessage::new(105, 4, Vec::new()));
    let state = replica.snapshot().get_state();
    assert_eq!(state.len(), 1);
    assert_eq!(replica.last_applied(), 4);
}

#[test]
fn new_orders_have_no_id_and_a_millisecond_stamp() {
    let o = Order::new(5, 9, Side::Sell);
    assert_eq!(o.get_id(), -1);
    assert_eq!(o.get_qty(), 5);
    assert_eq!(o.get_price(), 9);
    assert_eq!(o.get_side(), Side::Sell);
    let stamp = o.get_transact_time();
    assert_eq!(stamp.chars().count(), 21);
    assert_eq!(&stamp[8..9], "-");
    assert_eq!(&stamp[17..18], ".");
}

#[test]
fn cut_stamp_keeps_milliseconds() {
    assert_eq!(exchange::order::cut_stamp("20240131-23:59:58.123456789"), "20240131-23:59:58.123");
    assert_eq!(exchange::order::cut_stamp("short"), "short");
}

#[test]
fn order_setters_change_one_field() {
    let mut o = Order::new(5, 9, Side::Sell);
    o.set_id(4);
    o.set_qty(6);
    o.set_price(10);
    o.set_side(Side::Buy);
    o.set_transact_time(&String::from("x"));
    assert_eq!((o.get_id(), o.get_qty(), o.get_price(), o.get_side()), (4, 6, 10, Side::Buy));
    assert_eq!(o.get_transact_time(), "x");
}

#[test]
fn recovery_feed_keeps_its_fields() {
    let o = Order::with_fields(1, 2, 3, Side::Buy, String::from("s"));
    let feed = exchange::RecoveryFeed::new(9, vec![vec![o]]);
    assert_eq!(feed.get_last_msg(), 9);
    assert_eq!(feed.get_state()[0][0].get_id(), 1);
}
