use execution::half_book::{HalfBook, Order};
use execution::{
    BookError, CancelResult, FillResult, OrderBook, OrderId, OrderStatus, Side, NO_PRICE,
};

#[test]
fn test_order_book() {
    let mut book = OrderBook::new();
    book.add(Side::Bid, 100, 10);
    book.add(Side::Ask, 101, 10);
    book.add(Side::Ask, 101, 10);
    book.add(Side::Ask, 102, 10);
    book.add(Side::Bid, 99, 10);
    book.add(Side::Bid, 98, 10);
    book.add(Side::Ask, 103, 10);
    book.add(Side::Ask, 104, 10);
    let id = book.add(Side::Bid, 105, 10);
    assert_eq!(book.cancel(id), CancelResult::Canceled);
    let (bid, ask) = book.update_best_bid_ask();
    assert_eq!(bid, 100);
    assert_eq!(ask, 101);
    assert_eq!(book.get_total_qty(Side::Bid, bid), Ok(10));
    assert_eq!(book.get_total_qty(Side::Ask, ask), Ok(20));
}

#[test]
fn test_best_bid_ask_scenario() {
    let mut book = OrderBook::new();
    book.add(Side::Bid, 100, 10);
    book.add(Side::Ask, 101, 10);
    book.add(Side::Ask, 101, 10);
    book.add(Side::Ask, 102, 10);
    book.add(Side::Bid, 99, 10);
    book.add(Side::Bid, 98, 10);
    assert_eq!(book.update_best_bid_ask(), (100, 101));
    assert_eq!(book.get_total_qty(Side::Ask, 101), Ok(20));
}

#[test]
fn test_empty_book_refresh_returns_sentinels() {
    let mut book = OrderBook::new();
    assert_eq!(book.update_best_bid_ask(), (NO_PRICE, NO_PRICE));
}

#[test]
fn test_cancel_is_idempotent() {
    let mut book = OrderBook::new();
    let id = book.add(Side::Bid, 100, 10);
    assert_eq!(book.cancel(id), CancelResult::Canceled);
    assert_eq!(book.cancel(id), CancelResult::NotFound);
    assert_eq!(book.cancel(OrderId(12345)), CancelResult::NotFound);
}

#[test]
fn test_total_quantity_sums_resting_orders() {
    let mut book = OrderBook::new();
    book.add(Side::Bid, 100, 7);
    let id = book.add(Side::Bid, 100, 5);
    book.add(Side::Bid, 100, 8);
    book.add(Side::Bid, 99, 3);
    assert_eq!(book.get_total_qty(Side::Bid, 100), Ok(20));
    assert_eq!(book.cancel(id), CancelResult::Canceled);
    assert_eq!(book.get_total_qty(Side::Bid, 100), Ok(15));
    assert_eq!(
        book.get_total_qty(Side::Ask, 100),
        Err(BookError::PriceNotFound)
    );
    assert_eq!(
        book.get_total_qty(Side::Bid, 101),
        Err(BookError::PriceNotFound)
    );
}

#[test]
fn test_emptied_level_reports_zero_not_price_not_found() {
    let mut book = OrderBook::new();
    let id = book.add(Side::Ask, 100, 4);
    assert_eq!(book.cancel(id), CancelResult::Canceled);
    assert_eq!(book.get_total_qty(Side::Ask, 100), Ok(0));
}

#[test]
fn test_partial_fill_rests_remainder() {
    let mut book = OrderBook::new();
    book.add(Side::Ask, 100, 5);
    let fr = book.submit(Side::Bid, 100, 8).unwrap();
    assert_eq!(fr.fills, vec![(100, 5)]);
    assert_eq!(fr.status, OrderStatus::PartiallyFilled);
    assert_eq!(fr.remaining, 3);
    assert_eq!(book.get_total_qty(Side::Bid, 100), Ok(3));
    assert_eq!(book.get_total_qty(Side::Ask, 100), Ok(0));
}

#[test]
fn test_submit_zero_quantity_rejected_and_book_untouched() {
    let mut book = OrderBook::new();
    book.add(Side::Bid, 100, 10);
    book.add(Side::Ask, 101, 7);
    let bid_before = book.get_total_qty(Side::Bid, 100);
    let ask_before = book.get_total_qty(Side::Ask, 101);
    assert_eq!(
        book.submit(Side::Bid, 101, 0).unwrap_err(),
        BookError::InvalidQuantity
    );
    assert_eq!(book.get_total_qty(Side::Bid, 100), bid_before);
    assert_eq!(book.get_total_qty(Side::Ask, 101), ask_before);
    assert_eq!(bid_before, Ok(10));
    assert_eq!(ask_before, Ok(7));
}

#[test]
fn test_submit_sentinel_price_rejected() {
    let mut book = OrderBook::new();
    book.add(Side::Ask, 101, 7);
    assert_eq!(
        book.submit(Side::Bid, NO_PRICE, 5).unwrap_err(),
        BookError::InvalidPrice
    );
    assert_eq!(book.get_total_qty(Side::Ask, 101), Ok(7));
}

#[test]
fn test_matching_conservation() {
    let mut book = OrderBook::new();
    book.add(Side::Ask, 100, 4);
    book.add(Side::Ask, 101, 6);
    book.add(Side::Ask, 103, 9);
    let qty = 25;
    let fr = book.submit(Side::Bid, 102, qty).unwrap();
    let filled: u64 = fr.fills.iter().map(|f| f.1).sum();
    assert_eq!(fr.remaining + filled, qty);
    assert_eq!(fr.status, OrderStatus::PartiallyFilled);
    assert_eq!(fr.remaining, 15);
}

#[test]
fn test_time_priority_within_level() {
    let mut book = OrderBook::new();
    let first = book.add(Side::Ask, 100, 5);
    let second = book.add(Side::Ask, 100, 7);
    let fr = book.submit(Side::Bid, 100, 5).unwrap();
    assert_eq!(fr.fills, vec![(100, 5)]);
    assert_eq!(fr.status, OrderStatus::Filled);
    // the older order is gone in full; the younger one is untouched
    assert_eq!(book.cancel(first), CancelResult::NotFound);
    assert_eq!(book.get_total_qty(Side::Ask, 100), Ok(7));
    assert_eq!(book.cancel(second), CancelResult::Canceled);
}

#[test]
fn test_partial_consumption_keeps_front_priority() {
    let mut book = OrderBook::new();
    let first = book.add(Side::Ask, 100, 5);
    book.add(Side::Ask, 100, 7);
    let fr = book.submit(Side::Bid, 100, 3).unwrap();
    assert_eq!(fr.fills, vec![(100, 3)]);
    assert_eq!(fr.status, OrderStatus::Filled);
    // the older order still rests, reduced to 2 ahead of the 7
    assert_eq!(book.get_total_qty(Side::Ask, 100), Ok(9));
    assert_eq!(book.cancel(first), CancelResult::Canceled);
    assert_eq!(book.get_total_qty(Side::Ask, 100), Ok(7));
}

#[test]
fn test_price_priority_across_levels() {
    let mut book = OrderBook::new();
    book.add(Side::Ask, 102, 10);
    book.add(Side::Ask, 101, 10);
    let fr = book.submit(Side::Bid, 102, 15).unwrap();
    assert_eq!(fr.fills, vec![(101, 10), (102, 5)]);
    assert_eq!(fr.status, OrderStatus::Filled);
    assert_eq!(fr.remaining, 0);
    assert_eq!(book.get_total_qty(Side::Ask, 101), Ok(0));
    assert_eq!(book.get_total_qty(Side::Ask, 102), Ok(5));
}

#[test]
fn test_trades_execute_at_resting_price() {
    let mut book = OrderBook::new();
    book.add(Side::Ask, 100, 5);
    let fr = book.submit(Side::Bid, 105, 5).unwrap();
    // the aggressor pays the resting price, not its own limit
    assert_eq!(fr.fills, vec![(100, 5)]);
    assert_eq!(fr.status, OrderStatus::Filled);
}

#[test]
fn test_ask_submission_matches_bids_high_first() {
    let mut book = OrderBook::new();
    book.add(Side::Bid, 98, 4);
    book.add(Side::Bid, 100, 6);
    let fr = book.submit(Side::Ask, 98, 8).unwrap();
    assert_eq!(fr.fills, vec![(100, 6), (98, 2)]);
    assert_eq!(fr.status, OrderStatus::Filled);
    assert_eq!(book.get_total_qty(Side::Bid, 98), Ok(2));
}

#[test]
fn test_created_when_no_cross() {
    let mut book = OrderBook::new();
    book.add(Side::Ask, 101, 10);
    let fr = book.submit(Side::Bid, 99, 4).unwrap();
    assert_eq!(fr.status, OrderStatus::Created);
    assert!(fr.fills.is_empty());
    assert_eq!(fr.remaining, 4);
    assert_eq!(book.get_total_qty(Side::Bid, 99), Ok(4));
    assert_eq!(book.update_best_bid_ask(), (99, 101));
}

#[test]
fn test_submit_refreshes_best_bid_ask() {
    let mut book = OrderBook::new();
    book.add(Side::Ask, 100, 5);
    book.add(Side::Ask, 101, 5);
    let fr = book.submit(Side::Bid, 100, 5).unwrap();
    assert_eq!(fr.status, OrderStatus::Filled);
    // level 100 was emptied; the caches already point past it
    assert_eq!(book.best_ask, 101);
    assert_eq!(book.best_bid, NO_PRICE);
}

#[test]
fn test_avg_price_exact_ratio() {
    let mut book = OrderBook::new();
    book.add(Side::Ask, 100, 5);
    book.add(Side::Ask, 101, 10);
    let fr = book.submit(Side::Bid, 101, 12).unwrap();
    assert_eq!(fr.fills, vec![(100, 5), (101, 7)]);
    // 100*5 + 101*7 = 1207 over 12 units
    assert_eq!(fr.avg_price(), Ok((1207, 12)));
}

#[test]
fn test_avg_price_undefined_on_no_fills() {
    let fr = FillResult::new();
    assert_eq!(fr.avg_price(), Err(BookError::UndefinedAverage));
    let mut book = OrderBook::new();
    let fr = book.submit(Side::Bid, 99, 4).unwrap();
    assert_eq!(fr.status, OrderStatus::Created);
    assert_eq!(fr.avg_price(), Err(BookError::UndefinedAverage));
}

#[test]
fn test_fill_result_new_is_placeholder() {
    let fr = FillResult::new();
    assert_eq!(fr.status, OrderStatus::Uninitialized);
    assert_eq!(fr.remaining, u64::MAX);
    assert!(fr.fills.is_empty());
}

#[test]
fn test_add_with_id_rejects_duplicate() {
    let mut book = OrderBook::new();
    assert!(book.add_with_id(OrderId(7), Side::Bid, 100, 10));
    assert!(!book.add_with_id(OrderId(7), Side::Ask, 101, 5));
    assert_eq!(book.get_total_qty(Side::Bid, 100), Ok(10));
    assert_eq!(book.cancel(OrderId(7)), CancelResult::Canceled);
    assert_eq!(book.cancel(OrderId(7)), CancelResult::NotFound);
}

#[test]
fn test_tombstoned_levels_are_skipped_and_reusable() {
    let mut book = OrderBook::new();
    let a = book.add(Side::Ask, 100, 5);
    book.add(Side::Ask, 101, 6);
    assert_eq!(book.cancel(a), CancelResult::Canceled);
    // the emptied level keeps its slot but best-ask scans past it
    assert_eq!(book.update_best_bid_ask(), (NO_PRICE, 101));
    // the same price can fill up again in its old slot
    book.add(Side::Ask, 100, 9);
    assert_eq!(book.get_total_qty(Side::Ask, 100), Ok(9));
    assert_eq!(book.update_best_bid_ask(), (NO_PRICE, 100));
}

#[test]
fn test_many_open_close_price_cycles() {
    let mut book = OrderBook::new();
    // repeatedly fill and empty levels across a band of prices; tombstoned
    // slots must never corrupt depth queries or the best-price scans
    for round in 0..50u64 {
        let price = 100 + (round % 7);
        let id = book.add(Side::Ask, price, round + 1);
        assert_eq!(book.get_total_qty(Side::Ask, price), Ok(round + 1));
        assert_eq!(book.cancel(id), CancelResult::Canceled);
        assert_eq!(book.get_total_qty(Side::Ask, price), Ok(0));
        assert_eq!(book.update_best_bid_ask(), (NO_PRICE, NO_PRICE));
    }
    let id = book.add(Side::Ask, 103, 9);
    assert_eq!(book.update_best_bid_ask(), (NO_PRICE, 103));
    assert_eq!(book.get_total_qty(Side::Ask, 103), Ok(9));
    assert_eq!(book.cancel(id), CancelResult::Canceled);
    assert_eq!(book.update_best_bid_ask(), (NO_PRICE, NO_PRICE));
}

#[test]
fn test_half_book_insert_and_total() {
    let mut hb = HalfBook::new();
    hb.insert(100, Order { id: OrderId(1), qty: 5 });
    hb.insert(100, Order { id: OrderId(2), qty: 6 });
    hb.insert(99, Order { id: OrderId(3), qty: 1 });
    assert_eq!(hb.get_total_qty(100), 11);
    assert_eq!(hb.get_total_qty(99), 1);
}

#[test]
fn test_side_opposite() {
    assert_eq!(Side::Bid.opposite(), Side::Ask);
    assert_eq!(Side::Ask.opposite(), Side::Bid);
}
