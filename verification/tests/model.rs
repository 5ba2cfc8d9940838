use order_book::decimal::Decimal;
use order_book::json::JsonValue;
use order_book::model::{Level, Level2Update, OrderBook, OrderBookDiff, OrderSide};

fn s(text: &str) -> JsonValue {
    JsonValue::Str(text.to_string())
}

fn arr(items: Vec<JsonValue>) -> JsonValue {
    JsonValue::Array(items)
}

fn obj(fields: Vec<(&str, JsonValue)>) -> JsonValue {
    JsonValue::Object(fields.into_iter().map(|(k, v)| (k.to_string(), v)).collect())
}

fn dec(neg: bool, atto: u128) -> Decimal {
    Decimal { neg, atto }
}

const ATTO: u128 = 1_000_000_000_000_000_000;

#[test]
fn parse_level() {
    let value = arr(vec![s("1"), s("1")]);
    let level = Level::from_value(&value).unwrap();
    assert_eq!(level.size, dec(false, ATTO));
    assert_eq!(level.price, dec(false, ATTO));
}

#[test]
fn parse_order_book() {
    let value = obj(vec![
        ("type", s("snapshot")),
        ("product_id", s("BTC-USD")),
        ("bids", arr(vec![arr(vec![s("10101.10"), s("0.45054140")])])),
        ("asks", arr(vec![arr(vec![s("10102.55"), s("0.57753524")])])),
    ]);
    let order_book = OrderBook::from_value(&value).unwrap();
    assert_eq!(order_book.product_id, "BTC-USD".to_string());
    assert_eq!(
        order_book.bids,
        vec![Level {
            price: dec(false, 10_101_100_000_000_000_000_000),
            size: dec(false, 450_541_400_000_000_000),
        }]
    );
    assert_eq!(
        order_book.asks,
        vec![Level {
            price: dec(false, 10_102_550_000_000_000_000_000),
            size: dec(false, 577_535_240_000_000_000),
        }]
    );
}

#[test]
fn parse_l2update() {
    let value = obj(vec![
        ("type", s("l2update")),
        ("product_id", s("BTC-USD")),
        (
            "changes",
            arr(vec![
                arr(vec![s("buy"), s("22356.270000"), s("0.00000000")]),
                arr(vec![s("sell"), s("22356.300000"), s("1.00000000")]),
            ]),
        ),
        ("time", s("2022-08-04T15:25:05.010758Z")),
    ]);
    let l2update = Level2Update::from_value(&value).unwrap();
    assert_eq!(l2update.product_id, "BTC-USD".to_string());
    assert_eq!(
        l2update.changes,
        vec![
            OrderBookDiff {
                order_side: OrderSide::Buy,
                level: Level {
                    price: dec(false, 22_356_270_000_000_000_000_000),
                    size: dec(false, 0),
                },
            },
            OrderBookDiff {
                order_side: OrderSide::Sell,
                level: Level {
                    price: dec(false, 22_356_300_000_000_000_000_000),
                    size: dec(false, ATTO),
                },
            },
        ]
    );
}

#[test]
fn snapshot_replaces_empty_book() {
    let mut book = OrderBook::new();
    let value = obj(vec![
        ("type", s("snapshot")),
        ("product_id", s("BTC-USD")),
        ("bids", arr(vec![arr(vec![s("10101.10"), s("0.45")])])),
        ("asks", arr(vec![arr(vec![s("10102.55"), s("0.577")])])),
    ]);
    book.apply(&value);
    assert_eq!(book.product_id, "BTC-USD".to_string());
    assert_eq!(
        book.bids,
        vec![Level {
            price: dec(false, 10_101_100_000_000_000_000_000),
            size: dec(false, 450_000_000_000_000_000),
        }]
    );
    assert_eq!(
        book.asks,
        vec![Level {
            price: dec(false, 10_102_550_000_000_000_000_000),
            size: dec(false, 577_000_000_000_000_000),
        }]
    );
}

#[test]
fn update_drops_zero_size_and_feeds_bids_from_sells() {
    let mut book = OrderBook::new();
    let value = obj(vec![
        ("type", s("l2update")),
        ("product_id", s("BTC-USD")),
        (
            "changes",
            arr(vec![
                arr(vec![s("buy"), s("22356.27"), s("0.0")]),
                arr(vec![s("sell"), s("22356.30"), s("1.0")]),
            ]),
        ),
        ("time", s("2022-08-04T15:25:05.010758Z")),
    ]);
    book.apply(&value);
    // The zero-size buy change is dropped; the sell change lands on `bids`
    // under the side mapping applied here.
    assert_eq!(
        book.bids,
        vec![Level {
            price: dec(false, 22_356_300_000_000_000_000_000),
            size: dec(false, ATTO),
        }]
    );
    assert_eq!(book.asks, Vec::<Level>::new());
}

#[test]
fn frame_without_type_is_dropped() {
    let mut book = OrderBook::new();
    let frame = obj(vec![
        ("product_id", s("BTC-USD")),
        ("bids", arr(vec![])),
        ("asks", arr(vec![])),
    ]);
    assert!(OrderBook::from_value(&frame).is_none());
    assert!(Level2Update::from_value(&frame).is_none());
    book.apply(&frame);
    assert_eq!(book, OrderBook::new());
}

#[test]
fn malformed_level_is_dropped_without_hurting_siblings() {
    let value = obj(vec![
        ("type", s("snapshot")),
        ("product_id", s("ETH-USD")),
        (
            "bids",
            arr(vec![
                arr(vec![s("1.0"), s("2.0")]),
                arr(vec![s("oops"), s("2.0")]),
                arr(vec![s("3.0")]),
                arr(vec![JsonValue::Number("4.0".to_string()), s("2.0")]),
                arr(vec![s("5.0"), s("6.0")]),
            ]),
        ),
        ("asks", arr(vec![])),
    ]);
    let book = OrderBook::from_value(&value).unwrap();
    assert_eq!(
        book.bids,
        vec![
            Level { price: dec(false, ATTO), size: dec(false, 2 * ATTO) },
            Level { price: dec(false, 5 * ATTO), size: dec(false, 6 * ATTO) },
        ]
    );
}

#[test]
fn malformed_change_is_dropped_without_hurting_siblings() {
    let value = obj(vec![
        ("type", s("l2update")),
        ("product_id", s("ETH-USD")),
        (
            "changes",
            arr(vec![
                arr(vec![s("hold"), s("1.0"), s("2.0")]),
                arr(vec![s("sell"), s("1.0"), s("2.0")]),
                arr(vec![s("buy"), s("nope"), s("2.0")]),
                arr(vec![s("buy"), s("1.0")]),
            ]),
        ),
        ("time", s("2022-08-04T15:25:05.010758Z")),
    ]);
    let update = Level2Update::from_value(&value).unwrap();
    assert_eq!(
        update.changes,
        vec![OrderBookDiff {
            order_side: OrderSide::Sell,
            level: Level { price: dec(false, ATTO), size: dec(false, 2 * ATTO) },
        }]
    );
}

#[test]
fn update_with_bad_time_is_no_update() {
    let value = obj(vec![
        ("type", s("l2update")),
        ("product_id", s("BTC-USD")),
        ("changes", arr(vec![])),
        ("time", s("not a timestamp")),
    ]);
    assert!(Level2Update::from_value(&value).is_none());
}

#[test]
fn update_time_is_decoded_from_the_token() {
    let value = obj(vec![
        ("type", s("l2update")),
        ("product_id", s("BTC-USD")),
        ("changes", arr(vec![])),
        ("time", s("1970-01-01T00:00:01Z")),
    ]);
    let update = Level2Update::from_value(&value).unwrap();
    assert_eq!(update.time, 1_000_000);
}

#[test]
fn sides_stay_sorted_over_updates() {
    let mut book = OrderBook::new();
    let update = |price: &str, side: &str| {
        obj(vec![
            ("type", s("l2update")),
            ("product_id", s("BTC-USD")),
            (
                "changes",
                arr(vec![arr(vec![s(side), s(price), s("1.0")])]),
            ),
            ("time", s("2022-08-04T15:25:05.010758Z")),
        ])
    };
    book.apply(&update("5.0", "sell"));
    book.apply(&update("1.0", "sell"));
    book.apply(&update("3.0", "buy"));
    book.apply(&update("2.0", "buy"));
    book.apply(&update("4.0", "sell"));
    let bid_prices: Vec<u128> = book.bids.iter().map(|l| l.price.atto).collect();
    let ask_prices: Vec<u128> = book.asks.iter().map(|l| l.price.atto).collect();
    assert_eq!(bid_prices, vec![ATTO, 4 * ATTO, 5 * ATTO]);
    assert_eq!(ask_prices, vec![2 * ATTO, 3 * ATTO]);
}

#[test]
fn zero_size_update_leaves_book_unchanged() {
    let mut book = OrderBook::new();
    let snapshot = obj(vec![
        ("type", s("snapshot")),
        ("product_id", s("BTC-USD")),
        ("bids", arr(vec![arr(vec![s("2.0"), s("1.0")]), arr(vec![s("1.0"), s("1.0")])])),
        ("asks", arr(vec![arr(vec![s("3.0"), s("1.0")])])),
    ]);
    book.apply(&snapshot);
    let bids_before = book.bids.clone();
    let asks_before = book.asks.clone();
    let update = obj(vec![
        ("type", s("l2update")),
        ("product_id", s("BTC-USD")),
        (
            "changes",
            arr(vec![
                arr(vec![s("buy"), s("9.0"), s("0.0")]),
                arr(vec![s("sell"), s("8.0"), s("0.000")]),
            ]),
        ),
        ("time", s("2022-08-04T15:25:05.010758Z")),
    ]);
    book.apply(&update);
    assert_eq!(book.bids, bids_before);
    assert_eq!(book.asks, asks_before);
}

#[test]
fn snapshot_out_of_order_is_sorted_on_apply() {
    let mut book = OrderBook::new();
    let snapshot = obj(vec![
        ("type", s("snapshot")),
        ("product_id", s("BTC-USD")),
        ("bids", arr(vec![arr(vec![s("3.0"), s("1.0")]), arr(vec![s("1.0"), s("1.0")])])),
        ("asks", arr(vec![])),
    ]);
    book.apply(&snapshot);
    let bid_prices: Vec<u128> = book.bids.iter().map(|l| l.price.atto).collect();
    assert_eq!(bid_prices, vec![ATTO, 3 * ATTO]);
}

#[test]
fn side_tokens() {
    assert_eq!(OrderSide::from_token("buy"), Some(OrderSide::Buy));
    assert_eq!(OrderSide::from_token("sell"), Some(OrderSide::Sell));
    assert_eq!(OrderSide::from_token("hold"), None);
    assert_eq!(OrderSide::from_token(""), None);
}

#[test]
fn level_from_non_array_is_none() {
    assert!(Level::from_value(&s("1.0")).is_none());
    assert!(Level::from_value(&JsonValue::Null).is_none());
    assert!(Level::from_value(&arr(vec![s("1.0")])).is_none());
    assert!(Level::from_value(&arr(vec![s("1.0"), s("2.0"), s("3.0")])).is_none());
}

#[test]
fn update_wins_when_a_frame_decodes_as_both() {
    let mut book = OrderBook::new();
    // Carries every update field and every snapshot field: the update
    // interpretation is attempted first, so `product_id` is not replaced and
    // the bids/asks arrays are ignored.
    let frame = obj(vec![
        ("type", s("l2update")),
        ("product_id", s("BTC-USD")),
        (
            "changes",
            arr(vec![arr(vec![s("sell"), s("2.0"), s("1.0")])]),
        ),
        ("time", s("2022-08-04T15:25:05.010758Z")),
        ("bids", arr(vec![arr(vec![s("9.0"), s("9.0")])])),
        ("asks", arr(vec![arr(vec![s("9.0"), s("9.0")])])),
    ]);
    book.apply(&frame);
    assert_eq!(book.product_id, String::new());
    assert_eq!(
        book.bids,
        vec![Level { price: dec(false, 2 * ATTO), size: dec(false, ATTO) }]
    );
    assert_eq!(book.asks, Vec::<Level>::new());
}
