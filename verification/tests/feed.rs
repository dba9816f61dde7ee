use market_making::book::Level;
use market_making::decimal::Dec;
use market_making::feed::{parse_feed_message, Books, FeedAction, FeedMessage};
use market_making::json::{parse_decimal, parse_levels, Json};

fn s(text: &str) -> Json {
    Json::Str(text.to_string())
}

fn num(text: &str) -> Json {
    Json::Number(text.to_string())
}

fn arr(items: Vec<Json>) -> Json {
    Json::Array(items)
}

fn obj(members: Vec<(&str, Json)>) -> Json {
    Json::Object(members.into_iter().map(|(k, v)| (k.to_string(), v)).collect())
}

fn entry(price: &str, volume: &str) -> Json {
    arr(vec![s(price), s(volume), s("1534614248.123678")])
}

fn d(m: i128, sc: u32) -> Dec {
    Dec { mantissa: m, scale: sc }
}

fn pairs(levels: &[Level]) -> Vec<(i128, u32, i128, u32)> {
    levels.iter().map(|l| (l.0.mantissa, l.0.scale, l.1.mantissa, l.1.scale)).collect()
}

fn snapshot_message() -> Json {
    arr(vec![
        num("0"),
        obj(vec![
            ("as", arr(vec![entry("5541.30000", "2.50700000"), entry("5542.50000", "0.40100000")])),
            ("bs", arr(vec![entry("5541.20000", "1.52900000"), entry("5539.90000", "0.30000000")])),
        ]),
        s("book-10"),
        s("XBT/USD"),
    ])
}

#[test]
fn reads_decimals_from_strings_and_numbers() {
    assert_eq!(parse_decimal(&s("5541.3")), Some(d(55413, 1)));
    assert_eq!(parse_decimal(&num("12")), Some(d(12, 0)));
    assert_eq!(parse_decimal(&s("x")), None);
    assert_eq!(parse_decimal(&Json::Bool(true)), None);
    assert_eq!(parse_decimal(&Json::Null), None);
}

#[test]
fn reads_levels_skipping_bad_entries() {
    let value = arr(vec![
        entry("1.5", "2"),
        arr(vec![s("3")]),
        arr(vec![s("x"), s("1")]),
        s("not an entry"),
        arr(vec![num("4"), num("0")]),
    ]);
    assert_eq!(pairs(&parse_levels(&value)), vec![(15, 1, 2, 0), (4, 0, 0, 0)]);
    assert!(parse_levels(&s("no array")).is_empty());
}

#[test]
fn classifies_events() {
    assert!(matches!(parse_feed_message(&obj(vec![("event", s("heartbeat"))])), FeedMessage::Ignored));
    assert!(matches!(
        parse_feed_message(&obj(vec![("event", s("subscriptionStatus")), ("status", s("subscribed"))])),
        FeedMessage::Ignored
    ));
    assert!(matches!(
        parse_feed_message(&obj(vec![("event", s("subscriptionStatus")), ("status", s("error"))])),
        FeedMessage::UnconfirmedSubscription
    ));
    assert!(matches!(
        parse_feed_message(&obj(vec![("event", s("subscriptionStatus"))])),
        FeedMessage::UnconfirmedSubscription
    ));
    assert!(matches!(parse_feed_message(&obj(vec![("other", s("x"))])), FeedMessage::Ignored));
}

#[test]
fn ignores_short_arrays_and_pairless_arrays() {
    assert!(matches!(parse_feed_message(&arr(vec![num("0"), s("book-10"), s("XBT/USD")])), FeedMessage::Ignored));
    assert!(matches!(
        parse_feed_message(&arr(vec![num("0"), obj(vec![]), s("book-10"), num("1")])),
        FeedMessage::Ignored
    ));
    assert!(matches!(parse_feed_message(&num("1")), FeedMessage::Ignored));
}

#[test]
fn reads_snapshot_message() {
    match parse_feed_message(&snapshot_message()) {
        FeedMessage::Book(b) => {
            assert_eq!(b.pair, "XBT/USD");
            let (bids, asks) = b.snapshot.expect("snapshot");
            assert_eq!(pairs(&bids), vec![(554120000, 5, 152900000, 8), (553990000, 5, 30000000, 8)]);
            assert_eq!(pairs(&asks), vec![(554130000, 5, 250700000, 8), (554250000, 5, 40100000, 8)]);
            assert!(b.bid_updates.is_empty());
            assert!(b.ask_updates.is_empty());
        }
        _ => panic!("expected book data"),
    }
}

#[test]
fn reads_update_message_with_two_data_objects() {
    let msg = arr(vec![
        num("1234"),
        obj(vec![("a", arr(vec![entry("5541.3", "2.5")]))]),
        obj(vec![("b", arr(vec![entry("5541.2", "0")])), ("c", s("checksum"))]),
        s("book-10"),
        s("XBT/USD"),
    ]);
    match parse_feed_message(&msg) {
        FeedMessage::Book(b) => {
            assert!(b.snapshot.is_none());
            assert_eq!(pairs(&b.ask_updates), vec![(55413, 1, 25, 1)]);
            assert_eq!(pairs(&b.bid_updates), vec![(55412, 1, 0, 0)]);
        }
        _ => panic!("expected book data"),
    }
}

#[test]
fn books_follow_snapshot_then_updates() {
    let mut books = Books::new(10);
    let action = books.handle_message(&snapshot_message());
    match action {
        FeedAction::Publish(u) => {
            assert_eq!(u.pair, "XBT/USD");
            assert_eq!(pairs(&u.levels.bids)[0], (554120000, 5, 152900000, 8));
            assert_eq!(u.levels.bids.len(), 2);
            assert_eq!(pairs(&u.levels.asks)[0], (554130000, 5, 250700000, 8));
        }
        _ => panic!("expected a publication"),
    }
    let update = arr(vec![
        num("0"),
        obj(vec![("b", arr(vec![entry("5541.2", "0"), entry("5541.25", "3")]))]),
        s("book-10"),
        s("XBT/USD"),
    ]);
    match books.handle_message(&update) {
        FeedAction::Publish(u) => {
            assert_eq!(pairs(&u.levels.bids), vec![(554125, 2, 3, 0), (553990000, 5, 30000000, 8)]);
            assert_eq!(u.levels.asks.len(), 2);
        }
        _ => panic!("expected a publication"),
    }
}

#[test]
fn book_message_without_data_publishes_nothing() {
    let mut books = Books::new(10);
    let msg = arr(vec![num("0"), obj(vec![("x", s("y"))]), s("book-10"), s("ETH/USD")]);
    assert!(matches!(books.handle_message(&msg), FeedAction::Nothing));
    assert!(matches!(
        books.handle_message(&obj(vec![("event", s("subscriptionStatus")), ("status", s("error"))])),
        FeedAction::WarnUnconfirmed
    ));
}

#[test]
fn pairs_have_separate_books() {
    let mut books = Books::new(1);
    books.handle_message(&snapshot_message());
    let other = arr(vec![
        num("1"),
        obj(vec![("bs", arr(vec![entry("10", "1")]))]),
        s("book-10"),
        s("ETH/USD"),
    ]);
    match books.handle_message(&other) {
        FeedAction::Publish(u) => {
            assert_eq!(u.pair, "ETH/USD");
            assert_eq!(pairs(&u.levels.bids), vec![(10, 0, 1, 0)]);
            assert!(u.levels.asks.is_empty());
        }
        _ => panic!("expected a publication"),
    }
    let update = arr(vec![
        num("0"),
        obj(vec![("a", arr(vec![entry("5541.0", "1")]))]),
        s("book-10"),
        s("XBT/USD"),
    ]);
    match books.handle_message(&update) {
        FeedAction::Publish(u) => {
            assert_eq!(pairs(&u.levels.bids), vec![(554120000, 5, 152900000, 8)]);
            assert_eq!(pairs(&u.levels.asks), vec![(55410, 1, 1, 0)]);
        }
        _ => panic!("expected a publication"),
    }
}

#[test]
fn events_leave_the_books_alone() {
    let mut books = Books::new(10);
    books.handle_message(&snapshot_message());
    assert!(matches!(books.handle_message(&obj(vec![("event", s("heartbeat"))])), FeedAction::Nothing));
    assert!(matches!(books.handle_message(&obj(vec![("event", s("systemStatus"))])), FeedAction::Nothing));
    let update = arr(vec![
        num("0"),
        obj(vec![("a", arr(vec![entry("5541.3", "0")]))]),
        s("book-10"),
        s("XBT/USD"),
    ]);
    match books.handle_message(&update) {
        FeedAction::Publish(u) => {
            assert_eq!(pairs(&u.levels.bids).len(), 2);
            assert_eq!(pairs(&u.levels.asks), vec![(554250000, 5, 40100000, 8)]);
        }
        _ => panic!("expected a publication"),
    }
}
