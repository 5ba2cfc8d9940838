//! Feed messages and the order book.
//!
//! A feed frame decodes to one of two typed messages: a full-book snapshot or
//! an incremental update. Decoding is best-effort: a malformed level or
//! change is dropped on its own while the rest of the message survives, and a
//! frame that is neither message is dropped whole, without an error. Applying
//! a message keeps both book sides sorted by ascending price.

use crate::decimal::spec_parse_decimal;
use crate::decimal::Decimal;
use crate::json::JsonValue;
use vstd::prelude::*;

verus! {

/// The side of the book an incremental change names.
#[derive(Clone, Copy, Debug, PartialEq, Eq, Structural)]
pub enum OrderSide {
    Buy,
    Sell,
}

impl OrderSide {
    /// The side named by a feed token: `"buy"`, `"sell"`, or nothing.
    pub open spec fn spec_from_token(tok: Seq<char>) -> Option<OrderSide> {
        if tok == "buy"@ {
            Some(OrderSide::Buy)
        } else if tok == "sell"@ {
            Some(OrderSide::Sell)
        } else {
            None
        }
    }

    /// Parses a side token.
    pub fn from_token(tok: &str) -> (r: Option<OrderSide>)
        ensures
            r == Self::spec_from_token(tok@),
    {
        if crate::json::str_eq(tok, "buy") {
            Some(OrderSide::Buy)
        } else if crate::json::str_eq(tok, "sell") {
            Some(OrderSide::Sell)
        } else {
            None
        }
    }
}

/// One price point and its aggregate resting size on one side of the book.
/// Two levels are the same exactly when price and size match.
#[derive(Clone, Copy, Debug, PartialEq, Eq, Structural)]
pub struct Level {
    pub size: Decimal,
    pub price: Decimal,
}

/// A level as the feed writes it: a two-element array of decimal strings,
/// `[price, size]`. Anything else is no level.
pub open spec fn spec_level_from_value(v: JsonValue) -> Option<Level> {
    match v.spec_as_array() {
        Some(items) => {
            if items.len() == 2 {
                match (items[0].spec_as_str(), items[1].spec_as_str()) {
                    (Some(price_tok), Some(size_tok)) => {
                        match (spec_parse_decimal(price_tok), spec_parse_decimal(size_tok)) {
                            (Some(price), Some(size)) => Some(Level { size, price }),
                            _ => None,
                        }
                    },
                    _ => None,
                }
            } else {
                None
            }
        },
        None => None,
    }
}

impl Level {
    /// Parses one `[price, size]` pair.
    pub fn from_value(v: &JsonValue) -> (r: Option<Level>)
        ensures
            r == spec_level_from_value(*v),
    {
        let items = match v.as_array() {
            Some(items) => items,
            None => { return None },
        };
        if items.len() != 2 {
            return None;
        }
        let price_tok = match items[0].as_str() {
            Some(s) => s,
            None => { return None },
        };
        let size_tok = match items[1].as_str() {
            Some(s) => s,
            None => { return None },
        };
        let price = match Decimal::parse(price_tok.as_str()) {
            Some(d) => d,
            None => { return None },
        };
        let size = match Decimal::parse(size_tok.as_str()) {
            Some(d) => d,
            None => { return None },
        };
        Some(Level { size, price })
    }
}

/// One incremental change from an update message.
#[derive(Clone, Copy, Debug, PartialEq, Eq, Structural)]
pub struct OrderBookDiff {
    pub order_side: OrderSide,
    pub level: Level,
}

/// A change as the feed writes it: a three-element array
/// `[side, price, size]` of strings. Anything else is no change.
pub open spec fn spec_change_from_value(v: JsonValue) -> Option<OrderBookDiff> {
    match v.spec_as_array() {
        Some(items) => {
            if items.len() == 3 {
                match (items[0].spec_as_str(), items[1].spec_as_str(), items[2].spec_as_str()) {
                    (Some(side_tok), Some(price_tok), Some(size_tok)) => {
                        match (OrderSide::spec_from_token(side_tok),
                        spec_parse_decimal(price_tok),
                        spec_parse_decimal(size_tok),
                        ) {
                            (Some(order_side), Some(price), Some(size)) => Some(
                                OrderBookDiff { order_side, level: Level { size, price } },
                            ),
                            _ => None,
                        }
                    },
                    _ => None,
                }
            } else {
                None
            }
        },
        None => None,
    }
}

impl OrderBookDiff {
    /// Parses one `[side, price, size]` triple.
    pub fn from_value(v: &JsonValue) -> (r: Option<OrderBookDiff>)
        ensures
            r == spec_change_from_value(*v),
    {
        let items = match v.as_array() {
            Some(items) => items,
            None => { return None },
        };
        if items.len() != 3 {
            return None;
        }
        let side_tok = match items[0].as_str() {
            Some(s) => s,
            None => { return None },
        };
        let price_tok = match items[1].as_str() {
            Some(s) => s,
            None => { return None },
        };
        let size_tok = match items[2].as_str() {
            Some(s) => s,
            None => { return None },
        };
        let order_side = match OrderSide::from_token(side_tok.as_str()) {
            Some(s) => s,
            None => { return None },
        };
        let price = match Decimal::parse(price_tok.as_str()) {
            Some(d) => d,
            None => { return None },
        };
        let size = match Decimal::parse(size_tok.as_str()) {
            Some(d) => d,
            None => { return None },
        };
        Some(OrderBookDiff { order_side, level: Level { size, price } })
    }
}

/// The levels of the well-formed pairs among `items`, in their order; a
/// malformed pair is dropped without affecting its siblings.
pub open spec fn spec_levels_from_values(items: Seq<JsonValue>) -> Seq<Level>
    decreases items.len(),
{
    if items.len() == 0 {
        Seq::empty()
    } else {
        let rest = spec_levels_from_values(items.drop_last());
        match spec_level_from_value(items.last()) {
            Some(level) => rest.push(level),
            None => rest,
        }
    }
}

/// The diffs of the well-formed triples among `items`, in their order; a
/// malformed triple is dropped without affecting its siblings.
pub open spec fn spec_changes_from_values(items: Seq<JsonValue>) -> Seq<OrderBookDiff>
    decreases items.len(),
{
    if items.len() == 0 {
        Seq::empty()
    } else {
        let rest = spec_changes_from_values(items.drop_last());
        match spec_change_from_value(items.last()) {
            Some(change) => rest.push(change),
            None => rest,
        }
    }
}

/// String field `key` of payload `v`.
pub open spec fn spec_field_str(v: JsonValue, key: Seq<char>) -> Option<Seq<char>> {
    match v.spec_get(key) {
        Some(f) => f.spec_as_str(),
        None => None,
    }
}

/// Array field `key` of payload `v`.
pub open spec fn spec_field_array(v: JsonValue, key: Seq<char>) -> Option<Seq<JsonValue>> {
    match v.spec_get(key) {
        Some(f) => f.spec_as_array(),
        None => None,
    }
}

/// String field `key` of payload `v`.
fn field_str<'a>(v: &'a JsonValue, key: &str) -> (r: Option<&'a String>)
    ensures
        match r {
            Some(s) => spec_field_str(*v, key@) == Some(s@),
            None => spec_field_str(*v, key@) is None,
        },
{
    match v.get(key) {
        Some(f) => f.as_str(),
        None => None,
    }
}

/// Array field `key` of payload `v`.
fn field_array<'a>(v: &'a JsonValue, key: &str) -> (r: Option<&'a Vec<JsonValue>>)
    ensures
        match r {
            Some(items) => spec_field_array(*v, key@) == Some(items@),
            None => spec_field_array(*v, key@) is None,
        },
{
    match v.get(key) {
        Some(f) => f.as_array(),
        None => None,
    }
}

/// The microsecond timestamp a timestamp string names, if any. This is what
/// chrono reads out of an RFC 3339 string; it depends on the characters
/// alone.
pub uninterp spec fn timestamp_micros_of(s: Seq<char>) -> Option<i64>;

/// Relies on chrono's `FromStr for DateTime<Utc>`, which reads a relaxed RFC
/// 3339 timestamp from the characters alone, and on
/// `DateTime::timestamp_micros`, which is total on chrono's date range.
#[verifier::external_body]
fn parse_timestamp(s: &str) -> (r: Option<i64>)
    ensures
        r == timestamp_micros_of(s@),
{
    match s.parse::<chrono::DateTime<chrono::Utc>>() {
        Ok(dt) => Some(dt.timestamp_micros()),
        Err(_) => None,
    }
}

/// What a decoded update message says, with its strings and changes read off
/// as sequences.
pub struct UpdateView {
    pub product_id: Seq<char>,
    pub changes: Seq<OrderBookDiff>,
    pub time: i64,
}

/// An incremental (level-2) update message: a batch of per-level changes for
/// one instrument, stamped with the feed's time.
#[derive(Debug, PartialEq)]
pub struct Level2Update {
    pub product_id: String,
    pub changes: Vec<OrderBookDiff>,
    /// The frame's timestamp, in microseconds since the epoch.
    pub time: i64,
}

impl View for Level2Update {
    type V = UpdateView;

    open spec fn view(&self) -> UpdateView {
        UpdateView { product_id: self.product_id@, changes: self.changes@, time: self.time }
    }
}

/// An update message as the feed writes it: an object with a `type` field, a
/// `product_id`, a `time` that reads as a timestamp, and an array of
/// `changes`, of which every well-formed triple is kept in order. Anything
/// else is no update.
pub open spec fn spec_update_from_value(v: JsonValue) -> Option<UpdateView> {
    if spec_field_str(v, "type"@) is Some {
        match (spec_field_str(v, "product_id"@), spec_field_str(v, "time"@), spec_field_array(
            v,
            "changes"@,
        )) {
            (Some(product_id), Some(time_tok), Some(change_vals)) => {
                match timestamp_micros_of(time_tok) {
                    Some(time) => Some(
                        UpdateView {
                            product_id,
                            changes: spec_changes_from_values(change_vals),
                            time,
                        },
                    ),
                    None => None,
                }
            },
            _ => None,
        }
    } else {
        None
    }
}

/// Parses the well-formed triples among `items`, keeping their order.
fn parse_changes(items: &Vec<JsonValue>) -> (r: Vec<OrderBookDiff>)
    ensures
        r@ == spec_changes_from_values(items@),
{
    let mut out: Vec<OrderBookDiff> = Vec::new();
    proof {
        assert(items@.take(0) =~= Seq::<JsonValue>::empty());
    }
    let mut i: usize = 0;
    while i < items.len()
        invariant
            i <= items@.len(),
            out@ == spec_changes_from_values(items@.take(i as int)),
        decreases items@.len() - i,
    {
        proof {
            assert(items@.take(i as int + 1).drop_last() =~= items@.take(i as int));
            assert(items@.take(i as int + 1).last() == items@[i as int]);
        }
        match OrderBookDiff::from_value(&items[i]) {
            Some(change) => out.push(change),
            None => (),
        }
        i = i + 1;
    }
    proof {
        assert(items@.take(i as int) =~= items@);
    }
    out
}

impl Level2Update {
    /// Decodes a payload as an update message.
    pub fn from_value(v: &JsonValue) -> (r: Option<Level2Update>)
        ensures
            match r {
                Some(update) => spec_update_from_value(*v) == Some(update@),
                None => spec_update_from_value(*v) is None,
            },
    {
        if field_str(v, "type").is_none() {
            return None;
        }
        let product_id = match field_str(v, "product_id") {
            Some(s) => s.clone(),
            None => { return None },
        };
        let time_tok = match field_str(v, "time") {
            Some(s) => s,
            None => { return None },
        };
        let time = match parse_timestamp(time_tok.as_str()) {
            Some(t) => t,
            None => { return None },
        };
        let change_vals = match field_array(v, "changes") {
            Some(items) => items,
            None => { return None },
        };
        let changes = parse_changes(change_vals);
        Some(Level2Update { product_id, changes, time })
    }
}

/// What the book says: its instrument and its two sides, read off as
/// sequences of levels.
pub struct BookView {
    pub product_id: Seq<char>,
    pub bids: Seq<Level>,
    pub asks: Seq<Level>,
}

/// The two-sided book: the authoritative current state for one instrument.
#[derive(Debug, PartialEq)]
pub struct OrderBook {
    pub product_id: String,
    pub bids: Vec<Level>,
    pub asks: Vec<Level>,
}

impl View for OrderBook {
    type V = BookView;

    open spec fn view(&self) -> BookView {
        BookView { product_id: self.product_id@, bids: self.bids@, asks: self.asks@ }
    }
}

/// A snapshot as the feed writes it: an object with a `type` field, a
/// `product_id`, and `bids` and `asks` arrays, of which every well-formed
/// pair is kept in order. Anything else is no snapshot.
pub open spec fn spec_snapshot_from_value(v: JsonValue) -> Option<BookView> {
    if spec_field_str(v, "type"@) is Some {
        match (spec_field_str(v, "product_id"@), spec_field_array(v, "bids"@), spec_field_array(
            v,
            "asks"@,
        )) {
            (Some(product_id), Some(bid_vals), Some(ask_vals)) => Some(
                BookView {
                    product_id,
                    bids: spec_levels_from_values(bid_vals),
                    asks: spec_levels_from_values(ask_vals),
                },
            ),
            _ => None,
        }
    } else {
        None
    }
}

/// Parses the well-formed pairs among `items`, keeping their order.
fn parse_levels(items: &Vec<JsonValue>) -> (r: Vec<Level>)
    ensures
        r@ == spec_levels_from_values(items@),
{
    let mut out: Vec<Level> = Vec::new();
    proof {
        assert(items@.take(0) =~= Seq::<JsonValue>::empty());
    }
    let mut i: usize = 0;
    while i < items.len()
        invariant
            i <= items@.len(),
            out@ == spec_levels_from_values(items@.take(i as int)),
        decreases items@.len() - i,
    {
        proof {
            assert(items@.take(i as int + 1).drop_last() =~= items@.take(i as int));
            assert(items@.take(i as int + 1).last() == items@[i as int]);
        }
        match Level::from_value(&items[i]) {
            Some(level) => out.push(level),
            None => (),
        }
        i = i + 1;
    }
    proof {
        assert(items@.take(i as int) =~= items@);
    }
    out
}

impl OrderBook {
    /// An empty book with no instrument.
    pub fn new() -> (r: OrderBook)
        ensures
            r@.product_id == Seq::<char>::empty(),
            r@.bids == Seq::<Level>::empty(),
            r@.asks == Seq::<Level>::empty(),
    {
        OrderBook { product_id: String::new(), bids: Vec::new(), asks: Vec::new() }
    }

    /// Decodes a payload as a snapshot message.
    pub fn from_value(v: &JsonValue) -> (r: Option<OrderBook>)
        ensures
            match r {
                Some(book) => spec_snapshot_from_value(*v) == Some(book@),
                None => spec_snapshot_from_value(*v) is None,
            },
    {
        if field_str(v, "type").is_none() {
            return None;
        }
        let product_id = match field_str(v, "product_id") {
            Some(s) => s.clone(),
            None => { return None },
        };
        let bid_vals = match field_array(v, "bids") {
            Some(items) => items,
            None => { return None },
        };
        let ask_vals = match field_array(v, "asks") {
            Some(items) => items,
            None => { return None },
        };
        let bids = parse_levels(bid_vals);
        let asks = parse_levels(ask_vals);
        Some(OrderBook { product_id, bids, asks })
    }
}

impl Default for OrderBook {
    /// An empty book with no instrument.
    fn default() -> (r: OrderBook)
        ensures
            r@.product_id == Seq::<char>::empty(),
            r@.bids == Seq::<Level>::empty(),
            r@.asks == Seq::<Level>::empty(),
    {
        OrderBook::new()
    }
}


/// Non-decreasing by price.
pub open spec fn sorted_by_price(s: Seq<Level>) -> bool {
    forall|i: int, j: int| 0 <= i <= j < s.len() ==> s[i].price.value() <= s[j].price.value()
}

/// Stable insertion of `x` into `s`: `x` lands after every level whose price
/// does not exceed its own.
pub open spec fn spec_insert_level(s: Seq<Level>, x: Level) -> Seq<Level>
    decreases s.len(),
{
    if s.len() == 0 {
        seq![x]
    } else if s[0].price.value() <= x.price.value() {
        seq![s[0]] + spec_insert_level(s.drop_first(), x)
    } else {
        seq![x] + s
    }
}

/// The ascending-by-price ordering of `s`, stable for equal prices.
pub open spec fn spec_sort_levels(s: Seq<Level>) -> Seq<Level>
    decreases s.len(),
{
    if s.len() == 0 {
        Seq::empty()
    } else {
        spec_insert_level(spec_sort_levels(s.drop_last()), s.last())
    }
}

proof fn lemma_insert_level_props(s: Seq<Level>, x: Level)
    requires
        sorted_by_price(s),
    ensures
        spec_insert_level(s, x).len() == s.len() + 1,
        sorted_by_price(spec_insert_level(s, x)),
        forall|i: int|
            0 <= i < spec_insert_level(s, x).len() ==> (#[trigger] spec_insert_level(s, x)[i] == x
                || s.contains(spec_insert_level(s, x)[i])),
    decreases s.len(),
{
    let r = spec_insert_level(s, x);
    if s.len() == 0 {
        assert(r =~= seq![x]);
    } else if s[0].price.value() <= x.price.value() {
        let d = s.drop_first();
        assert(sorted_by_price(d)) by {
            assert(forall|i: int| 0 <= i < d.len() ==> d[i] == s[i + 1]);
        }
        lemma_insert_level_props(d, x);
        let rr = spec_insert_level(d, x);
        assert(r =~= seq![s[0]] + rr);
        assert forall|i: int, j: int| 0 <= i <= j < r.len() implies r[i].price.value()
            <= r[j].price.value() by {
            if i > 0 {
                assert(r[i] == rr[i - 1] && r[j] == rr[j - 1]);
            } else if j > 0 {
                assert(r[j] == rr[j - 1]);
                if rr[j - 1] == x {
                } else {
                    assert(d.contains(rr[j - 1]));
                    let t = choose|t: int| 0 <= t < d.len() && d[t] == rr[j - 1];
                    assert(d[t] == s[t + 1]);
                }
            }
        }
        assert forall|i: int| 0 <= i < r.len() implies (#[trigger] r[i] == x || s.contains(
            r[i],
        )) by {
            if i == 0 {
                assert(s[0] == r[0]);
            } else {
                assert(r[i] == rr[i - 1]);
                if rr[i - 1] != x {
                    assert(d.contains(rr[i - 1]));
                    let t = choose|t: int| 0 <= t < d.len() && d[t] == rr[i - 1];
                    assert(s[t + 1] == r[i]);
                }
            }
        }
    } else {
        assert(r =~= seq![x] + s);
        assert forall|i: int| 0 <= i < r.len() implies (#[trigger] r[i] == x || s.contains(
            r[i],
        )) by {
            if i > 0 {
                assert(r[i] == s[i - 1]);
            }
        }
    }
}

/// The result of [`spec_sort_levels`] is sorted and keeps the length.
pub proof fn lemma_sort_levels_sorted(s: Seq<Level>)
    ensures
        sorted_by_price(spec_sort_levels(s)),
        spec_sort_levels(s).len() == s.len(),
    decreases s.len(),
{
    if s.len() > 0 {
        lemma_sort_levels_sorted(s.drop_last());
        lemma_insert_level_props(spec_sort_levels(s.drop_last()), s.last());
    }
}

proof fn lemma_insert_level_at(s: Seq<Level>, x: Level, j: int)
    requires
        sorted_by_price(s),
        0 <= j <= s.len(),
        forall|t: int| 0 <= t < j ==> s[t].price.value() <= x.price.value(),
        j < s.len() ==> s[j].price.value() > x.price.value(),
    ensures
        spec_insert_level(s, x) == s.insert(j, x),
    decreases s.len(),
{
    if s.len() == 0 {
        assert(spec_insert_level(s, x) =~= s.insert(0, x));
    } else if j == 0 {
        assert(spec_insert_level(s, x) =~= s.insert(0, x));
    } else {
        let d = s.drop_first();
        assert(sorted_by_price(d)) by {
            assert(forall|i: int| 0 <= i < d.len() ==> d[i] == s[i + 1]);
        }
        assert(forall|t: int| 0 <= t < j - 1 ==> d[t].price.value() <= x.price.value()) by {
            assert(forall|t: int| 0 <= t < d.len() ==> d[t] == s[t + 1]);
        }
        assert(j - 1 < d.len() ==> d[j - 1].price.value() > x.price.value());
        lemma_insert_level_at(d, x, j - 1);
        assert(seq![s[0]] + d.insert(j - 1, x) =~= s.insert(j, x));
    }
}

/// Sorting a sequence already sorted by price leaves it unchanged.
pub proof fn lemma_sorted_sort_id(s: Seq<Level>)
    requires
        sorted_by_price(s),
    ensures
        spec_sort_levels(s) == s,
    decreases s.len(),
{
    if s.len() > 0 {
        let d = s.drop_last();
        assert(sorted_by_price(d)) by {
            assert(forall|i: int| 0 <= i < d.len() ==> d[i] == s[i]);
        }
        lemma_sorted_sort_id(d);
        lemma_insert_level_at(d, s.last(), d.len() as int);
        assert(d.insert(d.len() as int, s.last()) =~= s);
    }
}

/// Sorts levels ascending by price, keeping the arriving order of levels
/// with equal prices.
fn sorted_levels(levels: &Vec<Level>) -> (r: Vec<Level>)
    ensures
        r@ == spec_sort_levels(levels@),
{
    let mut out: Vec<Level> = Vec::new();
    proof {
        assert(levels@.take(0) =~= Seq::<Level>::empty());
    }
    let mut i: usize = 0;
    while i < levels.len()
        invariant
            i <= levels@.len(),
            out@ == spec_sort_levels(levels@.take(i as int)),
            sorted_by_price(out@),
        decreases levels@.len() - i,
    {
        let x = levels[i];
        let mut j: usize = 0;
        loop
            invariant
                j <= out@.len(),
                sorted_by_price(out@),
                forall|t: int| 0 <= t < j ==> out@[t].price.value() <= x.price.value(),
            ensures
                j <= out@.len(),
                j == out@.len() || out@[j as int].price.value() > x.price.value(),
                forall|t: int| 0 <= t < j ==> out@[t].price.value() <= x.price.value(),
            decreases out@.len() - j,
        {
            if j >= out.len() {
                break ;
            }
            if !out[j].price.le(&x.price) {
                break ;
            }
            j = j + 1;
        }
        proof {
            lemma_insert_level_at(out@, x, j as int);
            lemma_insert_level_props(out@, x);
            assert(levels@.take(i as int + 1).drop_last() =~= levels@.take(i as int));
            assert(levels@.take(i as int + 1).last() == levels@[i as int]);
        }
        out.insert(j, x);
        i = i + 1;
    }
    proof {
        assert(levels@.take(i as int) =~= levels@);
    }
    out
}

/// The levels an update appends to the side that `side` tokens feed: the
/// level of every change naming `side` whose size is not zero, in change
/// order.
pub open spec fn spec_side_levels(changes: Seq<OrderBookDiff>, side: OrderSide) -> Seq<Level>
    decreases changes.len(),
{
    if changes.len() == 0 {
        Seq::empty()
    } else {
        let rest = spec_side_levels(changes.drop_last(), side);
        let change = changes.last();
        if change.order_side == side && !change.level.size.spec_is_zero() {
            rest.push(change.level)
        } else {
            rest
        }
    }
}

impl OrderBook {
    /// Applies one feed frame to the book.
    ///
    /// An update appends each surviving change's level — buy changes to
    /// `asks`, sell changes to `bids`, as the feed's tokens are mapped here —
    /// skipping changes of size zero, then re-sorts both sides. A snapshot
    /// replaces the whole book and its sides are likewise sorted. A frame
    /// that is neither is dropped: the book does not change and no error is
    /// raised.
    pub fn apply(&mut self, frame: &JsonValue)
        ensures
            match spec_update_from_value(*frame) {
                Some(update) => {
                    &&& final(self)@.product_id == old(self)@.product_id
                    &&& final(self)@.asks == spec_sort_levels(
                        old(self)@.asks + spec_side_levels(update.changes, OrderSide::Buy),
                    )
                    &&& final(self)@.bids == spec_sort_levels(
                        old(self)@.bids + spec_side_levels(update.changes, OrderSide::Sell),
                    )
                },
                None => match spec_snapshot_from_value(*frame) {
                    Some(snapshot) => {
                        &&& final(self)@.product_id == snapshot.product_id
                        &&& final(self)@.bids == spec_sort_levels(snapshot.bids)
                        &&& final(self)@.asks == spec_sort_levels(snapshot.asks)
                    },
                    None => final(self)@ == old(self)@,
                },
            },
            spec_update_from_value(*frame) is Some || spec_snapshot_from_value(*frame) is Some
                ==> sorted_by_price(final(self)@.bids) && sorted_by_price(final(self)@.asks),
    {
        if let Some(update) = Level2Update::from_value(frame) {
            proof {
                assert(update.changes@.take(0) =~= Seq::<OrderBookDiff>::empty());
                assert(old(self)@.asks + Seq::<Level>::empty() =~= old(self)@.asks);
                assert(old(self)@.bids + Seq::<Level>::empty() =~= old(self)@.bids);
            }
            let mut i: usize = 0;
            while i < update.changes.len()
                invariant
                    i <= update.changes@.len(),
                    self.asks@ == old(self)@.asks + spec_side_levels(
                        update.changes@.take(i as int),
                        OrderSide::Buy,
                    ),
                    self.bids@ == old(self)@.bids + spec_side_levels(
                        update.changes@.take(i as int),
                        OrderSide::Sell,
                    ),
                    self.product_id@ == old(self)@.product_id,
                decreases update.changes@.len() - i,
            {
                proof {
                    let pre = update.changes@.take(i as int);
                    let change = update.changes@[i as int];
                    assert(update.changes@.take(i as int + 1).drop_last() =~= pre);
                    assert(update.changes@.take(i as int + 1).last() == change);
                    assert(old(self)@.asks + spec_side_levels(pre, OrderSide::Buy).push(
                        change.level,
                    ) =~= (old(self)@.asks + spec_side_levels(pre, OrderSide::Buy)).push(
                        change.level,
                    ));
                    assert(old(self)@.bids + spec_side_levels(pre, OrderSide::Sell).push(
                        change.level,
                    ) =~= (old(self)@.bids + spec_side_levels(pre, OrderSide::Sell)).push(
                        change.level,
                    ));
                }
                let change = update.changes[i];
                if !change.level.size.is_zero() {
                    match change.order_side {
                        OrderSide::Buy => self.asks.push(change.level),
                        OrderSide::Sell => self.bids.push(change.level),
                    }
                }
                i = i + 1;
            }
            proof {
                assert(update.changes@.take(i as int) =~= update.changes@);
            }
        } else if let Some(snapshot) = OrderBook::from_value(frame) {
            *self = snapshot;
        } else {
            return ;
        }
        let ghost pre_asks = self.asks@;
        let ghost pre_bids = self.bids@;
        let asks = sorted_levels(&self.asks);
        self.asks = asks;
        let bids = sorted_levels(&self.bids);
        self.bids = bids;
        proof {
            lemma_sort_levels_sorted(pre_asks);
            lemma_sort_levels_sorted(pre_bids);
        }
    }
}


/// A well-formed `[price, size]` pair of parsable decimal strings parses to
/// exactly those two decimals.
pub proof fn lemma_level_parse_exact(
    v: JsonValue,
    items: Seq<JsonValue>,
    price_tok: Seq<char>,
    size_tok: Seq<char>,
    price: Decimal,
    size: Decimal,
)
    requires
        v.spec_as_array() == Some(items),
        items.len() == 2,
        items[0].spec_as_str() == Some(price_tok),
        items[1].spec_as_str() == Some(size_tok),
        spec_parse_decimal(price_tok) == Some(price),
        spec_parse_decimal(size_tok) == Some(size),
    ensures
        spec_level_from_value(v) == Some(Level { size, price }),
{
}

/// A pair of the wrong shape, or one whose tokens do not parse, is no level.
pub proof fn lemma_level_parse_rejects(v: JsonValue)
    ensures
        v.spec_as_array() is None ==> spec_level_from_value(v) is None,
        v.spec_as_array() matches Some(items) && items.len() != 2 ==> spec_level_from_value(v)
            is None,
        v.spec_as_array() matches Some(items) && items.len() == 2 && (items[0].spec_as_str()
            is None || items[1].spec_as_str() is None) ==> spec_level_from_value(v) is None,
        v.spec_as_array() matches Some(items) && items.len() == 2 && (
        items[0].spec_as_str() matches Some(tok) && spec_parse_decimal(tok) is None)
            ==> spec_level_from_value(v) is None,
        v.spec_as_array() matches Some(items) && items.len() == 2 && (
        items[1].spec_as_str() matches Some(tok) && spec_parse_decimal(tok) is None)
            ==> spec_level_from_value(v) is None,
{
}

/// A malformed pair is dropped without affecting its siblings: parsing with
/// it and parsing without it give the same levels.
pub proof fn lemma_malformed_level_dropped(items: Seq<JsonValue>, i: int)
    requires
        0 <= i < items.len(),
        spec_level_from_value(items[i]) is None,
    ensures
        spec_levels_from_values(items) == spec_levels_from_values(items.remove(i)),
    decreases items.len(),
{
    if i == items.len() - 1 {
        assert(items.remove(i) =~= items.drop_last());
    } else {
        assert(items.remove(i).drop_last() =~= items.drop_last().remove(i));
        assert(items.remove(i).last() == items.last());
        lemma_malformed_level_dropped(items.drop_last(), i);
    }
}

/// Every well-formed pair is decoded, in its original place.
pub proof fn lemma_well_formed_levels_kept(items: Seq<JsonValue>)
    requires
        forall|i: int| 0 <= i < items.len() ==> spec_level_from_value(#[trigger] items[i]) is Some,
    ensures
        spec_levels_from_values(items).len() == items.len(),
        forall|i: int|
            0 <= i < items.len() ==> Some(#[trigger] spec_levels_from_values(items)[i])
                == spec_level_from_value(items[i]),
    decreases items.len(),
{
    if items.len() > 0 {
        let d = items.drop_last();
        assert(forall|i: int|
            0 <= i < d.len() ==> spec_level_from_value(#[trigger] d[i]) is Some) by {
            assert(forall|i: int| 0 <= i < d.len() ==> d[i] == items[i]);
        }
        lemma_well_formed_levels_kept(d);
        assert(forall|i: int| 0 <= i < d.len() ==> d[i] == items[i]);
    }
}

/// A malformed triple is dropped without affecting its siblings: parsing
/// with it and parsing without it give the same changes.
pub proof fn lemma_malformed_change_dropped(items: Seq<JsonValue>, i: int)
    requires
        0 <= i < items.len(),
        spec_change_from_value(items[i]) is None,
    ensures
        spec_changes_from_values(items) == spec_changes_from_values(items.remove(i)),
    decreases items.len(),
{
    if i == items.len() - 1 {
        assert(items.remove(i) =~= items.drop_last());
    } else {
        assert(items.remove(i).drop_last() =~= items.drop_last().remove(i));
        assert(items.remove(i).last() == items.last());
        lemma_malformed_change_dropped(items.drop_last(), i);
    }
}

/// Every well-formed change triple yields one diff, in its original place.
pub proof fn lemma_well_formed_changes_kept(items: Seq<JsonValue>)
    requires
        forall|i: int| 0 <= i < items.len() ==> spec_change_from_value(#[trigger] items[i]) is Some,
    ensures
        spec_changes_from_values(items).len() == items.len(),
        forall|i: int|
            0 <= i < items.len() ==> Some(#[trigger] spec_changes_from_values(items)[i])
                == spec_change_from_value(items[i]),
    decreases items.len(),
{
    if items.len() > 0 {
        let d = items.drop_last();
        assert(forall|i: int|
            0 <= i < d.len() ==> spec_change_from_value(#[trigger] d[i]) is Some) by {
            assert(forall|i: int| 0 <= i < d.len() ==> d[i] == items[i]);
        }
        lemma_well_formed_changes_kept(d);
        assert(forall|i: int| 0 <= i < d.len() ==> d[i] == items[i]);
    }
}

proof fn lemma_zero_sizes_append_nothing(changes: Seq<OrderBookDiff>, side: OrderSide)
    requires
        forall|i: int|
            0 <= i < changes.len() ==> (#[trigger] changes[i]).level.size.spec_is_zero(),
    ensures
        spec_side_levels(changes, side) == Seq::<Level>::empty(),
    decreases changes.len(),
{
    if changes.len() > 0 {
        let d = changes.drop_last();
        assert(forall|i: int|
            0 <= i < d.len() ==> (#[trigger] d[i]).level.size.spec_is_zero()) by {
            assert(forall|i: int| 0 <= i < d.len() ==> d[i] == changes[i]);
        }
        lemma_zero_sizes_append_nothing(d, side);
        assert(changes.last().level.size.spec_is_zero());
    }
}

/// An update whose changes all have size zero appends nothing, so applying
/// it only re-sorts the book, and a book whose sides are already sorted is
/// left exactly as it was.
pub proof fn lemma_zero_size_update_is_noop(book: BookView, update: UpdateView)
    requires
        sorted_by_price(book.bids),
        sorted_by_price(book.asks),
        forall|i: int|
            0 <= i < update.changes.len() ==> (#[trigger] update.changes[i])
                .level.size.spec_is_zero(),
    ensures
        spec_sort_levels(book.asks + spec_side_levels(update.changes, OrderSide::Buy))
            == book.asks,
        spec_sort_levels(book.bids + spec_side_levels(update.changes, OrderSide::Sell))
            == book.bids,
{
    lemma_zero_sizes_append_nothing(update.changes, OrderSide::Buy);
    lemma_zero_sizes_append_nothing(update.changes, OrderSide::Sell);
    assert(book.asks + Seq::<Level>::empty() =~= book.asks);
    assert(book.bids + Seq::<Level>::empty() =~= book.bids);
    lemma_sorted_sort_id(book.asks);
    lemma_sorted_sort_id(book.bids);
}


/// A decoded update carries exactly the payload's `product_id` and `time`,
/// and its diffs are the payload's well-formed change triples in order.
pub proof fn lemma_update_preserves_envelope(v: JsonValue, update: UpdateView)
    requires
        spec_update_from_value(v) == Some(update),
    ensures
        spec_field_str(v, "product_id"@) == Some(update.product_id),
        spec_field_str(v, "time"@) matches Some(tok) && timestamp_micros_of(tok) == Some(
            update.time,
        ),
        spec_field_array(v, "changes"@) matches Some(items) && update.changes
            == spec_changes_from_values(items),
{
}

/// A decoded snapshot carries exactly the payload's `product_id`, and its
/// sides are the payload's well-formed level pairs in order.
pub proof fn lemma_snapshot_preserves_envelope(v: JsonValue, snapshot: BookView)
    requires
        spec_snapshot_from_value(v) == Some(snapshot),
    ensures
        spec_field_str(v, "product_id"@) == Some(snapshot.product_id),
        spec_field_array(v, "bids"@) matches Some(items) && snapshot.bids
            == spec_levels_from_values(items),
        spec_field_array(v, "asks"@) matches Some(items) && snapshot.asks
            == spec_levels_from_values(items),
{
}


proof fn lemma_insert_level_multiset(s: Seq<Level>, x: Level)
    ensures
        spec_insert_level(s, x).to_multiset() == s.to_multiset().insert(x),
    decreases s.len(),
{
    broadcast use vstd::seq_lib::group_to_multiset_ensures;

    if s.len() == 0 {
        assert(spec_insert_level(s, x) =~= s.push(x));
    } else if s[0].price.value() <= x.price.value() {
        let d = s.drop_first();
        lemma_insert_level_multiset(d, x);
        vstd::seq_lib::lemma_multiset_commutative(seq![s[0]], spec_insert_level(d, x));
        vstd::seq_lib::lemma_multiset_commutative(seq![s[0]], d);
        assert(seq![s[0]] + d =~= s);
        assert(seq![s[0]].to_multiset().add(d.to_multiset().insert(x)) =~= (
        seq![s[0]].to_multiset().add(d.to_multiset())).insert(x));
    } else {
        vstd::seq_lib::lemma_multiset_commutative(seq![x], s);
        assert(seq![x] =~= Seq::<Level>::empty().push(x));
        assert(seq![x].to_multiset().add(s.to_multiset()) =~= s.to_multiset().insert(x));
    }
}

/// Sorting permutes: the sorted sequence carries exactly the same multiset
/// of levels as its input.
pub proof fn lemma_sort_levels_permutes(s: Seq<Level>)
    ensures
        spec_sort_levels(s).to_multiset() == s.to_multiset(),
    decreases s.len(),
{
    broadcast use vstd::seq_lib::group_to_multiset_ensures;

    if s.len() > 0 {
        lemma_sort_levels_permutes(s.drop_last());
        lemma_insert_level_multiset(spec_sort_levels(s.drop_last()), s.last());
        assert(s.drop_last().push(s.last()) =~= s);
    }
}

} // verus!
