//! The book feed: what each message of the exchange's book channel says, and the books of
//! all pairs that those messages keep up to date.
use crate::book::{
    apply_levels, keeps_highest, keeps_lowest, lemma_apply_levels_finite, lemma_cut_finite,
    lemma_keeps_highest_unique, lemma_keeps_lowest_unique, levels_wf, lists_highest_first,
    lists_lowest_first, well_published, BookLevels, Level, OrderBook, PriceKey,
};
use crate::json::{levels_of, member, parse_levels, Json};
use vstd::prelude::*;

verus! {

/// What the data entries of a book message carry.
pub struct BookData {
    pub snapshot_bids: Seq<Level>,
    pub snapshot_asks: Seq<Level>,
    pub is_snapshot: bool,
    pub bid_updates: Seq<Level>,
    pub ask_updates: Seq<Level>,
}

/// Nothing read yet.
pub open spec fn empty_data() -> BookData {
    BookData {
        snapshot_bids: Seq::empty(),
        snapshot_asks: Seq::empty(),
        is_snapshot: false,
        bid_updates: Seq::empty(),
        ask_updates: Seq::empty(),
    }
}

/// Reads one data entry: in an object, `as` and `bs` replace the snapshot's asks and bids,
/// and `a` and `b` add to the ask and bid updates. Anything but an object carries nothing.
pub open spec fn read_entry(d: BookData, entry: Json) -> BookData {
    let d1 = match member(entry, "as"@) {
        Some(v) => BookData { snapshot_asks: levels_of(v), is_snapshot: true, ..d },
        None => d,
    };
    let d2 = match member(entry, "bs"@) {
        Some(v) => BookData { snapshot_bids: levels_of(v), is_snapshot: true, ..d1 },
        None => d1,
    };
    let d3 = match member(entry, "a"@) {
        Some(v) => BookData { ask_updates: d2.ask_updates + levels_of(v), ..d2 },
        None => d2,
    };
    match member(entry, "b"@) {
        Some(v) => BookData { bid_updates: d3.bid_updates + levels_of(v), ..d3 },
        None => d3,
    }
}

/// Reads the data entries of a book message in order.
pub open spec fn read_entries(entries: Seq<Json>) -> BookData
    decreases entries.len(),
{
    if entries.len() == 0 {
        empty_data()
    } else {
        read_entry(read_entries(entries.drop_last()), entries.last())
    }
}

/// What a message of the book channel says.
pub enum FeedModel {
    /// Nothing for the books: a heartbeat, a status, a confirmed subscription or a message
    /// of another shape.
    Ignored,
    /// A subscription status whose `status` is not `subscribed`.
    UnconfirmedSubscription,
    /// Book data for a pair.
    Book { pair: Seq<char>, data: BookData },
}

/// Classifies a message. An object with a string `event` is an event. An array of at least
/// four items whose last item is a string is book data for that pair; its data entries are
/// the items between the first and the last two. Anything else is ignored.
pub open spec fn classify(msg: Json) -> FeedModel {
    match member(msg, "event"@) {
        Some(Json::Str(event)) => {
            let confirmed = match member(msg, "status"@) {
                Some(Json::Str(status)) => status@ == "subscribed"@,
                _ => false,
            };
            if event@ == "subscriptionStatus"@ && !confirmed {
                FeedModel::UnconfirmedSubscription
            } else {
                FeedModel::Ignored
            }
        },
        _ => match msg {
            Json::Array(items) => if items@.len() < 4 {
                FeedModel::Ignored
            } else {
                match items@.last() {
                    Json::Str(pair) => FeedModel::Book {
                        pair: pair@,
                        data: read_entries(items@.subrange(1, items@.len() - 2)),
                    },
                    _ => FeedModel::Ignored,
                }
            },
            _ => FeedModel::Ignored,
        },
    }
}

/// The data of a book message for one pair.
pub struct BookMessage {
    pub pair: String,
    pub snapshot: Option<(Vec<Level>, Vec<Level>)>,
    pub bid_updates: Vec<Level>,
    pub ask_updates: Vec<Level>,
}

impl BookMessage {
    /// The message carries exactly the data `d` for `pair`.
    pub open spec fn carries(&self, pair: Seq<char>, d: BookData) -> bool {
        &&& self.pair@ == pair
        &&& match self.snapshot {
            Some((bids, asks)) => d.is_snapshot && bids@ == d.snapshot_bids && asks@
                == d.snapshot_asks,
            None => !d.is_snapshot,
        }
        &&& self.bid_updates@ == d.bid_updates
        &&& self.ask_updates@ == d.ask_updates
    }

    /// All the levels of the message are well-formed.
    pub open spec fn wf(&self) -> bool {
        &&& match self.snapshot {
            Some((bids, asks)) => levels_wf(bids@) && levels_wf(asks@),
            None => true,
        }
        &&& levels_wf(self.bid_updates@)
        &&& levels_wf(self.ask_updates@)
    }
}

/// A message of the book channel, read.
pub enum FeedMessage {
    Ignored,
    UnconfirmedSubscription,
    Book(BookMessage),
}

impl FeedMessage {
    /// The message says what `m` says.
    pub open spec fn matches_model(&self, m: FeedModel) -> bool {
        match m {
            FeedModel::Ignored => *self is Ignored,
            FeedModel::UnconfirmedSubscription => *self is UnconfirmedSubscription,
            FeedModel::Book { pair, data } => match self {
                FeedMessage::Book(b) => b.carries(pair, data) && b.wf(),
                _ => false,
            },
        }
    }
}

/// Reads the data entries `items[1 .. len - 2]` of a book message.
fn read_data(items: &Vec<Json>, pair: String) -> (r: BookMessage)
    requires
        items@.len() >= 4,
    ensures
        r.carries(pair@, read_entries(items@.subrange(1, items@.len() - 2))),
        r.wf(),
{
    let key_as = "as".to_owned();
    let key_bs = "bs".to_owned();
    let key_a = "a".to_owned();
    let key_b = "b".to_owned();
    let mut snapshot_bids: Vec<Level> = Vec::new();
    let mut snapshot_asks: Vec<Level> = Vec::new();
    let mut is_snapshot = false;
    let mut bid_updates: Vec<Level> = Vec::new();
    let mut ask_updates: Vec<Level> = Vec::new();
    let end = items.len() - 2;
    let ghost entries = items@.subrange(1, end as int);
    let mut i: usize = 1;
    while i < end
        invariant
            1 <= i <= end,
            end == items@.len() - 2,
            entries == items@.subrange(1, end as int),
            key_as@ == "as"@,
            key_bs@ == "bs"@,
            key_a@ == "a"@,
            key_b@ == "b"@,
            ({
                let d = read_entries(entries.take(i - 1));
                &&& snapshot_bids@ == d.snapshot_bids
                &&& snapshot_asks@ == d.snapshot_asks
                &&& is_snapshot == d.is_snapshot
                &&& bid_updates@ == d.bid_updates
                &&& ask_updates@ == d.ask_updates
            }),
            levels_wf(snapshot_bids@),
            levels_wf(snapshot_asks@),
            levels_wf(bid_updates@),
            levels_wf(ask_updates@),
        decreases end - i,
    {
        let entry = &items[i];
        proof {
            assert(entries.take(i as int).drop_last() =~= entries.take(i - 1));
            assert(entries.take(i as int).last() == items@[i as int]);
        }
        if let Some(v) = entry.get(&key_as) {
            snapshot_asks = parse_levels(v);
            is_snapshot = true;
        }
        if let Some(v) = entry.get(&key_bs) {
            snapshot_bids = parse_levels(v);
            is_snapshot = true;
        }
        if let Some(v) = entry.get(&key_a) {
            let mut more = parse_levels(v);
            ask_updates.append(&mut more);
        }
        if let Some(v) = entry.get(&key_b) {
            let mut more = parse_levels(v);
            bid_updates.append(&mut more);
        }
        i = i + 1;
    }
    proof {
        assert(entries.take(end - 1) =~= entries);
    }
    let snapshot = if is_snapshot {
        Some((snapshot_bids, snapshot_asks))
    } else {
        None
    };
    BookMessage { pair, snapshot, bid_updates, ask_updates }
}

/// Reads a message of the book channel; see `classify`.
pub fn parse_feed_message(msg: &Json) -> (r: FeedMessage)
    ensures
        r.matches_model(classify(*msg)),
{
    let key_event = "event".to_owned();
    if let Some(Json::Str(event)) = msg.get(&key_event) {
        let key_status = "status".to_owned();
        let subscribed = "subscribed".to_owned();
        let confirmed = match msg.get(&key_status) {
            Some(Json::Str(status)) => *status == subscribed,
            _ => false,
        };
        let subscription_status = "subscriptionStatus".to_owned();
        if *event == subscription_status && !confirmed {
            return FeedMessage::UnconfirmedSubscription;
        }
        return FeedMessage::Ignored;
    }
    match msg {
        Json::Array(items) => {
            if items.len() < 4 {
                return FeedMessage::Ignored;
            }
            match &items[items.len() - 1] {
                Json::Str(pair) => FeedMessage::Book(read_data(items, pair.clone())),
                _ => FeedMessage::Ignored,
            }
        },
        _ => FeedMessage::Ignored,
    }
}

/// A snapshot (when the message has one) takes the sides from `before` to `mid`, replacing
/// them with its levels cut to depth; the updates (when there are any) then take them from
/// `mid` to `after` and cut them to depth again.
pub open spec fn book_steps(
    depth: nat,
    before_bids: Map<PriceKey, Level>,
    before_asks: Map<PriceKey, Level>,
    d: BookData,
    mid_bids: Map<PriceKey, Level>,
    mid_asks: Map<PriceKey, Level>,
    after: OrderBook,
) -> bool {
    &&& if d.is_snapshot {
        &&& keeps_highest(apply_levels(Map::empty(), d.snapshot_bids, false), mid_bids, depth)
        &&& keeps_lowest(apply_levels(Map::empty(), d.snapshot_asks, false), mid_asks, depth)
    } else {
        mid_bids == before_bids && mid_asks == before_asks
    }
    &&& if d.bid_updates.len() > 0 || d.ask_updates.len() > 0 {
        &&& keeps_highest(apply_levels(mid_bids, d.bid_updates, true), after.bids_view(), depth)
        &&& keeps_lowest(apply_levels(mid_asks, d.ask_updates, true), after.asks_view(), depth)
    } else {
        after.bids_view() == mid_bids && after.asks_view() == mid_asks
    }
}

/// The book of one pair after a book message; see `book_steps`.
pub open spec fn book_after(
    depth: nat,
    before_bids: Map<PriceKey, Level>,
    before_asks: Map<PriceKey, Level>,
    d: BookData,
    after: OrderBook,
) -> bool {
    exists|mid_bids: Map<PriceKey, Level>, mid_asks: Map<PriceKey, Level>|
        #[trigger] book_steps(depth, before_bids, before_asks, d, mid_bids, mid_asks, after)
}

/// A book message changes what the pair's book shows: it has a snapshot or some update.
pub open spec fn publishes(d: BookData) -> bool {
    d.is_snapshot || d.bid_updates.len() > 0 || d.ask_updates.len() > 0
}

/// The levels of a pair's book, published after a book message.
pub struct BookUpdate {
    pub pair: String,
    pub levels: BookLevels,
}

/// What to do after a message.
pub enum FeedAction {
    /// Nothing.
    Nothing,
    /// Warn that a subscription was not confirmed.
    WarnUnconfirmed,
    /// Publish the new levels of a pair's book.
    Publish(BookUpdate),
}

/// The books of all pairs seen on the feed, each keeping at most `depth` levels a side.
pub struct Books {
    depth: usize,
    entries: Vec<(String, OrderBook)>,
}

impl Books {
    /// The most levels each side of each book keeps.
    pub closed spec fn spec_depth(&self) -> nat {
        self.depth as nat
    }

    /// Whether the pair has a book.
    pub closed spec fn has_book(&self, pair: Seq<char>) -> bool {
        exists|i: int| 0 <= i < self.entries@.len() && #[trigger] self.entries@[i].0@ == pair
    }

    /// The book of a pair (meaningful when `has_book`).
    pub closed spec fn book(&self, pair: Seq<char>) -> OrderBook {
        let i = choose|i: int| 0 <= i < self.entries@.len() && #[trigger] self.entries@[i].0@ == pair;
        self.entries@[i].1
    }

    /// Each pair has one book, well-formed and of the common depth.
    pub closed spec fn wf(&self) -> bool {
        &&& forall|i: int, j: int|
            0 <= i < j < self.entries@.len() ==> #[trigger] self.entries@[i].0@
                != #[trigger] self.entries@[j].0@
        &&& forall|i: int|
            0 <= i < self.entries@.len() ==> (#[trigger] self.entries@[i]).1.wf()
                && self.entries@[i].1.spec_depth() == self.depth
    }

    /// Every pair's book is well-formed and keeps the common depth.
    pub proof fn lemma_books_wf(&self)
        requires
            self.wf(),
        ensures
            forall|p: Seq<char>|
                #[trigger] self.has_book(p) ==> self.book(p).wf() && self.book(p).spec_depth()
                    == self.spec_depth(),
    {
        assert forall|p: Seq<char>| #[trigger] self.has_book(p) implies self.book(p).wf()
            && self.book(p).spec_depth() == self.spec_depth() by {
            let i = choose|i: int| 0 <= i < self.entries@.len() && #[trigger] self.entries@[i].0@ == p;
            assert(self.entries@[i].1.wf());
        }
    }

    /// No books yet; each book will keep at most `depth` levels a side.
    pub fn new(depth: usize) -> (r: Self)
        ensures
            r.wf(),
            r.spec_depth() == depth,
            forall|p: Seq<char>| !r.has_book(p),
    {
        Books { depth, entries: Vec::new() }
    }

    /// The position of a pair's book.
    fn position(&self, pair: &String) -> (r: Option<usize>)
        requires
            self.wf(),
        ensures
            match r {
                Some(i) => i < self.entries@.len() && self.entries@[i as int].0@ == pair@,
                None => !self.has_book(pair@),
            },
    {
        let mut i: usize = 0;
        while i < self.entries.len()
            invariant
                0 <= i <= self.entries@.len(),
                forall|j: int| 0 <= j < i ==> self.entries@[j].0@ != pair@,
            decreases self.entries@.len() - i,
        {
            if self.entries[i].0 == *pair {
                return Some(i);
            }
            i = i + 1;
        }
        None
    }

    /// Applies a book message to its pair's book, which is created empty on the pair's first
    /// message. Returns the book's new levels when the message has a snapshot or an update.
    pub fn apply_book_message(&mut self, msg: &BookMessage) -> (r: Option<BookUpdate>)
        requires
            old(self).wf(),
            msg.wf(),
        ensures
            final(self).wf(),
            final(self).spec_depth() == old(self).spec_depth(),
            final(self).has_book(msg.pair@),
            forall|p: Seq<char>|
                p != msg.pair@ ==> (final(self).has_book(p) == old(self).has_book(p)
                    && (old(self).has_book(p) ==> final(self).book(p) == old(self).book(p))),
            forall|d: BookData|
                #[trigger] msg.carries(msg.pair@, d) ==> {
                    &&& book_after(
                        old(self).spec_depth(),
                        if old(self).has_book(msg.pair@) {
                            old(self).book(msg.pair@).bids_view()
                        } else {
                            Map::empty()
                        },
                        if old(self).has_book(msg.pair@) {
                            old(self).book(msg.pair@).asks_view()
                        } else {
                            Map::empty()
                        },
                        d,
                        final(self).book(msg.pair@),
                    )
                    &&& (r is Some <==> publishes(d))
                },
            r matches Some(u) ==> {
                &&& u.pair@ == msg.pair@
                &&& well_published(u.levels.bids@, u.levels.asks@)
                &&& lists_highest_first(
                    final(self).book(msg.pair@).bids_view(),
                    u.levels.bids@,
                    old(self).spec_depth(),
                )
                &&& lists_lowest_first(
                    final(self).book(msg.pair@).asks_view(),
                    u.levels.asks@,
                    old(self).spec_depth(),
                )
            },
    {
        let ghost old_entries = self.entries@;
        let pos = self.position(&msg.pair);
        let mut book = match pos {
            Some(i) => self.entries.remove(i).1,
            None => OrderBook::new(self.depth),
        };
        let ghost before_bids = book.bids_view();
        let ghost before_asks = book.asks_view();
        proof {
            if let Some(i) = pos {
                assert(old_entries[i as int].1 == book);
                assert(old_entries[i as int].1.wf());
                assert(old(self).book(msg.pair@) == book);
            }
        }
        if let Some((bids, asks)) = &msg.snapshot {
            book.apply_snapshot(bids.as_slice(), asks.as_slice());
        }
        let ghost mid_bids = book.bids_view();
        let ghost mid_asks = book.asks_view();
        let has_updates = msg.bid_updates.len() > 0 || msg.ask_updates.len() > 0;
        if has_updates {
            book.apply_updates(msg.bid_updates.as_slice(), msg.ask_updates.as_slice());
        }
        let update = if msg.snapshot.is_some() || has_updates {
            Some(BookUpdate { pair: msg.pair.clone(), levels: book.to_levels() })
        } else {
            None
        };
        let ghost idx: int;
        match pos {
            Some(i) => {
                self.entries.insert(i, (msg.pair.clone(), book));
                proof {
                    idx = i as int;
                    assert(self.entries@ =~= old_entries.update(i as int, (msg.pair, book)));
                }
            },
            None => {
                self.entries.push((msg.pair.clone(), book));
                proof {
                    idx = old_entries.len() as int;
                    assert(self.entries@ =~= old_entries.push((msg.pair, book)));
                }
            },
        }
        proof {
            assert(self.entries@[idx].0@ == msg.pair@);
            assert(self.entries@[idx].1 == book);
            assert(forall|j: int|
                0 <= j < self.entries@.len() && j != idx ==> self.entries@[j] == old_entries[j]);
            assert(forall|j: int|
                0 <= j < self.entries@.len() && self.entries@[j].0@ == msg.pair@ ==> j == idx);
            assert(self.book(msg.pair@) == book);
            assert forall|p: Seq<char>| p != msg.pair@ implies (self.has_book(p) == old(self).has_book(
                p,
            ) && (old(self).has_book(p) ==> self.book(p) == old(self).book(p))) by {
                if old(self).has_book(p) {
                    let j = choose|j: int|
                        0 <= j < old_entries.len() && #[trigger] old_entries[j].0@ == p;
                    assert(self.entries@[j] == old_entries[j]);
                    assert(self.has_book(p));
                    let k = choose|k: int|
                        0 <= k < self.entries@.len() && #[trigger] self.entries@[k].0@ == p;
                    assert(self.entries@[k] == old_entries[k]);
                }
                if self.has_book(p) {
                    let k = choose|k: int|
                        0 <= k < self.entries@.len() && #[trigger] self.entries@[k].0@ == p;
                    assert(self.entries@[k] == old_entries[k]);
                    assert(old(self).has_book(p));
                }
            }
            assert forall|d: BookData| msg.carries(msg.pair@, d) implies book_after(
                old(self).spec_depth(),
                if old(self).has_book(msg.pair@) {
                    old(self).book(msg.pair@).bids_view()
                } else {
                    Map::empty()
                },
                if old(self).has_book(msg.pair@) {
                    old(self).book(msg.pair@).asks_view()
                } else {
                    Map::empty()
                },
                d,
                self.book(msg.pair@),
            ) by {
                assert(before_bids == if old(self).has_book(msg.pair@) {
                    old(self).book(msg.pair@).bids_view()
                } else {
                    Map::empty()
                });
                assert(before_asks == if old(self).has_book(msg.pair@) {
                    old(self).book(msg.pair@).asks_view()
                } else {
                    Map::empty()
                });
                assert(d.bid_updates.len() > 0 || d.ask_updates.len() > 0 <==> has_updates);
                assert(book_steps(
                    old(self).spec_depth(),
                    before_bids,
                    before_asks,
                    d,
                    mid_bids,
                    mid_asks,
                    book,
                ));
            }
        }
        update
    }

    /// Handles one message of the book channel: an event changes nothing (an unconfirmed
    /// subscription asks for a warning); book data is applied to its pair's book, and the
    /// book's new levels are published when the data has a snapshot or an update.
    pub fn handle_message(&mut self, msg: &Json) -> (r: FeedAction)
        requires
            old(self).wf(),
        ensures
            final(self).wf(),
            final(self).spec_depth() == old(self).spec_depth(),
            match classify(*msg) {
                FeedModel::Ignored => r is Nothing && *final(self) == *old(self),
                FeedModel::UnconfirmedSubscription => r is WarnUnconfirmed && *final(self)
                    == *old(self),
                FeedModel::Book { pair, data } => {
                    &&& final(self).has_book(pair)
                    &&& forall|p: Seq<char>|
                        p != pair ==> (final(self).has_book(p) == old(self).has_book(p) && (
                        old(self).has_book(p) ==> final(self).book(p) == old(self).book(p)))
                    &&& book_after(
                        old(self).spec_depth(),
                        if old(self).has_book(pair) {
                            old(self).book(pair).bids_view()
                        } else {
                            Map::empty()
                        },
                        if old(self).has_book(pair) {
                            old(self).book(pair).asks_view()
                        } else {
                            Map::empty()
                        },
                        data,
                        final(self).book(pair),
                    )
                    &&& (r is Publish <==> publishes(data))
                    &&& r matches FeedAction::Publish(u) ==> {
                        &&& u.pair@ == pair
                        &&& well_published(u.levels.bids@, u.levels.asks@)
                        &&& lists_highest_first(
                            final(self).book(pair).bids_view(),
                            u.levels.bids@,
                            old(self).spec_depth(),
                        )
                        &&& lists_lowest_first(
                            final(self).book(pair).asks_view(),
                            u.levels.asks@,
                            old(self).spec_depth(),
                        )
                    }
                },
            },
    {
        match parse_feed_message(msg) {
            FeedMessage::Ignored => FeedAction::Nothing,
            FeedMessage::UnconfirmedSubscription => FeedAction::WarnUnconfirmed,
            FeedMessage::Book(b) => {
                let ghost data = match classify(*msg) {
                    FeedModel::Book { pair, data } => data,
                    _ => empty_data(),
                };
                assert(b.carries(b.pair@, data));
                match self.apply_book_message(&b) {
                    Some(u) => FeedAction::Publish(u),
                    None => FeedAction::Nothing,
                }
            },
        }
    }
}

/// The steps of a book message have one outcome: from given sides and data, the sides
/// after the message are determined.
pub proof fn lemma_book_after_unique(
    depth: nat,
    before_bids: Map<PriceKey, Level>,
    before_asks: Map<PriceKey, Level>,
    d: BookData,
    after1: OrderBook,
    after2: OrderBook,
)
    requires
        before_bids.dom().finite(),
        before_asks.dom().finite(),
        book_after(depth, before_bids, before_asks, d, after1),
        book_after(depth, before_bids, before_asks, d, after2),
    ensures
        after1.bids_view() == after2.bids_view(),
        after1.asks_view() == after2.asks_view(),
{
    let (mb1, ma1) = choose|mb: Map<PriceKey, Level>, ma: Map<PriceKey, Level>|
        #[trigger] book_steps(depth, before_bids, before_asks, d, mb, ma, after1);
    let (mb2, ma2) = choose|mb: Map<PriceKey, Level>, ma: Map<PriceKey, Level>|
        #[trigger] book_steps(depth, before_bids, before_asks, d, mb, ma, after2);
    lemma_mid_sides_agree(depth, before_bids, before_asks, d, mb1, ma1, after1, mb2, ma2, after2);
    lemma_apply_levels_finite(mb1, d.bid_updates, true);
    lemma_apply_levels_finite(ma1, d.ask_updates, true);
    if d.bid_updates.len() > 0 || d.ask_updates.len() > 0 {
        lemma_keeps_highest_unique(
            apply_levels(mb1, d.bid_updates, true),
            after1.bids_view(),
            after2.bids_view(),
            depth,
        );
        lemma_keeps_lowest_unique(
            apply_levels(ma1, d.ask_updates, true),
            after1.asks_view(),
            after2.asks_view(),
            depth,
        );
    }
}

/// The sides after a snapshot, before any update, agree whatever the book held.
proof fn lemma_mid_sides_agree(
    depth: nat,
    before_bids: Map<PriceKey, Level>,
    before_asks: Map<PriceKey, Level>,
    d: BookData,
    mb1: Map<PriceKey, Level>,
    ma1: Map<PriceKey, Level>,
    after1: OrderBook,
    mb2: Map<PriceKey, Level>,
    ma2: Map<PriceKey, Level>,
    after2: OrderBook,
)
    requires
        before_bids.dom().finite(),
        before_asks.dom().finite(),
        book_steps(depth, before_bids, before_asks, d, mb1, ma1, after1),
        book_steps(depth, before_bids, before_asks, d, mb2, ma2, after2),
    ensures
        mb1 == mb2,
        ma1 == ma2,
        mb1.dom().finite(),
        ma1.dom().finite(),
{
    if d.is_snapshot {
        lemma_apply_levels_finite(Map::empty(), d.snapshot_bids, false);
        lemma_apply_levels_finite(Map::empty(), d.snapshot_asks, false);
        lemma_keeps_highest_unique(apply_levels(Map::empty(), d.snapshot_bids, false), mb1, mb2, depth);
        lemma_keeps_lowest_unique(apply_levels(Map::empty(), d.snapshot_asks, false), ma1, ma2, depth);
        lemma_cut_finite(apply_levels(Map::empty(), d.snapshot_bids, false), mb1, depth);
        lemma_cut_finite(apply_levels(Map::empty(), d.snapshot_asks, false), ma1, depth);
    }
}

/// A snapshot forgets what the book held: after a message with a snapshot, the sides are the
/// same whatever they were before.
pub proof fn lemma_snapshot_forgets_history(
    depth: nat,
    bids1: Map<PriceKey, Level>,
    asks1: Map<PriceKey, Level>,
    bids2: Map<PriceKey, Level>,
    asks2: Map<PriceKey, Level>,
    d: BookData,
    after1: OrderBook,
    after2: OrderBook,
)
    requires
        d.is_snapshot,
        book_after(depth, bids1, asks1, d, after1),
        book_after(depth, bids2, asks2, d, after2),
    ensures
        after1.bids_view() == after2.bids_view(),
        after1.asks_view() == after2.asks_view(),
{
    let (mb1, ma1) = choose|mb: Map<PriceKey, Level>, ma: Map<PriceKey, Level>|
        #[trigger] book_steps(depth, bids1, asks1, d, mb, ma, after1);
    let (mb2, ma2) = choose|mb: Map<PriceKey, Level>, ma: Map<PriceKey, Level>|
        #[trigger] book_steps(depth, bids2, asks2, d, mb, ma, after2);
    lemma_apply_levels_finite(Map::empty(), d.snapshot_bids, false);
    lemma_apply_levels_finite(Map::empty(), d.snapshot_asks, false);
    lemma_keeps_highest_unique(apply_levels(Map::empty(), d.snapshot_bids, false), mb1, mb2, depth);
    lemma_keeps_lowest_unique(apply_levels(Map::empty(), d.snapshot_asks, false), ma1, ma2, depth);
    lemma_cut_finite(apply_levels(Map::empty(), d.snapshot_bids, false), mb1, depth);
    lemma_cut_finite(apply_levels(Map::empty(), d.snapshot_asks, false), ma1, depth);
    lemma_apply_levels_finite(mb1, d.bid_updates, true);
    lemma_apply_levels_finite(ma1, d.ask_updates, true);
    if d.bid_updates.len() > 0 || d.ask_updates.len() > 0 {
        lemma_keeps_highest_unique(
            apply_levels(mb1, d.bid_updates, true),
            after1.bids_view(),
            after2.bids_view(),
            depth,
        );
        lemma_keeps_lowest_unique(
            apply_levels(ma1, d.ask_updates, true),
            after1.asks_view(),
            after2.asks_view(),
            depth,
        );
    }
}

/// The levels under a member of an entry, or none when the entry lacks the member.
pub open spec fn member_levels(entry: Json, key: Seq<char>) -> Seq<Level> {
    match member(entry, key) {
        Some(v) => levels_of(v),
        None => Seq::empty(),
    }
}

/// What one data entry contributes, member by member and whatever other members it holds:
/// `a` and `b` add their levels to the ask and bid updates; `as` and `bs` replace the
/// snapshot's asks and bids and make the message a snapshot; without them the snapshot sides
/// stay as they were.
pub proof fn lemma_read_entry_members(d: BookData, entry: Json)
    ensures
        read_entry(d, entry).ask_updates == d.ask_updates + member_levels(entry, "a"@),
        read_entry(d, entry).bid_updates == d.bid_updates + member_levels(entry, "b"@),
        read_entry(d, entry).snapshot_asks == if member(entry, "as"@) is Some {
            member_levels(entry, "as"@)
        } else {
            d.snapshot_asks
        },
        read_entry(d, entry).snapshot_bids == if member(entry, "bs"@) is Some {
            member_levels(entry, "bs"@)
        } else {
            d.snapshot_bids
        },
        read_entry(d, entry).is_snapshot == (d.is_snapshot || member(entry, "as"@) is Some || member(
            entry,
            "bs"@,
        ) is Some),
{
    assert(d.ask_updates + Seq::<Level>::empty() =~= d.ask_updates);
    assert(d.bid_updates + Seq::<Level>::empty() =~= d.bid_updates);
}

/// The updates of a book message are those of its entries, in order: reading one more entry
/// appends that entry's `a` and `b` levels.
pub proof fn lemma_read_entries_appends(entries: Seq<Json>, entry: Json)
    ensures
        read_entries(entries.push(entry)).ask_updates == read_entries(entries).ask_updates
            + member_levels(entry, "a"@),
        read_entries(entries.push(entry)).bid_updates == read_entries(entries).bid_updates
            + member_levels(entry, "b"@),
{
    assert(entries.push(entry).drop_last() =~= entries);
    lemma_read_entry_members(read_entries(entries), entry);
}

} // verus!
