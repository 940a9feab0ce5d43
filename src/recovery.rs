use vstd::prelude::*;
use crate::order::{Order, OrderView, Side, copy_orders, views};
use crate::message::{IncrementalMessage, MessageView, RecoveryFeed, message_views, state_views};
use crate::book::{BookView, better, book_wf, lemma_level_map_at, lemma_level_map_insert, lemma_level_map_remove, lemma_level_map_update, lemma_sorted_distinct, level_map, opposite, orders_at, prices_distinct, side_of, side_wf};
use crate::level::LevelView;

verus! {

/// The replica that the recovery side keeps, as values: each side as a
/// mapping from price to orders, and the newest sequence number folded in.
pub struct ReplicaView {
    pub bids: Map<int, Seq<OrderView>>,
    pub asks: Map<int, Seq<OrderView>>,
    pub last: int,
}

pub open spec fn empty_replica() -> ReplicaView {
    ReplicaView { bids: Map::empty(), asks: Map::empty(), last: 0 }
}

/// Folding one message: the level at its price is replaced on the side of
/// its first order, or, when it lists no order, the price leaves both sides.
pub open spec fn fold_message(r: ReplicaView, m: MessageView) -> ReplicaView {
    if m.orders.len() > 0 {
        if m.orders[0].side == Side::Buy {
            ReplicaView { bids: r.bids.insert(m.price, m.orders), last: m.seq, ..r }
        } else {
            ReplicaView { asks: r.asks.insert(m.price, m.orders), last: m.seq, ..r }
        }
    } else {
        ReplicaView { bids: r.bids.remove(m.price), asks: r.asks.remove(m.price), last: m.seq }
    }
}

/// Folding messages in order into an empty replica.
pub open spec fn replay(ms: Seq<MessageView>) -> ReplicaView
    decreases ms.len(),
{
    if ms.len() == 0 {
        empty_replica()
    } else {
        fold_message(replay(ms.drop_last()), ms.last())
    }
}

/// Whether a replica holds exactly the levels of a book.
pub open spec fn mirrors(r: ReplicaView, b: BookView) -> bool {
    r.bids == level_map(b.bids) && r.asks == level_map(b.asks)
}

/// No price is on both sides.
pub open spec fn sides_disjoint(b: BookView) -> bool {
    forall|p: int| !(level_map(b.bids).contains_key(p) && #[trigger] level_map(b.asks).contains_key(p))
}

pub proof fn lemma_wf_disjoint(b: BookView)
    requires
        book_wf(b),
    ensures
        sides_disjoint(b),
        prices_distinct(b.bids),
        prices_distinct(b.asks),
{
    lemma_sorted_distinct(Side::Buy, b.bids);
    lemma_sorted_distinct(Side::Sell, b.asks);
    assert forall|p: int| !(level_map(b.bids).contains_key(p) && #[trigger] level_map(b.asks).contains_key(p)) by {
        if level_map(b.bids).contains_key(p) && level_map(b.asks).contains_key(p) {
            let i = choose|i: int| 0 <= i < b.bids.len() && b.bids[i].price == p;
            let j = choose|j: int| 0 <= j < b.asks.len() && b.asks[j].price == p;
            if i > 0 {
                assert(better(Side::Buy, b.bids[0].price, b.bids[i].price));
            }
            if j > 0 {
                assert(better(Side::Sell, b.asks[0].price, b.asks[j].price));
            }
        }
    }
}

/// The orders that `level_map` gives for a price of a well-formed side are
/// those of its level: not empty, all of the side.
pub proof fn lemma_level_map_side(s: Side, levels: Seq<LevelView>, p: int)
    requires
        side_wf(s, levels),
        level_map(levels).contains_key(p),
    ensures
        level_map(levels)[p].len() > 0,
        level_map(levels)[p][0].side == s,
{
    lemma_sorted_distinct(s, levels);
    let i = choose|i: int| 0 <= i < levels.len() && levels[i].price == p;
    lemma_level_map_at(levels, i);
    assert(levels[i].orders[0] == levels[i].orders[0]);
}

/// A message that gives the new content of the one level that changed keeps
/// a replica that mirrored the book before in step with the book after.
pub proof fn lemma_fold_tracks(r: ReplicaView, b0: BookView, b1: BookView, s: Side, p: int, seq: int)
    requires
        mirrors(r, b0),
        sides_disjoint(b0),
        sides_disjoint(b1),
        side_wf(Side::Buy, b1.bids),
        side_wf(Side::Sell, b1.asks),
        side_of(b1, opposite(s)) == side_of(b0, opposite(s)),
        level_map(side_of(b1, s)).remove(p) == level_map(side_of(b0, s)).remove(p),
        level_map(side_of(b0, s)).contains_key(p) || level_map(side_of(b1, s)).contains_key(p),
    ensures
        mirrors(fold_message(r, MessageView { seq, price: p, orders: orders_at(b1, p) }), b1),
        fold_message(r, MessageView { seq, price: p, orders: orders_at(b1, p) }).last == seq,
{
    let m = MessageView { seq, price: p, orders: orders_at(b1, p) };
    let r1 = fold_message(r, m);
    let m0 = level_map(side_of(b0, s));
    let m1 = level_map(side_of(b1, s));
    if level_map(b1.bids).contains_key(p) {
        lemma_level_map_side(Side::Buy, b1.bids, p);
    } else if level_map(b1.asks).contains_key(p) {
        lemma_level_map_side(Side::Sell, b1.asks, p);
    }
    if m1.contains_key(p) {
        assert(m1 =~= m0.insert(p, m1[p])) by {
            assert(m1.remove(p).dom() == m0.remove(p).dom());
            assert forall|q: int| q != p implies (m1.contains_key(q) <==> m0.contains_key(q)) by {
                assert(m1.remove(p).contains_key(q) == m0.remove(p).contains_key(q));
            }
            assert forall|q: int| q != p && m1.contains_key(q) implies m1[q] == m0[q] by {
                assert(m1.remove(p)[q] == m0.remove(p)[q]);
            }
        }
    } else {
        assert(m1 =~= m0.remove(p)) by {
            assert forall|q: int| q != p implies (m1.contains_key(q) <==> m0.contains_key(q)) by {
                assert(m1.remove(p).contains_key(q) == m0.remove(p).contains_key(q));
            }
            assert forall|q: int| q != p && m1.contains_key(q) implies m1[q] == m0[q] by {
                assert(m1.remove(p)[q] == m0.remove(p)[q]);
            }
        }
        let o = level_map(side_of(b0, opposite(s)));
        assert(!o.contains_key(p)) by {
            match s {
                Side::Buy => {
                    assert(!(level_map(b0.bids).contains_key(p) && level_map(b0.asks).contains_key(p)));
                },
                Side::Sell => {
                    assert(!(level_map(b0.bids).contains_key(p) && level_map(b0.asks).contains_key(p)));
                },
            }
        }
        assert(o.remove(p) =~= o);
    }
    assert(mirrors(r1, b1));
}

/// One more message, giving the new content of the one level that changed
/// between two well-formed books, keeps the replay in step with the book.
pub proof fn lemma_replay_step(h: Seq<MessageView>, b0: BookView, b1: BookView, s: Side, p: int, seq: int)
    requires
        mirrors(replay(h), b0),
        book_wf(b0),
        book_wf(b1),
        side_of(b1, opposite(s)) == side_of(b0, opposite(s)),
        level_map(side_of(b1, s)).remove(p) == level_map(side_of(b0, s)).remove(p),
        level_map(side_of(b0, s)).contains_key(p) || level_map(side_of(b1, s)).contains_key(p),
    ensures
        mirrors(replay(h.push(MessageView { seq, price: p, orders: orders_at(b1, p) })), b1),
{
    let m = MessageView { seq, price: p, orders: orders_at(b1, p) };
    lemma_wf_disjoint(b0);
    lemma_wf_disjoint(b1);
    lemma_fold_tracks(replay(h), b0, b1, s, p, seq);
    assert(h.push(m).drop_last() =~= h);
}

/// Levels by strictly rising price.
pub open spec fn ascending(levels: Seq<LevelView>) -> bool {
    forall|i: int, j: int| 0 <= i < j < levels.len() ==> #[trigger] levels[i].price < #[trigger] levels[j].price
}

/// The order lists of levels, in the same order.
pub open spec fn level_orders(levels: Seq<LevelView>) -> Seq<Seq<OrderView>> {
    levels.map_values(|l: LevelView| l.orders)
}

/// Folding messages in order into a replica.
pub open spec fn fold_all(r: ReplicaView, ms: Seq<MessageView>) -> ReplicaView
    decreases ms.len(),
{
    if ms.len() == 0 {
        r
    } else {
        fold_message(fold_all(r, ms.drop_last()), ms.last())
    }
}

/// Replaying a history and then more messages is folding those messages
/// into the replay of the history.
pub proof fn lemma_replay_append(h: Seq<MessageView>, ms: Seq<MessageView>)
    ensures
        replay(h + ms) == fold_all(replay(h), ms),
    decreases ms.len(),
{
    if ms.len() == 0 {
        assert(h + ms =~= h);
    } else {
        lemma_replay_append(h, ms.drop_last());
        assert((h + ms).drop_last() =~= h + ms.drop_last());
        assert((h + ms).last() == ms.last());
    }
}

/// One level of the replica.
pub struct ReplicaLevel {
    price: i64,
    orders: Vec<Order>,
}

impl View for ReplicaLevel {
    type V = LevelView;

    closed spec fn view(&self) -> LevelView {
        LevelView { price: self.price as int, orders: views(self.orders@) }
    }
}

pub open spec fn replica_levels(v: Seq<ReplicaLevel>) -> Seq<LevelView> {
    v.map_values(|l: ReplicaLevel| l@)
}

proof fn lemma_ascending_distinct(levels: Seq<LevelView>)
    requires
        ascending(levels),
    ensures
        prices_distinct(levels),
{
    assert forall|i: int, j: int| 0 <= i < j < levels.len() implies levels[i].price != levels[j].price by {
        assert(levels[i].price < levels[j].price);
    }
}

/// The index of the first level whose price is not below `price`.
fn seek(levels: &Vec<ReplicaLevel>, price: i64) -> (i: usize)
    ensures
        i <= levels@.len(),
        forall|j: int| 0 <= j < i ==> (#[trigger] levels@[j])@.price < price,
        i < levels@.len() ==> levels@[i as int]@.price >= price,
{
    let mut i: usize = 0;
    while i < levels.len() && levels[i].price < price
        invariant
            i <= levels@.len(),
            forall|j: int| 0 <= j < i ==> (#[trigger] levels@[j])@.price < price,
        decreases levels@.len() - i,
    {
        i = i + 1;
    }
    i
}

/// Sets the orders at the price, adding the level where there was none.
fn put_level(levels: &mut Vec<ReplicaLevel>, price: i64, orders: Vec<Order>)
    requires
        ascending(replica_levels(old(levels)@)),
    ensures
        ascending(replica_levels(final(levels)@)),
        level_map(replica_levels(final(levels)@)) == level_map(replica_levels(old(levels)@)).insert(
            price as int,
            views(orders@),
        ),
{
    let ghost lv = replica_levels(levels@);
    let ghost l = LevelView { price: price as int, orders: views(orders@) };
    proof { lemma_ascending_distinct(lv); }
    let i = seek(levels, price);
    proof {
        assert forall|j: int| 0 <= j < i implies lv[j].price < price by {
            assert(lv[j] == levels@[j]@);
        }
        if i < lv.len() {
            assert(lv[i as int] == levels@[i as int]@);
        }
    }
    if i < levels.len() && levels[i].price == price {
        levels.remove(i);
        levels.insert(i, ReplicaLevel { price, orders });
        proof {
            assert(replica_levels(levels@) =~= lv.update(i as int, l));
            lemma_level_map_update(lv, i as int, l);
        }
    } else {
        levels.insert(i, ReplicaLevel { price, orders });
        proof {
            assert(replica_levels(levels@) =~= lv.insert(i as int, l));
            assert forall|j: int| 0 <= j < lv.len() implies lv[j].price != price by {
                if j > i as int {
                    assert(lv[i as int].price < lv[j].price);
                }
            }
            lemma_level_map_insert(lv, i as int, l);
            let n = lv.insert(i as int, l);
            assert forall|a: int, b: int| 0 <= a < b < n.len() implies #[trigger] n[a].price < #[trigger] n[b].price by {
                if a < i && b > i {
                    if b - 1 > i as int {
                        assert(lv[i as int].price < lv[b - 1].price);
                    }
                } else if a == i && b - 1 > i as int {
                    assert(lv[i as int].price < lv[b - 1].price);
                } else if a > i {
                    assert(lv[a - 1].price < lv[b - 1].price);
                } else if a < i && b < i {
                    assert(lv[a].price < lv[b].price);
                }
            }
        }
    }
}

/// Removes the level at the price, if there is one.
fn drop_level(levels: &mut Vec<ReplicaLevel>, price: i64)
    requires
        ascending(replica_levels(old(levels)@)),
    ensures
        ascending(replica_levels(final(levels)@)),
        level_map(replica_levels(final(levels)@)) == level_map(replica_levels(old(levels)@)).remove(
            price as int,
        ),
{
    let ghost lv = replica_levels(levels@);
    proof { lemma_ascending_distinct(lv); }
    let i = seek(levels, price);
    proof {
        if i < lv.len() {
            assert(lv[i as int] == levels@[i as int]@);
        }
    }
    if i < levels.len() && levels[i].price == price {
        levels.remove(i);
        proof {
            assert(replica_levels(levels@) =~= lv.remove(i as int));
            lemma_level_map_remove(lv, i as int);
            let n = lv.remove(i as int);
            assert forall|a: int, b: int| 0 <= a < b < n.len() implies #[trigger] n[a].price < #[trigger] n[b].price by {
                let a1 = if a < i { a } else { a + 1 };
                let b1 = if b < i { b } else { b + 1 };
                assert(lv[a1].price < lv[b1].price);
            }
        }
    } else {
        proof {
            assert forall|j: int| 0 <= j < lv.len() implies lv[j].price != price by {
                if j < i {
                    assert(lv[j] == levels@[j]@);
                } else if j > i {
                    assert(lv[i as int].price < lv[j].price);
                }
            }
            assert(level_map(lv).remove(price as int) =~= level_map(lv));
        }
    }
}

/// The replica kept by the recovery side: every level of both sides, by
/// rising price, and the newest sequence number folded in.
pub struct RecoveryBook {
    bids: Vec<ReplicaLevel>,
    asks: Vec<ReplicaLevel>,
    last_msg: i64,
}

impl View for RecoveryBook {
    type V = ReplicaView;

    closed spec fn view(&self) -> ReplicaView {
        ReplicaView {
            bids: level_map(replica_levels(self.bids@)),
            asks: level_map(replica_levels(self.asks@)),
            last: self.last_msg as int,
        }
    }
}

impl RecoveryBook {
    /// The bid levels, by rising price.
    pub closed spec fn bid_levels(&self) -> Seq<LevelView> {
        replica_levels(self.bids@)
    }

    /// The ask levels, by rising price.
    pub closed spec fn ask_levels(&self) -> Seq<LevelView> {
        replica_levels(self.asks@)
    }

    /// Both sides are kept by rising price, and they are what the view maps.
    pub open spec fn wf(&self) -> bool {
        &&& ascending(self.bid_levels())
        &&& ascending(self.ask_levels())
        &&& self@.bids == level_map(self.bid_levels())
        &&& self@.asks == level_map(self.ask_levels())
    }

    pub fn new() -> (r: RecoveryBook)
        ensures
            r.wf(),
            r@ == empty_replica(),
    {
        let r = RecoveryBook { bids: Vec::new(), asks: Vec::new(), last_msg: 0 };
        proof {
            assert(r.bid_levels() =~= Seq::empty());
            assert(r.ask_levels() =~= Seq::empty());
            assert(level_map(Seq::<LevelView>::empty()) =~= Map::empty());
        }
        r
    }

    /// Folds one incremental message into the replica.
    pub fn apply(&mut self, msg: &IncrementalMessage)
        requires
            old(self).wf(),
        ensures
            final(self).wf(),
            final(self)@ == fold_message(old(self)@, msg@),
    {
        let price = msg.get_price();
        let orders = msg.get_orders();
        self.last_msg = msg.get_num();
        if orders.len() > 0 {
            let side = orders[0].get_side();
            proof { assert(views(orders@)[0] == orders@[0]@); }
            match side {
                Side::Buy => put_level(&mut self.bids, price, orders),
                Side::Sell => put_level(&mut self.asks, price, orders),
            }
        } else {
            drop_level(&mut self.bids, price);
            drop_level(&mut self.asks, price);
        }
        proof {
            assert(self@ =~= fold_message(old(self)@, msg@));
        }
    }

    /// A replica made by folding the messages, in order, into an empty one.
    pub fn from_messages(msgs: &Vec<IncrementalMessage>) -> (r: RecoveryBook)
        ensures
            r.wf(),
            r@ == replay(message_views(msgs@)),
    {
        let mut r = RecoveryBook::new();
        let mut i: usize = 0;
        while i < msgs.len()
            invariant
                i <= msgs@.len(),
                r.wf(),
                r@ == replay(message_views(msgs@).take(i as int)),
            decreases msgs@.len() - i,
        {
            r.apply(&msgs[i]);
            proof {
                let ms = message_views(msgs@);
                assert(ms.take(i + 1).drop_last() =~= ms.take(i as int));
            }
            i = i + 1;
        }
        proof {
            assert(message_views(msgs@).take(i as int) =~= message_views(msgs@));
        }
        r
    }

    /// The snapshot of the replica: its newest sequence number and the orders
    /// of every bid level by rising price, then of every ask level likewise.
    pub fn snapshot(&self) -> (r: RecoveryFeed)
        requires
            self.wf(),
        ensures
            r@.last_msg == self@.last,
            r@.state == level_orders(self.bid_levels()) + level_orders(self.ask_levels()),
    {
        let ghost want = level_orders(self.bid_levels()) + level_orders(self.ask_levels());
        let ghost nb = self.bids@.len() as int;
        let mut state: Vec<Vec<Order>> = Vec::new();
        let mut i: usize = 0;
        while i < self.bids.len()
            invariant
                i <= self.bids@.len(),
                nb == self.bids@.len(),
                want == level_orders(self.bid_levels()) + level_orders(self.ask_levels()),
                state@.len() == i,
                forall|x: int| 0 <= x < i ==> views((#[trigger] state@[x])@) == want[x],
            decreases self.bids@.len() - i,
        {
            state.push(copy_orders(&self.bids[i].orders));
            proof {
                assert(self.bid_levels()[i as int] == self.bids@[i as int]@);
            }
            i = i + 1;
        }
        let mut j: usize = 0;
        while j < self.asks.len()
            invariant
                nb == self.bids@.len(),
                j <= self.asks@.len(),
                want == level_orders(self.bid_levels()) + level_orders(self.ask_levels()),
                state@.len() == nb + j,
                forall|x: int| 0 <= x < nb + j ==> views((#[trigger] state@[x])@) == want[x],
            decreases self.asks@.len() - j,
        {
            state.push(copy_orders(&self.asks[j].orders));
            proof {
                assert(self.ask_levels()[j as int] == self.asks@[j as int]@);
            }
            j = j + 1;
        }
        proof {
            assert(state_views(state@) =~= want);
        }
        RecoveryFeed::new(self.last_msg, state)
    }

    /// The sequence number of the newest message folded in.
    pub fn last_applied(&self) -> (r: i64)
        ensures
            r as int == self@.last,
    {
        self.last_msg
    }
}

} // verus!
