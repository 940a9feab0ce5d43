use vstd::prelude::*;
use crate::order::{Order, OrderView, Side, views};
use crate::level::{PriceLevel, LevelView, has_id, distinct_ids, after_fill};
use crate::message::{IncrementalMessage, MessageView, message_views};
use crate::book::{
    BookView, Change, book_wf, ids_below, found_at, holds_at, rests, remove_order, lemma_remove_order,
    better, marketable, opposite, can_match, trade_qty, fill_best, match_loop, rest_in, insert_outcome,
    numbered, lemma_fill_best, lemma_rest_in, lemma_rest_in_at, amend, amended, lemma_amend,
    lemma_found_unique, ids_unique, lemma_unique_after, lemma_ids_remove_order, lemma_ids_fill_best,
    lemma_ids_amend, lemma_ids_rest_in, lemma_below_not_in, level_map, lemma_level_map_at, lemma_sorted_distinct, orders_at,
    order_count, side_of, with_side,
};
use crate::recovery::{mirrors, replay, lemma_replay_step, fold_all, lemma_replay_append};

verus! {

/// Why a request was refused.
#[derive(Clone, Copy, PartialEq, Eq, Structural, Debug)]
pub enum EngineError {
    /// No order with that id rests in the book.
    NotFound,
    /// A quantity or a price that is not positive.
    InvalidArgument,
}

pub open spec fn levels_view(v: Seq<PriceLevel>) -> Seq<LevelView> {
    v.map_values(|l: PriceLevel| l@)
}

/// The index of the level with the price, if there is one.
fn level_index(levels: &Vec<PriceLevel>, price: i64) -> (r: Option<usize>)
    ensures
        r matches Some(i) ==> i < levels@.len() && levels@[i as int]@.price == price,
        r is None ==> forall|i: int| 0 <= i < levels@.len() ==> (#[trigger] levels@[i])@.price != price,
{
    let mut i: usize = 0;
    while i < levels.len()
        invariant
            i <= levels@.len(),
            forall|j: int| 0 <= j < i ==> (#[trigger] levels@[j])@.price != price,
        decreases levels@.len() - i,
    {
        if levels[i].get_price() == price {
            return Some(i);
        }
        i = i + 1;
    }
    None
}

/// The first level that holds an order with the id, and a copy of it.
fn locate(levels: &Vec<PriceLevel>, id: i64) -> (r: Option<(usize, Order)>)
    requires
        forall|j: int| 0 <= j < levels@.len() ==> (#[trigger] levels@[j]).wf(),
    ensures
        r matches Some((i, o)) ==> {
            &&& i < levels@.len()
            &&& has_id(levels@[i as int]@.orders, id as int)
            &&& forall|j: int| 0 <= j < i ==> !has_id((#[trigger] levels@[j])@.orders, id as int)
            &&& forall|k: int|
                0 <= k < levels@[i as int]@.orders.len() && levels@[i as int]@.orders[k].id == id ==> o@
                    == levels@[i as int]@.orders[k]
        },
        r is None ==> forall|j: int| 0 <= j < levels@.len() ==> !has_id((#[trigger] levels@[j])@.orders, id as int),
{
    let mut i: usize = 0;
    while i < levels.len()
        invariant
            i <= levels@.len(),
            forall|j: int| 0 <= j < levels@.len() ==> (#[trigger] levels@[j]).wf(),
            forall|j: int| 0 <= j < i ==> !has_id((#[trigger] levels@[j])@.orders, id as int),
        decreases levels@.len() - i,
    {
        match levels[i].find(id) {
            Some(o) => {
                return Some((i, o));
            },
            None => {},
        }
        i = i + 1;
    }
    None
}

/// Takes the order with the id out of level `i`; a level left empty goes.
/// Gives the order and the level's price.
fn remove_from(levels: &mut Vec<PriceLevel>, i: usize, id: i64) -> (r: (Option<Order>, i64))
    requires
        i < old(levels)@.len(),
        forall|j: int| 0 <= j < old(levels)@.len() ==> (#[trigger] old(levels)@[j]).wf(),
        has_id(old(levels)@[i as int]@.orders, id as int),
    ensures
        forall|j: int| 0 <= j < final(levels)@.len() ==> (#[trigger] final(levels)@[j]).wf(),
        r.1 as int == old(levels)@[i as int]@.price,
        forall|k: int|
            0 <= k < old(levels)@[i as int]@.orders.len() && old(levels)@[i as int]@.orders[k].id == id
                ==> r.0 is Some && r.0->0@ == old(levels)@[i as int]@.orders[k] && levels_view(final(levels)@)
                == remove_order(levels_view(old(levels)@), i as int, k),
{
    let removed = levels[i].remove(id);
    let price = levels[i].get_price();
    let empty = levels[i].is_empty();
    proof { old(levels)@[i as int].lemma_distinct(); }
    if empty {
        levels.remove(i);
    }
    proof {
        let lv = levels_view(old(levels)@);
        assert forall|k: int|
            0 <= k < lv[i as int].orders.len() && lv[i as int].orders[k].id == id implies levels_view(levels@)
                == remove_order(lv, i as int, k) by {
            if empty {
                assert(levels_view(levels@) =~= lv.remove(i as int));
            } else {
                assert(levels_view(levels@) =~= lv.update(
                    i as int,
                    LevelView { orders: lv[i as int].orders.remove(k), ..lv[i as int] },
                ));
            }
        }
    }
    (removed, price)
}

/// Whether price `p` has priority over price `q` on the side.
fn price_better(side: Side, p: i64, q: i64) -> (r: bool)
    ensures
        r == better(side, p as int, q as int),
{
    match side {
        Side::Buy => p > q,
        Side::Sell => p < q,
    }
}

/// Whether an incoming order of the side at `price` trades with an order
/// resting at `resting`.
fn crosses(side: Side, price: i64, resting: i64) -> (r: bool)
    ensures
        r == marketable(side, price as int, resting as int),
{
    match side {
        Side::Buy => price >= resting,
        Side::Sell => price <= resting,
    }
}

/// Trades up to `qty` with the front order of the best level; a level left
/// empty goes. Gives what was traded.
fn trade_best(levels: &mut Vec<PriceLevel>, qty: i64) -> (t: i64)
    requires
        old(levels)@.len() > 0,
        forall|j: int| 0 <= j < old(levels)@.len() ==> (#[trigger] old(levels)@[j]).wf(),
        old(levels)@[0]@.orders.len() > 0,
        old(levels)@[0]@.orders[0].qty > 0,
        qty > 0,
    ensures
        forall|j: int| 0 <= j < final(levels)@.len() ==> (#[trigger] final(levels)@[j]).wf(),
        levels_view(final(levels)@) == fill_best(levels_view(old(levels)@), qty as int),
        t as int == if old(levels)@[0]@.orders[0].qty <= qty {
            old(levels)@[0]@.orders[0].qty
        } else {
            qty as int
        },
{
    let t = levels[0].fill_front(qty);
    let empty = levels[0].is_empty();
    if empty {
        levels.remove(0);
    }
    proof {
        let lv = levels_view(old(levels)@);
        assert(lv[0] == old(levels)@[0]@);
        if empty {
            assert(levels_view(levels@) =~= lv.drop_first());
        } else {
            assert(levels_view(levels@) =~= lv.update(
                0,
                LevelView { orders: after_fill(lv[0].orders, qty as int), ..lv[0] },
            ));
        }
    }
    t
}

/// Puts an order at the back of the level of its price, or alone in a new
/// level placed by priority.
fn rest_order(levels: &mut Vec<PriceLevel>, side: Side, o: Order)
    requires
        forall|j: int| 0 <= j < old(levels)@.len() ==> (#[trigger] old(levels)@[j]).wf(),
        ids_below(levels_view(old(levels)@), o@.id),
    ensures
        forall|j: int| 0 <= j < final(levels)@.len() ==> (#[trigger] final(levels)@[j]).wf(),
        levels_view(final(levels)@) == rest_in(levels_view(old(levels)@), side, o@),
{
    let ghost lv = levels_view(levels@);
    let price = o.get_price();
    let mut i: usize = 0;
    while i < levels.len() && price_better(side, levels[i].get_price(), price)
        invariant
            i <= levels@.len(),
            levels@ == old(levels)@,
            lv == levels_view(levels@),
            forall|j: int| 0 <= j < i ==> better(side, #[trigger] lv[j].price, price as int),
        decreases levels@.len() - i,
    {
        assert(lv[i as int] == levels@[i as int]@);
        i = i + 1;
    }
    proof {
        if i < lv.len() {
            assert(lv[i as int] == levels@[i as int]@);
        }
        lemma_rest_in_at(lv, side, o@, i as int);
    }
    if i < levels.len() && levels[i].get_price() == price {
        proof {
            assert(lv[i as int] == levels@[i as int]@);
            assert forall|k: int| 0 <= k < lv[i as int].orders.len() implies lv[i as int].orders[k].id != o@.id by {
                assert(0 <= lv[i as int].orders[k].id < o@.id);
            }
        }
        let ghost ov = o@;
        levels[i].push_back(o);
        proof {
            assert(levels_view(levels@) =~= lv.update(
                i as int,
                LevelView { orders: lv[i as int].orders.push(ov), ..lv[i as int] },
            ));
        }
    } else {
        let ghost ov = o@;
        let l = PriceLevel::new(price, o);
        levels.insert(i, l);
        proof {
            assert(levels_view(levels@) =~= lv.insert(i as int, crate::book::single_level(ov)));
        }
    }
}

/// Changes the quantity of order `k` (the one with the id) of level `i`: a
/// larger quantity sends it to the back with the time stamp of `stamp`.
/// Gives the order as it now is.
fn amend_in(levels: &mut Vec<PriceLevel>, i: usize, id: i64, qty: i64, stamp: &Order, k: Ghost<int>) -> (r: Order)
    requires
        i < old(levels)@.len(),
        forall|j: int| 0 <= j < old(levels)@.len() ==> (#[trigger] old(levels)@[j]).wf(),
        0 <= k@ < old(levels)@[i as int]@.orders.len(),
        old(levels)@[i as int]@.orders[k@].id == id,
    ensures
        forall|j: int| 0 <= j < final(levels)@.len() ==> (#[trigger] final(levels)@[j]).wf(),
        levels_view(final(levels)@) == amend(levels_view(old(levels)@), i as int, k@, qty as int, stamp@.transact_time),
        r@ == amended(old(levels)@[i as int]@.orders[k@], qty as int, stamp@.transact_time),
{
    let ghost lv = levels_view(levels@);
    let ghost os = lv[i as int].orders;
    proof {
        assert(lv[i as int] == levels@[i as int]@);
        levels@[i as int].lemma_distinct();
    }
    let e = match levels[i].find(id) {
        Some(e) => e,
        None => {
            proof { assert(os[k@].id == id); }
            return stamp.duplicate();
        },
    };
    assert(e@ == os[k@]);
    let mut n = e;
    if qty > n.get_qty() {
        n.set_qty(qty);
        let time = stamp.get_transact_time();
        n.set_transact_time(&time);
        let res = n.duplicate();
        let ghost nv = n@;
        levels[i].remove(id);
        proof {
            assert(levels@[i as int]@.orders == os.remove(k@));
            assert forall|j: int| 0 <= j < os.remove(k@).len() implies os.remove(k@)[j].id != id by {
                if j < k@ {
                    assert(os[j].id != os[k@].id);
                } else {
                    assert(os[k@].id != os[j + 1].id);
                }
            }
        }
        levels[i].push_back(n);
        proof {
            assert(levels_view(levels@) =~= amend(lv, i as int, k@, qty as int, stamp@.transact_time));
        }
        res
    } else {
        levels[i].set_qty(id, qty);
        n.set_qty(qty);
        proof {
            assert(levels_view(levels@) =~= amend(lv, i as int, k@, qty as int, stamp@.transact_time));
        }
        n
    }
}

/// The matching engine: both sides of the book, the id and sequence
/// counters, and the messages not yet handed out.
pub struct MatchingEngine {
    sells_by_price: Vec<PriceLevel>,
    buys_by_price: Vec<PriceLevel>,
    id_count: i64,
    seq_number: i64,
    outbox: Vec<IncrementalMessage>,
    history: Ghost<Seq<MessageView>>,
}

impl MatchingEngine {
    /// The book as values: bids best (highest) first, asks best (lowest) first.
    pub closed spec fn book(&self) -> BookView {
        BookView { bids: levels_view(self.buys_by_price@), asks: levels_view(self.sells_by_price@) }
    }

    /// The id the next new order gets.
    pub closed spec fn next_id(&self) -> int {
        self.id_count as int
    }

    /// The sequence number of the newest message, 0 before the first.
    pub closed spec fn last_seq(&self) -> int {
        self.seq_number as int
    }

    /// Every message emitted since the engine was made, in order.
    pub closed spec fn history(&self) -> Seq<MessageView> {
        self.history@
    }

    /// The messages emitted and not yet taken.
    pub closed spec fn pending(&self) -> Seq<MessageView> {
        message_views(self.outbox@)
    }

    closed spec fn core_wf(&self) -> bool {
        let b = self.book();
        let h = self.history@;
        let p = self.pending();
        &&& forall|i: int| 0 <= i < self.buys_by_price@.len() ==> (#[trigger] self.buys_by_price@[i]).wf()
        &&& forall|i: int| 0 <= i < self.sells_by_price@.len() ==> (#[trigger] self.sells_by_price@[i]).wf()
        &&& book_wf(b)
        &&& ids_unique(b)
        &&& 0 <= self.id_count
        &&& 0 <= self.seq_number
        &&& ids_below(b.bids, self.id_count as int)
        &&& ids_below(b.asks, self.id_count as int)
        &&& order_count(b.bids) + order_count(b.asks) <= self.id_count
        &&& h.len() == self.seq_number
        &&& forall|i: int| 0 <= i < h.len() ==> (#[trigger] h[i]).seq == i + 1
        &&& p.len() <= h.len()
        &&& p == h.subrange(h.len() - p.len(), h.len() as int)
    }

    /// The engine's invariant: a well-formed book, consistent counters, and a
    /// message history whose replay gives the book.
    pub closed spec fn wf(&self) -> bool {
        &&& self.core_wf()
        &&& mirrors(replay(self.history@), self.book())
    }

    /// Whether the counters leave room for one more request of any kind.
    pub open spec fn has_room(&self) -> bool {
        self.last_seq() + self.next_id() + 3 <= i64::MAX
    }

    pub fn new() -> (r: MatchingEngine)
        ensures
            r.wf(),
            r.book() == (BookView { bids: Seq::empty(), asks: Seq::empty() }),
            r.next_id() == 0,
            r.last_seq() == 0,
            r.history() == Seq::<MessageView>::empty(),
            r.pending() == Seq::<MessageView>::empty(),
    {
        let r = MatchingEngine {
            sells_by_price: Vec::new(),
            buys_by_price: Vec::new(),
            id_count: 0,
            seq_number: 0,
            outbox: Vec::new(),
            history: Ghost(Seq::empty()),
        };
        proof {
            assert(r.book().bids =~= Seq::empty());
            assert(r.book().asks =~= Seq::empty());
            assert(r.pending() =~= Seq::empty());
            assert(level_map(Seq::<LevelView>::empty()) =~= Map::empty());
            assert(order_count(r.book().bids) == 0);
            assert(order_count(r.book().asks) == 0);
            assert(book_wf(r.book()));
            assert(r.history@.subrange(0, 0) =~= Seq::<MessageView>::empty());
            assert(r.core_wf());
            assert(replay(r.history@) == crate::recovery::empty_replica());
        }
        r
    }

    /// Whether the counters leave room for one more request.
    pub fn room_left(&self) -> (r: bool)
        requires
            self.wf(),
        ensures
            r == self.has_room(),
    {
        self.seq_number <= i64::MAX - 3 - self.id_count
    }

    /// Hands out the messages emitted since the last call, oldest first.
    pub fn take_messages(&mut self) -> (r: Vec<IncrementalMessage>)
        requires
            old(self).wf(),
        ensures
            final(self).wf(),
            message_views(r@) == old(self).pending(),
            final(self).pending() == Seq::<MessageView>::empty(),
            final(self).book() == old(self).book(),
            final(self).history() == old(self).history(),
            final(self).next_id() == old(self).next_id(),
            final(self).last_seq() == old(self).last_seq(),
    {
        let mut r: Vec<IncrementalMessage> = Vec::new();
        std::mem::swap(&mut self.outbox, &mut r);
        proof {
            assert(self.pending() =~= Seq::empty());
            let h = self.history@;
            assert(h.subrange(h.len() - 0, h.len() as int) =~= Seq::<MessageView>::empty());
        }
        r
    }

    /// Copies of the orders resting at the price, on whichever side holds
    /// it; none where no level has that price.
    fn get_orders_by_price(&self, price: i64) -> (r: Vec<Order>)
        requires
            self.core_wf(),
        ensures
            views(r@) == orders_at(self.book(), price as int),
    {
        let b = Ghost(self.book());
        proof {
            lemma_sorted_distinct(Side::Buy, b@.bids);
            lemma_sorted_distinct(Side::Sell, b@.asks);
        }
        match level_index(&self.buys_by_price, price) {
            Some(i) => {
                proof { lemma_level_map_at(b@.bids, i as int); }
                return self.buys_by_price[i].orders();
            },
            None => {
                assert(!level_map(b@.bids).contains_key(price as int)) by {
                    if level_map(b@.bids).contains_key(price as int) {
                        let j = choose|j: int| 0 <= j < b@.bids.len() && b@.bids[j].price == price;
                        assert(self.buys_by_price@[j]@.price != price);
                    }
                }
            },
        }
        match level_index(&self.sells_by_price, price) {
            Some(i) => {
                proof { lemma_level_map_at(b@.asks, i as int); }
                self.sells_by_price[i].orders()
            },
            None => {
                assert(!level_map(b@.asks).contains_key(price as int)) by {
                    if level_map(b@.asks).contains_key(price as int) {
                        let j = choose|j: int| 0 <= j < b@.asks.len() && b@.asks[j].price == price;
                        assert(self.sells_by_price@[j]@.price != price);
                    }
                }
                let r: Vec<Order> = Vec::new();
                assert(views(r@) =~= Seq::empty());
                r
            },
        }
    }

    /// Emits the next message: the new content of the level at the price.
    fn incremental_feed(&mut self, price: i64)
        requires
            old(self).core_wf(),
            old(self).seq_number < i64::MAX,
        ensures
            final(self).core_wf(),
            final(self).book() == old(self).book(),
            final(self).id_count == old(self).id_count,
            final(self).seq_number == old(self).seq_number + 1,
            final(self).history@ == old(self).history@.push(
                MessageView {
                    seq: old(self).seq_number + 1,
                    price: price as int,
                    orders: orders_at(old(self).book(), price as int),
                },
            ),
            final(self).pending() == old(self).pending().push(
                MessageView {
                    seq: old(self).seq_number + 1,
                    price: price as int,
                    orders: orders_at(old(self).book(), price as int),
                },
            ),
    {
        let orders = self.get_orders_by_price(price);
        self.seq_number = self.seq_number + 1;
        let message = IncrementalMessage::new(price, self.seq_number, orders);
        let ghost mv = message@;
        self.outbox.push(message);
        self.history = Ghost(self.history@.push(mv));
        proof {
            let h = self.history@;
            let p = self.pending();
            assert(p =~= old(self).pending().push(mv));
            assert(p =~= h.subrange(h.len() - p.len(), h.len() as int));
        }
    }

    /// A copy of the order with the id, if it rests in the book.
    pub fn find_order_by_id(&self, ord_id: i64) -> (r: Option<Order>)
        requires
            self.wf(),
        ensures
            r is Some <==> rests(self.book(), ord_id as int),
            forall|s: Side, i: int, k: int|
                #[trigger] found_at(self.book(), s, i, k, ord_id as int) ==> r is Some && r->0@ == side_of(
                    self.book(),
                    s,
                )[i].orders[k],
    {
        let ghost b = self.book();
        match locate(&self.buys_by_price, ord_id) {
            Some((i, o)) => {
                proof {
                    assert(b.bids[i as int] == self.buys_by_price@[i as int]@);
                    assert forall|s: Side, i2: int, k: int|
                        #[trigger] found_at(b, s, i2, k, ord_id as int) implies o@ == side_of(b, s)[i2].orders[k] by {
                        if s == Side::Sell {
                            assert(!has_id(b.bids[i as int].orders, ord_id as int));
                        } else if i2 < i {
                            assert(!has_id(self.buys_by_price@[i2]@.orders, ord_id as int));
                        } else if i2 > i {
                            assert(!has_id(b.bids[i as int].orders, ord_id as int));
                        }
                    }
                }
                return Some(o);
            },
            None => {},
        }
        match locate(&self.sells_by_price, ord_id) {
            Some((i, o)) => {
                proof {
                    assert(b.asks[i as int] == self.sells_by_price@[i as int]@);
                    assert forall|s: Side, i2: int, k: int|
                        #[trigger] found_at(b, s, i2, k, ord_id as int) implies o@ == side_of(b, s)[i2].orders[k] by {
                        if s == Side::Buy {
                            assert(!has_id(self.buys_by_price@[i2]@.orders, ord_id as int));
                        } else if i2 < i {
                            assert(!has_id(self.sells_by_price@[i2]@.orders, ord_id as int));
                        } else if i2 > i {
                            assert(!has_id(b.asks[i as int].orders, ord_id as int));
                        }
                    }
                }
                Some(o)
            },
            None => {
                proof {
                    assert(!rests(b, ord_id as int)) by {
                        if exists|i: int| 0 <= i < b.bids.len() && has_id(#[trigger] b.bids[i].orders, ord_id as int) {
                            let i = choose|i: int| 0 <= i < b.bids.len() && has_id(#[trigger] b.bids[i].orders, ord_id as int);
                            assert(!has_id(self.buys_by_price@[i]@.orders, ord_id as int));
                        }
                        if exists|i: int| 0 <= i < b.asks.len() && has_id(#[trigger] b.asks[i].orders, ord_id as int) {
                            let i = choose|i: int| 0 <= i < b.asks.len() && has_id(#[trigger] b.asks[i].orders, ord_id as int);
                            assert(!has_id(self.sells_by_price@[i]@.orders, ord_id as int));
                        }
                    }
                }
                None
            },
        }
    }

    /// After order `k` of level `i` of side `s` left the book and a message
    /// told of its level, the engine is well formed again.
    proof fn lemma_after_removal(old_e: MatchingEngine, e: MatchingEngine, s: Side, i: int, k: int, seq: int)
        requires
            old_e.wf(),
            0 <= i < side_of(old_e.book(), s).len(),
            0 <= k < side_of(old_e.book(), s)[i].orders.len(),
            e.book() == with_side(old_e.book(), s, remove_order(side_of(old_e.book(), s), i, k)),
            forall|j: int| 0 <= j < e.buys_by_price@.len() ==> (#[trigger] e.buys_by_price@[j]).wf(),
            forall|j: int| 0 <= j < e.sells_by_price@.len() ==> (#[trigger] e.sells_by_price@[j]).wf(),
            e.id_count == old_e.id_count,
            e.seq_number == old_e.seq_number,
            e.history@ == old_e.history@,
            e.pending() == old_e.pending(),
        ensures
            e.core_wf(),
            mirrors(
                    replay(
                        e.history@.push(
                            MessageView {
                                seq,
                                price: side_of(old_e.book(), s)[i].price,
                                orders: orders_at(e.book(), side_of(old_e.book(), s)[i].price),
                            },
                        ),
                    ),
                    e.book(),
                ),
    {
        let b0 = old_e.book();
        let b1 = e.book();
        let levels = side_of(b0, s);
        let p = levels[i].price;
        lemma_remove_order(s, levels, i, k, old_e.id_count as int);
        lemma_ids_remove_order(levels, i, k);
        lemma_unique_after(b0, s, remove_order(levels, i, k), false, 0);
        lemma_sorted_distinct(s, levels);
        lemma_level_map_at(levels, i);
        if s == Side::Buy {
            if b1.bids.len() > 0 && b1.asks.len() > 0 {
                assert(b1.bids[0].price <= b0.bids[0].price);
            }
        } else {
            if b1.bids.len() > 0 && b1.asks.len() > 0 {
                assert(b1.asks[0].price >= b0.asks[0].price);
            }
        }
        assert(book_wf(b1));
        lemma_replay_step(e.history@, b0, b1, s, p, seq);
    }

    /// Takes the order with the id out of the book and emits one message for
    /// its level (empty if the level went). Without such an order nothing
    /// changes and nothing is emitted.
    pub fn delete(&mut self, ord_id: i64) -> (r: Option<Order>)
        requires
            old(self).wf(),
            old(self).has_room(),
        ensures
            final(self).wf(),
            final(self).next_id() == old(self).next_id(),
            r is Some <==> rests(old(self).book(), ord_id as int),
            !rests(old(self).book(), ord_id as int) ==> {
                &&& final(self).book() == old(self).book()
                &&& final(self).history() == old(self).history()
                &&& final(self).pending() == old(self).pending()
                &&& final(self).last_seq() == old(self).last_seq()
            },
            forall|s: Side, i: int, k: int|
                #[trigger] found_at(old(self).book(), s, i, k, ord_id as int) ==> {
                    let b1 = with_side(old(self).book(), s, remove_order(side_of(old(self).book(), s), i, k));
                    let p = side_of(old(self).book(), s)[i].price;
                    let m = MessageView { seq: old(self).last_seq() + 1, price: p, orders: orders_at(b1, p) };
                    &&& r is Some
                    &&& r->0@ == side_of(old(self).book(), s)[i].orders[k]
                    &&& final(self).book() == b1
                    &&& final(self).history() == old(self).history().push(m)
                    &&& final(self).pending() == old(self).pending().push(m)
                    &&& final(self).last_seq() == old(self).last_seq() + 1
                },
    {
        let ghost b0 = self.book();
        match locate(&self.buys_by_price, ord_id) {
            Some((i, _)) => {
                let ghost k = choose|k: int| 0 <= k < b0.bids[i as int].orders.len() && b0.bids[i as int].orders[k].id == ord_id;
                assert(b0.bids[i as int] == self.buys_by_price@[i as int]@);
                proof { self.buys_by_price@[i as int].lemma_distinct(); }
                let (removed, price) = remove_from(&mut self.buys_by_price, i, ord_id);
                proof {
                    assert(self.book() =~= with_side(b0, Side::Buy, remove_order(b0.bids, i as int, k)));
                    Self::lemma_after_removal(*old(self), *self, Side::Buy, i as int, k, 0);
                }
                let ghost e1 = *self;
                self.incremental_feed(price);
                proof {
                    Self::lemma_after_removal(*old(self), e1, Side::Buy, i as int, k, self.seq_number as int);
                    assert forall|s: Side, i2: int, k2: int|
                        #[trigger] found_at(b0, s, i2, k2, ord_id as int) implies s == Side::Buy && i2 == i && k2 == k by {
                        if s == Side::Sell {
                            assert(!has_id(b0.bids[i as int].orders, ord_id as int));
                        } else if i2 < i {
                            assert(!has_id(old(self).buys_by_price@[i2]@.orders, ord_id as int));
                        } else if i2 > i {
                            assert(!has_id(b0.bids[i as int].orders, ord_id as int));
                        } else if k2 != k {
                            assert(distinct_ids(b0.bids[i as int].orders));
                        }
                    }
                    assert(rests(b0, ord_id as int));
                    let m = MessageView {
                        seq: old(self).seq_number + 1,
                        price: price as int,
                        orders: orders_at(self.book(), price as int),
                    };
                    assert(self.history@ == old(self).history@.push(m));
                    assert(mirrors(replay(self.history@), self.book()));
                    assert(self.wf());
                }
                return removed;
            },
            None => {},
        }
        match locate(&self.sells_by_price, ord_id) {
            Some((i, _)) => {
                let ghost k = choose|k: int| 0 <= k < b0.asks[i as int].orders.len() && b0.asks[i as int].orders[k].id == ord_id;
                assert(b0.asks[i as int] == self.sells_by_price@[i as int]@);
                proof { self.sells_by_price@[i as int].lemma_distinct(); }
                let (removed, price) = remove_from(&mut self.sells_by_price, i, ord_id);
                proof {
                    assert(self.book() =~= with_side(b0, Side::Sell, remove_order(b0.asks, i as int, k)));
                    Self::lemma_after_removal(*old(self), *self, Side::Sell, i as int, k, 0);
                }
                let ghost e1 = *self;
                self.incremental_feed(price);
                proof {
                    Self::lemma_after_removal(*old(self), e1, Side::Sell, i as int, k, self.seq_number as int);
                    assert forall|s: Side, i2: int, k2: int|
                        #[trigger] found_at(b0, s, i2, k2, ord_id as int) implies s == Side::Sell && i2 == i && k2 == k by {
                        if s == Side::Buy {
                            assert(!has_id(old(self).buys_by_price@[i2]@.orders, ord_id as int));
                        } else if i2 < i {
                            assert(!has_id(old(self).sells_by_price@[i2]@.orders, ord_id as int));
                        } else if i2 > i {
                            assert(!has_id(b0.asks[i as int].orders, ord_id as int));
                        } else if k2 != k {
                            assert(distinct_ids(b0.asks[i as int].orders));
                        }
                    }
                    assert(rests(b0, ord_id as int));
                    let m = MessageView {
                        seq: old(self).seq_number + 1,
                        price: price as int,
                        orders: orders_at(self.book(), price as int),
                    };
                    assert(self.history@ == old(self).history@.push(m));
                    assert(mirrors(replay(self.history@), self.book()));
                    assert(self.wf());
                }
                removed
            },
            None => {
                proof {
                    assert(!rests(b0, ord_id as int)) by {
                        if exists|i: int| 0 <= i < b0.bids.len() && has_id(#[trigger] b0.bids[i].orders, ord_id as int) {
                            let i = choose|i: int| 0 <= i < b0.bids.len() && has_id(#[trigger] b0.bids[i].orders, ord_id as int);
                            assert(!has_id(self.buys_by_price@[i]@.orders, ord_id as int));
                        }
                        if exists|i: int| 0 <= i < b0.asks.len() && has_id(#[trigger] b0.asks[i].orders, ord_id as int) {
                            let i = choose|i: int| 0 <= i < b0.asks.len() && has_id(#[trigger] b0.asks[i].orders, ord_id as int);
                            assert(!has_id(self.sells_by_price@[i]@.orders, ord_id as int));
                        }
                    }
                }
                None
            },
        }
    }

    /// Whether an incoming order of the side at `price` with `qty` left
    /// trades with the front of the best opposite level.
    fn can_trade(&self, side: Side, price: i64, qty: i64) -> (r: bool)
        requires
            self.core_wf(),
        ensures
            r == can_match(self.book(), side, price as int, qty as int),
    {
        if qty <= 0 {
            return false;
        }
        let opp = match side {
            Side::Buy => &self.sells_by_price,
            Side::Sell => &self.buys_by_price,
        };
        if opp.len() == 0 {
            return false;
        }
        proof {
            assert(side_of(self.book(), opposite(side))[0] == opp@[0]@);
        }
        crosses(side, price, opp[0].get_price())
    }

    /// Matches an order with a fresh id against the book, rests what is
    /// left, and emits a message per trade and one for the rest.
    fn insert_new(&mut self, order: &Order) -> (r: Order)
        requires
            old(self).wf(),
            old(self).seq_number + old(self).id_count + 2 <= i64::MAX,
            order@.price > 0,
        ensures
            final(self).wf(),
            ({
                let o = OrderView { id: old(self).next_id(), ..order@ };
                let out = insert_outcome(old(self).book(), o);
                &&& r@ == out.1
                &&& final(self).book() == out.0
                &&& final(self).history() == old(self).history() + numbered(out.2, old(self).last_seq())
                &&& final(self).pending() == old(self).pending() + numbered(out.2, old(self).last_seq())
                &&& final(self).last_seq() == old(self).last_seq() + out.2.len()
            }),
            final(self).next_id() == old(self).next_id() + 1,
    {
        let id = self.id_count;
        let mut cur = order.duplicate();
        cur.set_id(id);
        self.id_count = id + 1;
        let side = cur.get_side();
        let price = cur.get_price();
        let mut qty = cur.get_qty();
        let ghost b_start = self.book();
        let ghost h0 = self.history@;
        let ghost pend0 = self.pending();
        let ghost seq0 = self.seq_number as int;
        let ghost o = cur@;
        let ghost opp = opposite(side);
        let ghost mut changes: Seq<Change> = Seq::empty();
        proof {
            assert(changes + match_loop(b_start, side, price as int, qty as int).2 =~= match_loop(
                b_start,
                side,
                price as int,
                qty as int,
            ).2);
            assert(h0 + numbered(changes, seq0) =~= h0);
            assert(pend0 + numbered(changes, seq0) =~= pend0);
        }
        let mut go = self.can_trade(side, price, qty);
        while go
            invariant
                go == can_match(self.book(), side, price as int, qty as int),
                opp == opposite(side),
                o == (OrderView { id: old(self).next_id(), ..order@ }),
                b_start == old(self).book(),
                h0 == old(self).history@,
                pend0 == old(self).pending(),
                seq0 == old(self).seq_number,
                id == old(self).id_count,
                self.wf(),
                self.id_count == id + 1,
                0 <= id < i64::MAX,
                ids_below(self.book().bids, id as int),
                ids_below(self.book().asks, id as int),
                order_count(self.book().bids) + order_count(self.book().asks) <= id,
                side == o.side,
                price == o.price,
                match_loop(b_start, side, price as int, o.qty) == (
                    match_loop(self.book(), side, price as int, qty as int).0,
                    match_loop(self.book(), side, price as int, qty as int).1,
                    changes + match_loop(self.book(), side, price as int, qty as int).2,
                ),
                self.history@ == h0 + numbered(changes, seq0),
                self.pending() == pend0 + numbered(changes, seq0),
                self.seq_number == seq0 + changes.len(),
                side_of(self.book(), side) == side_of(b_start, side),
                qty > 0 ==> self.seq_number + order_count(side_of(self.book(), opp)) <= seq0 + order_count(
                    side_of(b_start, opp),
                ),
                self.seq_number + order_count(side_of(self.book(), opp)) <= seq0 + order_count(
                    side_of(b_start, opp),
                ) + 1,
                seq0 + order_count(b_start.bids) + order_count(b_start.asks) + 2 <= i64::MAX,
            decreases qty,
        {
            let ghost b0 = self.book();
            let ghost q0 = qty as int;
            let ghost c0 = changes;
            proof {
                assert(side_of(b0, opp)[0].orders[0] == side_of(b0, opp)[0].orders[0]);
                lemma_fill_best(opp, side_of(b0, opp), q0, id as int);
                lemma_ids_fill_best(opp, side_of(b0, opp), q0);
                lemma_unique_after(b0, opp, fill_best(side_of(b0, opp), q0), false, 0);
            }
            let best;
            let t;
            match side {
                Side::Buy => {
                    best = self.sells_by_price[0].get_price();
                    t = trade_best(&mut self.sells_by_price, qty);
                },
                Side::Sell => {
                    best = self.buys_by_price[0].get_price();
                    t = trade_best(&mut self.buys_by_price, qty);
                },
            }
            qty = qty - t;
            let ghost b1 = self.book();
            proof {
                assert(b1 == with_side(b0, opp, fill_best(side_of(b0, opp), q0)));
                assert(t == trade_qty(b0, side, q0));
                if b1.bids.len() > 0 && b1.asks.len() > 0 {
                    if side == Side::Buy {
                        assert(b1.asks[0].price >= b0.asks[0].price);
                    } else {
                        assert(b1.bids[0].price <= b0.bids[0].price);
                    }
                }
                assert(book_wf(b1));
                assert(self.core_wf());
            }
            let ghost e1 = *self;
            self.incremental_feed(best);
            proof {
                let c = (best as int, orders_at(b1, best as int));
                lemma_replay_step(e1.history@, b0, b1, opp, best as int, self.seq_number as int);
                changes = c0.push(c);
                assert(numbered(changes, seq0) =~= numbered(c0, seq0).push(
                    MessageView { seq: seq0 + c0.len() + 1, price: c.0, orders: c.1 },
                ));
                assert(self.history@ =~= h0 + numbered(changes, seq0));
                assert(self.pending() =~= pend0 + numbered(changes, seq0));
                let ml = match_loop(b1, side, price as int, qty as int);
                assert(match_loop(b0, side, price as int, q0) == (ml.0, ml.1, seq![c] + ml.2));
                assert(c0 + (seq![c] + ml.2) =~= changes + ml.2);
            }
            go = self.can_trade(side, price, qty);
        }
        let ghost b1 = self.book();
        let ghost c1 = changes;
        proof {
            assert(match_loop(b1, side, price as int, qty as int) == (b1, qty as int, Seq::<Change>::empty()));
            assert(c1 + Seq::<Change>::empty() =~= c1);
            assert(b_start == old(self).book());
            assert(o == OrderView { id: old(self).next_id(), ..order@ });
        }
        cur.set_qty(qty);
        let result = cur.duplicate();
        if qty > 0 {
            let ghost ov = cur@;
            proof {
                lemma_rest_in(side, side_of(b1, side), ov, id + 1);
                lemma_below_not_in(b1.bids, id as int);
                lemma_below_not_in(b1.asks, id as int);
                lemma_ids_rest_in(side, side_of(b1, side), ov);
                lemma_unique_after(b1, side, rest_in(side_of(b1, side), side, ov), true, id as int);
            }
            match side {
                Side::Buy => rest_order(&mut self.buys_by_price, side, cur),
                Side::Sell => rest_order(&mut self.sells_by_price, side, cur),
            }
            let ghost b2 = self.book();
            proof {
                assert(b2 == with_side(b1, side, rest_in(side_of(b1, side), side, ov)));
                if b2.bids.len() > 0 && b2.asks.len() > 0 {
                    if side == Side::Buy {
                        if b2.bids[0].price == price {
                            assert(!marketable(side, price as int, b1.asks[0].price));
                        }
                    } else {
                        if b2.asks[0].price == price {
                            assert(!marketable(side, price as int, b1.bids[0].price));
                        }
                    }
                }
                assert(book_wf(b2));
                assert(self.core_wf());
            }
            let ghost e2 = *self;
            self.incremental_feed(price);
            proof {
                let c = (price as int, orders_at(b2, price as int));
                lemma_replay_step(e2.history@, b1, b2, side, price as int, self.seq_number as int);
                changes = c1.push(c);
                assert(numbered(changes, seq0) =~= numbered(c1, seq0).push(
                    MessageView { seq: seq0 + c1.len() + 1, price: c.0, orders: c.1 },
                ));
                assert(self.history@ =~= h0 + numbered(changes, seq0));
                assert(self.pending() =~= pend0 + numbered(changes, seq0));
            }
        }
        result
    }

    /// Takes a new order: refuses a quantity or a price that is not
    /// positive; otherwise gives it the next id, matches it and rests what is
    /// left (see `insert_outcome`).
    pub fn insert(&mut self, order: &Order) -> (r: Result<Order, EngineError>)
        requires
            old(self).wf(),
            old(self).has_room(),
        ensures
            final(self).wf(),
            (order@.qty <= 0 || order@.price <= 0) ==> {
                &&& r == Err::<Order, EngineError>(EngineError::InvalidArgument)
                &&& final(self).book() == old(self).book()
                &&& final(self).history() == old(self).history()
                &&& final(self).pending() == old(self).pending()
                &&& final(self).next_id() == old(self).next_id()
                &&& final(self).last_seq() == old(self).last_seq()
            },
            (order@.qty > 0 && order@.price > 0) ==> {
                let o = OrderView { id: old(self).next_id(), ..order@ };
                let out = insert_outcome(old(self).book(), o);
                &&& r is Ok
                &&& r->Ok_0@ == out.1
                &&& final(self).book() == out.0
                &&& final(self).history() == old(self).history() + numbered(out.2, old(self).last_seq())
                &&& final(self).pending() == old(self).pending() + numbered(out.2, old(self).last_seq())
                &&& final(self).last_seq() == old(self).last_seq() + out.2.len()
                &&& final(self).next_id() == old(self).next_id() + 1
            },
    {
        if order.get_qty() <= 0 || order.get_price() <= 0 {
            return Err(EngineError::InvalidArgument);
        }
        Ok(self.insert_new(order))
    }

    /// Changes the price and quantity of a resting order; its side stays.
    /// At the same price only the quantity changes: a larger one sends the
    /// order to the back of its level (with the time stamp of `order`), a
    /// smaller or equal one keeps its place; one message follows. At another
    /// price the order is deleted and a new one, with a new id, inserted.
    pub fn update(&mut self, ord_id: i64, order: &Order) -> (r: Result<Order, EngineError>)
        requires
            old(self).wf(),
            old(self).has_room(),
        ensures
            final(self).wf(),
            (order@.qty <= 0 || order@.price <= 0 || !rests(old(self).book(), ord_id as int)) ==> {
                &&& final(self).book() == old(self).book()
                &&& final(self).history() == old(self).history()
                &&& final(self).pending() == old(self).pending()
                &&& final(self).next_id() == old(self).next_id()
                &&& final(self).last_seq() == old(self).last_seq()
            },
            (order@.qty <= 0 || order@.price <= 0) ==> r == Err::<Order, EngineError>(
                EngineError::InvalidArgument,
            ),
            (order@.qty > 0 && order@.price > 0 && !rests(old(self).book(), ord_id as int)) ==> r
                == Err::<Order, EngineError>(EngineError::NotFound),
            forall|s: Side, i: int, k: int|
                order@.qty > 0 && order@.price > 0 && #[trigger] found_at(old(self).book(), s, i, k, ord_id as int)
                    ==> {
                    let b0 = old(self).book();
                    let e = side_of(b0, s)[i].orders[k];
                    if order@.price == e.price {
                        let b1 = with_side(b0, s, amend(side_of(b0, s), i, k, order@.qty, order@.transact_time));
                        let m = MessageView { seq: old(self).last_seq() + 1, price: e.price, orders: orders_at(b1, e.price) };
                        &&& r is Ok
                        &&& r->Ok_0@ == amended(e, order@.qty, order@.transact_time)
                        &&& final(self).book() == b1
                        &&& final(self).history() == old(self).history().push(m)
                        &&& final(self).pending() == old(self).pending().push(m)
                        &&& final(self).last_seq() == old(self).last_seq() + 1
                        &&& final(self).next_id() == old(self).next_id()
                    } else {
                        let b1 = with_side(b0, s, remove_order(side_of(b0, s), i, k));
                        let m = MessageView { seq: old(self).last_seq() + 1, price: e.price, orders: orders_at(b1, e.price) };
                        let o = OrderView { id: old(self).next_id(), side: e.side, ..order@ };
                        let out = insert_outcome(b1, o);
                        &&& r is Ok
                        &&& r->Ok_0@ == out.1
                        &&& final(self).book() == out.0
                        &&& final(self).history() == old(self).history().push(m) + numbered(out.2, old(self).last_seq() + 1)
                        &&& final(self).pending() == old(self).pending().push(m) + numbered(out.2, old(self).last_seq() + 1)
                        &&& final(self).last_seq() == old(self).last_seq() + 1 + out.2.len()
                        &&& final(self).next_id() == old(self).next_id() + 1
                    }
                },
    {
        if order.get_qty() <= 0 || order.get_price() <= 0 {
            return Err(EngineError::InvalidArgument);
        }
        let ghost b0 = self.book();
        let side;
        let i;
        let e;
        match locate(&self.buys_by_price, ord_id) {
            Some((i1, e1)) => {
                side = Side::Buy;
                i = i1;
                e = e1;
                proof {
                    assert(b0.bids[i as int] == self.buys_by_price@[i as int]@);
                    self.buys_by_price@[i as int].lemma_distinct();
                }
            },
            None => match locate(&self.sells_by_price, ord_id) {
                Some((i1, e1)) => {
                    side = Side::Sell;
                    i = i1;
                    e = e1;
                    proof {
                        assert(b0.asks[i as int] == self.sells_by_price@[i as int]@);
                        self.sells_by_price@[i as int].lemma_distinct();
                        assert forall|j: int| 0 <= j < b0.bids.len() implies !has_id(#[trigger] b0.bids[j].orders, ord_id as int) by {
                            assert(b0.bids[j] == self.buys_by_price@[j]@);
                        }
                    }
                },
                None => {
                    proof {
                        assert(!rests(b0, ord_id as int)) by {
                            if exists|j: int| 0 <= j < b0.bids.len() && has_id(#[trigger] b0.bids[j].orders, ord_id as int) {
                                let j = choose|j: int| 0 <= j < b0.bids.len() && has_id(#[trigger] b0.bids[j].orders, ord_id as int);
                                assert(!has_id(self.buys_by_price@[j]@.orders, ord_id as int));
                            }
                            if exists|j: int| 0 <= j < b0.asks.len() && has_id(#[trigger] b0.asks[j].orders, ord_id as int) {
                                let j = choose|j: int| 0 <= j < b0.asks.len() && has_id(#[trigger] b0.asks[j].orders, ord_id as int);
                                assert(!has_id(self.sells_by_price@[j]@.orders, ord_id as int));
                            }
                        }
                    }
                    return Err(EngineError::NotFound);
                },
            },
        }
        let ghost levels = side_of(b0, side);
        let ghost k = choose|k: int| 0 <= k < levels[i as int].orders.len() && levels[i as int].orders[k].id == ord_id;
        proof {
            assert(holds_at(b0, side, i as int, ord_id as int)) by {
                assert forall|j: int| 0 <= j < i implies !has_id(#[trigger] side_of(b0, side)[j].orders, ord_id as int) by {
                    if side == Side::Buy {
                        assert(b0.bids[j] == self.buys_by_price@[j]@);
                    } else {
                        assert(b0.asks[j] == self.sells_by_price@[j]@);
                    }
                }
            }
            assert(found_at(b0, side, i as int, k, ord_id as int));
            lemma_found_unique(b0, side, i as int, k, ord_id as int);
            assert(e@ == levels[i as int].orders[k]);
            assert(rests(b0, ord_id as int));
        }
        if order.get_price() == e.get_price() {
            let qty = order.get_qty();
            let res = match side {
                Side::Buy => amend_in(&mut self.buys_by_price, i, ord_id, qty, order, Ghost(k)),
                Side::Sell => amend_in(&mut self.sells_by_price, i, ord_id, qty, order, Ghost(k)),
            };
            let ghost b1 = self.book();
            let price = e.get_price();
            proof {
                lemma_amend(side, levels, i as int, k, qty as int, order@.transact_time, self.id_count as int);
                lemma_ids_amend(levels, i as int, k, qty as int, order@.transact_time);
                lemma_unique_after(b0, side, amend(levels, i as int, k, qty as int, order@.transact_time), false, 0);
                assert(b1 == with_side(b0, side, amend(levels, i as int, k, qty as int, order@.transact_time)));
                assert(levels[i as int].price == price) by {
                    assert(levels[i as int].orders[k].price == levels[i as int].price);
                }
                assert(book_wf(b1));
                assert(self.core_wf());
            }
            let ghost e1 = *self;
            self.incremental_feed(price);
            proof {
                lemma_replay_step(e1.history@, b0, b1, side, price as int, self.seq_number as int);
            }
            Ok(res)
        } else {
            let ghost e0 = *self;
            self.delete(ord_id);
            let mut n = order.duplicate();
            n.set_side(e.get_side());
            let res = self.insert_new(&n);
            proof {
                let m = MessageView {
                    seq: e0.last_seq() + 1,
                    price: e@.price,
                    orders: orders_at(with_side(b0, side, remove_order(levels, i as int, k)), e@.price),
                };
                let o = OrderView { id: e0.next_id(), side: e@.side, ..order@ };
                assert(OrderView { id: e0.next_id(), ..n@ } == o);
                let out = insert_outcome(with_side(b0, side, remove_order(levels, i as int, k)), o);
                assert(self.history() =~= e0.history().push(m) + numbered(out.2, e0.last_seq() + 1));
                assert(self.pending() =~= e0.pending().push(m) + numbered(out.2, e0.last_seq() + 1));
            }
            Ok(res)
        }
    }

    /// Price priority: on either side, of two levels of a well-formed engine
    /// the one with the better price (a higher bid, a lower ask) comes first,
    /// so it trades first, whatever the order in which they arrived.
    pub proof fn lemma_price_priority(&self, s: Side, i: int, j: int)
        requires
            self.wf(),
            0 <= i < side_of(self.book(), s).len(),
            0 <= j < side_of(self.book(), s).len(),
            better(s, side_of(self.book(), s)[i].price, side_of(self.book(), s)[j].price),
        ensures
            i < j,
            book_wf(self.book()),
    {
        if j < i {
            assert(better(s, side_of(self.book(), s)[j].price, side_of(self.book(), s)[i].price));
        }
    }

    /// Between requests the book is well formed: each side strictly by
    /// priority with no empty level, every order of its level's price and
    /// side with a positive quantity, the best bid below the best ask, no id
    /// twice in the whole book, and every id below the next one to be given.
    pub proof fn lemma_book_wf(&self)
        requires
            self.wf(),
        ensures
            book_wf(self.book()),
            ids_unique(self.book()),
            ids_below(self.book().bids, self.next_id()),
            ids_below(self.book().asks, self.next_id()),
    {
    }

    /// Recovery request by request: a replica that held the book before a
    /// request (as the replay of every earlier message does) holds the book
    /// after it once it folds the messages that request emitted, in order.
    pub proof fn lemma_fold_request(before: &MatchingEngine, after: &MatchingEngine, ms: Seq<MessageView>)
        requires
            before.wf(),
            after.wf(),
            after.history() == before.history() + ms,
        ensures
            mirrors(replay(before.history()), before.book()),
            mirrors(fold_all(replay(before.history()), ms), after.book()),
    {
        lemma_replay_append(before.history(), ms);
    }

    /// Sequence numbers: the messages of an engine are numbered 1, 2, 3, ...
    /// with no gap, and the newest carries the engine's last number.
    pub proof fn lemma_sequence_numbers(&self)
        requires
            self.wf(),
        ensures
            self.history().len() == self.last_seq(),
            forall|i: int| 0 <= i < self.history().len() ==> (#[trigger] self.history()[i]).seq == i + 1,
            forall|i: int, j: int| 0 <= i < j < self.history().len() ==> self.history()[i].seq < self.history()[j].seq,
    {
        assert forall|i: int, j: int| 0 <= i < j < self.history().len() implies self.history()[i].seq
            < self.history()[j].seq by {
            assert(self.history()[i].seq == i + 1);
            assert(self.history()[j].seq == j + 1);
        }
    }

    /// Recovery equivalence: folding every message an engine emitted, in
    /// order, into an empty replica gives exactly the engine's levels on
    /// both sides, and the replica's last number is the engine's.
    pub proof fn lemma_recovery_equivalence(&self)
        requires
            self.wf(),
        ensures
            mirrors(replay(self.history()), self.book()),
            self.history().len() > 0 ==> replay(self.history()).last == self.last_seq(),
    {
        if self.history().len() > 0 {
            let h = self.history();
            assert(h.last().seq == h.len());
        }
    }

    /// The levels of one side, best price first: each price with copies of
    /// its orders, oldest first.
    pub fn book_levels(&self, side: Side) -> (r: Vec<(i64, Vec<Order>)>)
        ensures
            r@.len() == side_of(self.book(), side).len(),
            forall|i: int|
                0 <= i < r@.len() ==> (#[trigger] r@[i]).0 as int == side_of(self.book(), side)[i].price
                    && views(r@[i].1@) == side_of(self.book(), side)[i].orders,
    {
        let levels = match side {
            Side::Buy => &self.buys_by_price,
            Side::Sell => &self.sells_by_price,
        };
        let mut r: Vec<(i64, Vec<Order>)> = Vec::new();
        let mut i: usize = 0;
        while i < levels.len()
            invariant
                i <= levels@.len(),
                levels_view(levels@) == side_of(self.book(), side),
                r@.len() == i,
                forall|x: int|
                    0 <= x < i ==> (#[trigger] r@[x]).0 as int == side_of(self.book(), side)[x].price
                        && views(r@[x].1@) == side_of(self.book(), side)[x].orders,
            decreases levels@.len() - i,
        {
            proof {
                assert(levels_view(levels@)[i as int] == levels@[i as int]@);
            }
            r.push((levels[i].get_price(), levels[i].orders()));
            i = i + 1;
        }
        r
    }
}

} // verus!
