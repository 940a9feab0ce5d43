use vstd::prelude::*;
use crate::order::{OrderView, Side};
use crate::level::{LevelView, after_fill, has_id, distinct_ids};
use crate::message::MessageView;

verus! {

/// Both sides of a book as values, each as its levels best price first.
pub struct BookView {
    pub bids: Seq<LevelView>,
    pub asks: Seq<LevelView>,
}

pub open spec fn opposite(s: Side) -> Side {
    match s {
        Side::Buy => Side::Sell,
        Side::Sell => Side::Buy,
    }
}

/// Whether price `p` has priority over price `q` on side `s`: a higher bid,
/// a lower ask.
pub open spec fn better(s: Side, p: int, q: int) -> bool {
    match s {
        Side::Buy => p > q,
        Side::Sell => p < q,
    }
}

/// Whether an incoming order of side `s` at `price` trades with an order
/// resting on the other side at `resting`.
pub open spec fn marketable(s: Side, price: int, resting: int) -> bool {
    match s {
        Side::Buy => price >= resting,
        Side::Sell => price <= resting,
    }
}

pub open spec fn side_of(b: BookView, s: Side) -> Seq<LevelView> {
    match s {
        Side::Buy => b.bids,
        Side::Sell => b.asks,
    }
}

pub open spec fn with_side(b: BookView, s: Side, levels: Seq<LevelView>) -> BookView {
    match s {
        Side::Buy => BookView { bids: levels, ..b },
        Side::Sell => BookView { asks: levels, ..b },
    }
}

/// One side of a well-formed book: levels strictly by priority, none empty,
/// each order at its level's price (a positive one), of the side, with a
/// positive quantity.
pub open spec fn side_wf(s: Side, levels: Seq<LevelView>) -> bool {
    &&& forall|i: int, j: int|
        0 <= i < j < levels.len() ==> better(s, #[trigger] levels[i].price, #[trigger] levels[j].price)
    &&& forall|i: int| 0 <= i < levels.len() ==> (#[trigger] levels[i]).orders.len() > 0
    &&& forall|i: int, k: int|
        0 <= i < levels.len() && 0 <= k < levels[i].orders.len() ==> {
            let o = #[trigger] levels[i].orders[k];
            &&& o.price == levels[i].price
            &&& o.price > 0
            &&& o.side == s
            &&& o.qty > 0
        }
}

/// The best bid is below the best ask.
pub open spec fn uncrossed(b: BookView) -> bool {
    b.bids.len() > 0 && b.asks.len() > 0 ==> b.bids[0].price < b.asks[0].price
}

pub open spec fn book_wf(b: BookView) -> bool {
    &&& side_wf(Side::Buy, b.bids)
    &&& side_wf(Side::Sell, b.asks)
    &&& uncrossed(b)
}

pub open spec fn prices_distinct(levels: Seq<LevelView>) -> bool {
    forall|i: int, j: int| 0 <= i < j < levels.len() ==> levels[i].price != levels[j].price
}

/// Every order of the levels has an id in `0..n`.
pub open spec fn ids_below(levels: Seq<LevelView>, n: int) -> bool {
    forall|i: int, k: int|
        0 <= i < levels.len() && 0 <= k < levels[i].orders.len() ==> 0 <= (#[trigger] levels[i].orders[k]).id
            < n
}

/// A side as a mapping from price to the orders resting there.
pub open spec fn level_map(levels: Seq<LevelView>) -> Map<int, Seq<OrderView>> {
    Map::new(
        |p: int| exists|i: int| 0 <= i < levels.len() && levels[i].price == p,
        |p: int| levels[choose|i: int| 0 <= i < levels.len() && levels[i].price == p].orders,
    )
}

/// The orders resting at a price, on whichever side holds it; none where no
/// level has that price.
pub open spec fn orders_at(b: BookView, p: int) -> Seq<OrderView> {
    if level_map(b.bids).contains_key(p) {
        level_map(b.bids)[p]
    } else if level_map(b.asks).contains_key(p) {
        level_map(b.asks)[p]
    } else {
        Seq::empty()
    }
}

/// The number of orders resting on a side.
pub open spec fn order_count(levels: Seq<LevelView>) -> nat
    decreases levels.len(),
{
    if levels.len() == 0 {
        0
    } else {
        levels[0].orders.len() + order_count(levels.drop_first())
    }
}

/// The levels after the best one traded `qty` from its front order; a level
/// left empty goes.
pub open spec fn fill_best(levels: Seq<LevelView>, qty: int) -> Seq<LevelView> {
    let rest = after_fill(levels[0].orders, qty);
    if rest.len() == 0 {
        levels.drop_first()
    } else {
        levels.update(0, LevelView { orders: rest, ..levels[0] })
    }
}

/// Whether an incoming order of side `s`, `price`, with `qty` left, trades
/// with the front order of the best opposite level.
pub open spec fn can_match(b: BookView, s: Side, price: int, qty: int) -> bool {
    let opp = side_of(b, opposite(s));
    &&& qty > 0
    &&& opp.len() > 0
    &&& marketable(s, price, opp[0].price)
    &&& opp[0].orders.len() > 0
    &&& opp[0].orders[0].qty > 0
}

/// What one trade takes: the smaller of what is left of the incoming order
/// and of the front order of the best opposite level.
pub open spec fn trade_qty(b: BookView, s: Side, qty: int) -> int {
    let front = side_of(b, opposite(s))[0].orders[0].qty;
    if front <= qty {
        front
    } else {
        qty
    }
}

/// A change of one level, before it is numbered: its price and its orders.
pub type Change = (int, Seq<OrderView>);

/// Matching an incoming order of side `s` at `price` with `qty`: the book
/// after it, the quantity left, and one change per trade, each the new
/// content of the level traded with.
pub open spec fn match_loop(b: BookView, s: Side, price: int, qty: int) -> (BookView, int, Seq<Change>)
    decreases qty,
{
    if can_match(b, s, price, qty) {
        let opp = side_of(b, opposite(s));
        let t = trade_qty(b, s, qty);
        let b1 = with_side(b, opposite(s), fill_best(opp, qty));
        let r = match_loop(b1, s, price, qty - t);
        (r.0, r.1, seq![(opp[0].price, orders_at(b1, opp[0].price))] + r.2)
    } else {
        (b, qty, Seq::empty())
    }
}

/// A level holding one order.
pub open spec fn single_level(o: OrderView) -> LevelView {
    LevelView { price: o.price, orders: seq![o] }
}

/// A side after an order comes to rest: at the back of the level of its
/// price, or alone in a new level placed by priority.
pub open spec fn rest_in(levels: Seq<LevelView>, s: Side, o: OrderView) -> Seq<LevelView>
    decreases levels.len(),
{
    if levels.len() == 0 {
        seq![single_level(o)]
    } else if levels[0].price == o.price {
        levels.update(0, LevelView { orders: levels[0].orders.push(o), ..levels[0] })
    } else if better(s, levels[0].price, o.price) {
        seq![levels[0]] + rest_in(levels.drop_first(), s, o)
    } else {
        seq![single_level(o)] + levels
    }
}

/// An insert of `o` (its id already given): the book after it, the order as
/// it ends (its quantity what was not traded), and the changes, in order.
pub open spec fn insert_outcome(b: BookView, o: OrderView) -> (BookView, OrderView, Seq<Change>) {
    let m = match_loop(b, o.side, o.price, o.qty);
    let o1 = OrderView { qty: m.1, ..o };
    if m.1 > 0 {
        let b2 = with_side(m.0, o.side, rest_in(side_of(m.0, o.side), o.side, o1));
        (b2, o1, m.2.push((o.price, orders_at(b2, o.price))))
    } else {
        (m.0, o1, m.2)
    }
}

/// Whether level `i` of side `s` is the first place where a scan of the
/// bids, then of the asks, finds an order with the id.
pub open spec fn holds_at(b: BookView, s: Side, i: int, id: int) -> bool {
    &&& 0 <= i < side_of(b, s).len()
    &&& has_id(side_of(b, s)[i].orders, id)
    &&& forall|j: int| 0 <= j < i ==> !has_id(#[trigger] side_of(b, s)[j].orders, id)
    &&& s == Side::Sell ==> forall|j: int| 0 <= j < b.bids.len() ==> !has_id(#[trigger] b.bids[j].orders, id)
}

/// Whether order `k` of level `i` of side `s` is the one a scan finds first
/// for the id.
pub open spec fn found_at(b: BookView, s: Side, i: int, k: int, id: int) -> bool {
    &&& holds_at(b, s, i, id)
    &&& 0 <= k < side_of(b, s)[i].orders.len()
    &&& side_of(b, s)[i].orders[k].id == id
}

/// Whether an order with the id rests anywhere in the book.
pub open spec fn rests(b: BookView, id: int) -> bool {
    ||| exists|i: int| 0 <= i < b.bids.len() && has_id(#[trigger] b.bids[i].orders, id)
    ||| exists|i: int| 0 <= i < b.asks.len() && has_id(#[trigger] b.asks[i].orders, id)
}

/// A side after order `k` of level `i` left; a level left empty goes.
pub open spec fn remove_order(levels: Seq<LevelView>, i: int, k: int) -> Seq<LevelView> {
    let rest = levels[i].orders.remove(k);
    if rest.len() == 0 {
        levels.remove(i)
    } else {
        levels.update(i, LevelView { orders: rest, ..levels[i] })
    }
}

/// Changes numbered from `last + 1` on.
pub open spec fn numbered(cs: Seq<Change>, last: int) -> Seq<MessageView> {
    Seq::new(cs.len(), |i: int| MessageView { seq: last + i + 1, price: cs[i].0, orders: cs[i].1 })
}

// Facts about the mapping from price to level.

pub proof fn lemma_level_map_at(levels: Seq<LevelView>, i: int)
    requires
        prices_distinct(levels),
        0 <= i < levels.len(),
    ensures
        level_map(levels).contains_key(levels[i].price),
        level_map(levels)[levels[i].price] == levels[i].orders,
{
    let p = levels[i].price;
    assert(exists|j: int| 0 <= j < levels.len() && levels[j].price == p);
    let j = choose|j: int| 0 <= j < levels.len() && levels[j].price == p;
    if j != i {
        if j < i {
            assert(levels[j].price != levels[i].price);
        } else {
            assert(levels[i].price != levels[j].price);
        }
    }
}

pub proof fn lemma_level_map_update(levels: Seq<LevelView>, i: int, l: LevelView)
    requires
        prices_distinct(levels),
        0 <= i < levels.len(),
        l.price == levels[i].price,
    ensures
        prices_distinct(levels.update(i, l)),
        level_map(levels.update(i, l)) == level_map(levels).insert(l.price, l.orders),
{
    let n = levels.update(i, l);
    assert(prices_distinct(n)) by {
        assert forall|a: int, b: int| 0 <= a < b < n.len() implies n[a].price != n[b].price by {
            assert(levels[a].price != levels[b].price);
        }
    }
    let m1 = level_map(n);
    let m2 = level_map(levels).insert(l.price, l.orders);
    assert forall|p: int| m1.contains_key(p) <==> m2.contains_key(p) by {
        if m1.contains_key(p) {
            let j = choose|j: int| 0 <= j < n.len() && n[j].price == p;
            assert(levels[j].price == p);
        }
        if level_map(levels).contains_key(p) {
            let j = choose|j: int| 0 <= j < levels.len() && levels[j].price == p;
            assert(n[j].price == p);
        }
    }
    assert forall|p: int| m1.contains_key(p) implies m1[p] == m2[p] by {
        let j = choose|j: int| 0 <= j < n.len() && n[j].price == p;
        lemma_level_map_at(n, j);
        if j != i {
            lemma_level_map_at(levels, j);
        }
    }
    assert(m1 =~= m2);
}

pub proof fn lemma_level_map_remove(levels: Seq<LevelView>, i: int)
    requires
        prices_distinct(levels),
        0 <= i < levels.len(),
    ensures
        prices_distinct(levels.remove(i)),
        level_map(levels.remove(i)) == level_map(levels).remove(levels[i].price),
{
    let n = levels.remove(i);
    assert(prices_distinct(n)) by {
        assert forall|a: int, b: int| 0 <= a < b < n.len() implies n[a].price != n[b].price by {
            if a < i && b < i {
                assert(levels[a].price != levels[b].price);
            } else if a < i {
                assert(levels[a].price != levels[b + 1].price);
            } else {
                assert(levels[a + 1].price != levels[b + 1].price);
            }
        }
    }
    let m1 = level_map(n);
    let m2 = level_map(levels).remove(levels[i].price);
    assert forall|p: int| m1.contains_key(p) <==> m2.contains_key(p) by {
        if m1.contains_key(p) {
            let j = choose|j: int| 0 <= j < n.len() && n[j].price == p;
            if j < i {
                assert(levels[j].price == p);
                assert(levels[j].price != levels[i].price);
            } else {
                assert(levels[j + 1].price == p);
                assert(levels[i].price != levels[j + 1].price);
            }
        }
        if m2.contains_key(p) {
            let j = choose|j: int| 0 <= j < levels.len() && levels[j].price == p;
            if j < i {
                assert(n[j].price == p);
            } else {
                assert(j != i);
                assert(n[j - 1].price == p);
            }
        }
    }
    assert forall|p: int| m1.contains_key(p) implies m1[p] == m2[p] by {
        let j = choose|j: int| 0 <= j < n.len() && n[j].price == p;
        lemma_level_map_at(n, j);
        if j < i {
            lemma_level_map_at(levels, j);
        } else {
            lemma_level_map_at(levels, j + 1);
        }
    }
    assert(m1 =~= m2);
}

pub proof fn lemma_level_map_insert(levels: Seq<LevelView>, i: int, l: LevelView)
    requires
        prices_distinct(levels),
        0 <= i <= levels.len(),
        forall|j: int| 0 <= j < levels.len() ==> levels[j].price != l.price,
    ensures
        prices_distinct(levels.insert(i, l)),
        level_map(levels.insert(i, l)) == level_map(levels).insert(l.price, l.orders),
{
    let n = levels.insert(i, l);
    assert(prices_distinct(n)) by {
        assert forall|a: int, b: int| 0 <= a < b < n.len() implies n[a].price != n[b].price by {
            if a < i && b < i {
                assert(levels[a].price != levels[b].price);
            } else if a < i && b > i {
                assert(levels[a].price != levels[b - 1].price);
            } else if a > i {
                assert(levels[a - 1].price != levels[b - 1].price);
            }
        }
    }
    let m1 = level_map(n);
    let m2 = level_map(levels).insert(l.price, l.orders);
    assert forall|p: int| m1.contains_key(p) <==> m2.contains_key(p) by {
        if m1.contains_key(p) {
            let j = choose|j: int| 0 <= j < n.len() && n[j].price == p;
            if j < i {
                assert(levels[j].price == p);
            } else if j > i {
                assert(levels[j - 1].price == p);
            }
        }
        if level_map(levels).contains_key(p) {
            let j = choose|j: int| 0 <= j < levels.len() && levels[j].price == p;
            if j < i {
                assert(n[j].price == p);
            } else {
                assert(n[j + 1].price == p);
            }
        }
        if p == l.price {
            assert(n[i].price == p);
        }
    }
    assert forall|p: int| m1.contains_key(p) implies m1[p] == m2[p] by {
        let j = choose|j: int| 0 <= j < n.len() && n[j].price == p;
        lemma_level_map_at(n, j);
        if j < i {
            lemma_level_map_at(levels, j);
        } else if j > i {
            lemma_level_map_at(levels, j - 1);
        }
    }
    assert(m1 =~= m2);
}

pub proof fn lemma_sorted_distinct(s: Side, levels: Seq<LevelView>)
    requires
        side_wf(s, levels),
    ensures
        prices_distinct(levels),
{
    assert forall|i: int, j: int| 0 <= i < j < levels.len() implies levels[i].price != levels[j].price by {
        assert(better(s, levels[i].price, levels[j].price));
    }
}

// Facts about the number of resting orders.

pub proof fn lemma_count_update(levels: Seq<LevelView>, i: int, l: LevelView)
    requires
        0 <= i < levels.len(),
    ensures
        order_count(levels.update(i, l)) == order_count(levels) - levels[i].orders.len()
            + l.orders.len(),
    decreases i,
{
    if i == 0 {
        assert(levels.update(i, l).drop_first() =~= levels.drop_first());
    } else {
        assert(levels.update(i, l).drop_first() =~= levels.drop_first().update(i - 1, l));
        lemma_count_update(levels.drop_first(), i - 1, l);
    }
}

pub proof fn lemma_count_remove(levels: Seq<LevelView>, i: int)
    requires
        0 <= i < levels.len(),
    ensures
        order_count(levels.remove(i)) == order_count(levels) - levels[i].orders.len(),
    decreases i,
{
    if i == 0 {
        assert(levels.remove(i) =~= levels.drop_first());
    } else {
        assert(levels.remove(i).drop_first() =~= levels.drop_first().remove(i - 1));
        lemma_count_remove(levels.drop_first(), i - 1);
    }
}

pub proof fn lemma_count_insert(levels: Seq<LevelView>, i: int, l: LevelView)
    requires
        0 <= i <= levels.len(),
    ensures
        order_count(levels.insert(i, l)) == order_count(levels) + l.orders.len(),
    decreases i,
{
    if i == 0 {
        assert(levels.insert(i, l).drop_first() =~= levels);
    } else {
        assert(levels.insert(i, l).drop_first() =~= levels.drop_first().insert(i - 1, l));
        lemma_count_insert(levels.drop_first(), i - 1, l);
    }
}

// How changes of one level keep a side well formed.

pub proof fn lemma_map_remove_twice(m: Map<int, Seq<OrderView>>, p: int, v: Seq<OrderView>)
    ensures
        m.insert(p, v).remove(p) == m.remove(p),
        m.remove(p).remove(p) == m.remove(p),
{
    assert(m.insert(p, v).remove(p) =~= m.remove(p));
    assert(m.remove(p).remove(p) =~= m.remove(p));
}

/// Removing an order keeps a side well formed, changes its mapping at that
/// level's price only, and never brings a better price to the front.
#[verifier::rlimit(60)]
pub proof fn lemma_remove_order(s: Side, levels: Seq<LevelView>, i: int, k: int, n: int)
    requires
        side_wf(s, levels),
        0 <= i < levels.len(),
        0 <= k < levels[i].orders.len(),
    ensures
        side_wf(s, remove_order(levels, i, k)),
        level_map(remove_order(levels, i, k)).remove(levels[i].price) == level_map(levels).remove(
            levels[i].price,
        ),
        order_count(remove_order(levels, i, k)) + 1 == order_count(levels),
        remove_order(levels, i, k).len() > 0 ==> !better(s, remove_order(levels, i, k)[0].price, levels[0].price),
        ids_below(levels, n) ==> ids_below(remove_order(levels, i, k), n),
{
    lemma_sorted_distinct(s, levels);
    let p = levels[i].price;
    let rest = levels[i].orders.remove(k);
    let r = remove_order(levels, i, k);
    if rest.len() == 0 {
        lemma_level_map_remove(levels, i);
        lemma_map_remove_twice(level_map(levels), p, Seq::empty());
        lemma_count_remove(levels, i);
        assert forall|a: int, b: int| 0 <= a < b < r.len() implies better(s, #[trigger] r[a].price, #[trigger] r[b].price) by {
            let a1 = if a < i { a } else { a + 1 };
            let b1 = if b < i { b } else { b + 1 };
            assert(r[a] == levels[a1]);
            assert(r[b] == levels[b1]);
        }
        if ids_below(levels, n) {
            assert forall|a: int, c: int| 0 <= a < r.len() && 0 <= c < r[a].orders.len() implies 0
                <= (#[trigger] r[a].orders[c]).id < n by {
                let a1 = if a < i { a } else { a + 1 };
                assert(levels[a1].orders[c] == r[a].orders[c]);
            }
        }
        if r.len() > 0 && i == 0 && levels.len() > 1 {
            assert(better(s, levels[0].price, levels[1].price));
        }
        if r.len() > 0 && i > 0 {
            assert(r[0] == levels[0]);
        }
    } else {
        let l = LevelView { orders: rest, ..levels[i] };
        lemma_level_map_update(levels, i, l);
        lemma_map_remove_twice(level_map(levels), p, rest);
        lemma_count_update(levels, i, l);
        assert forall|a: int, c: int| 0 <= a < r.len() && 0 <= c < r[a].orders.len() implies {
            let o = #[trigger] r[a].orders[c];
            &&& o.price == r[a].price
            &&& o.price > 0
            &&& o.side == s
            &&& o.qty > 0
        } by {
            if a == i {
                let c1 = if c < k { c } else { c + 1 };
                assert(r[a].orders[c] == levels[i].orders[c1]);
            }
        }
        if ids_below(levels, n) {
            assert forall|a: int, c: int| 0 <= a < r.len() && 0 <= c < r[a].orders.len() implies 0
                <= (#[trigger] r[a].orders[c]).id < n by {
                if a == i {
                    let c1 = if c < k { c } else { c + 1 };
                    assert(levels[i].orders[c1] == r[a].orders[c]);
                }
            }
        }
        assert forall|a: int, b: int| 0 <= a < b < r.len() implies better(s, #[trigger] r[a].price, #[trigger] r[b].price) by {
            assert(better(s, levels[a].price, levels[b].price));
        }
    }
}

/// A trade with the front order of the best level keeps a side well formed,
/// changes its mapping at that level's price only, takes away one order when
/// the front order was used up, and never brings a better price to the front.
#[verifier::rlimit(60)]
pub proof fn lemma_fill_best(s: Side, levels: Seq<LevelView>, qty: int, n: int)
    requires
        side_wf(s, levels),
        levels.len() > 0,
        qty > 0,
    ensures
        side_wf(s, fill_best(levels, qty)),
        level_map(levels).contains_key(levels[0].price),
        level_map(fill_best(levels, qty)).remove(levels[0].price) == level_map(levels).remove(
            levels[0].price,
        ),
        levels[0].orders[0].qty <= qty ==> order_count(fill_best(levels, qty)) + 1 == order_count(levels),
        levels[0].orders[0].qty > qty ==> order_count(fill_best(levels, qty)) == order_count(levels),
        fill_best(levels, qty).len() > 0 ==> !better(s, fill_best(levels, qty)[0].price, levels[0].price),
        ids_below(levels, n) ==> ids_below(fill_best(levels, qty), n),
{
    lemma_sorted_distinct(s, levels);
    lemma_level_map_at(levels, 0);
    let f = levels[0].orders[0];
    assert(f == levels[0].orders[0]);
    if f.qty <= qty {
        assert(levels[0].orders.drop_first() =~= levels[0].orders.remove(0));
        assert(fill_best(levels, qty) == remove_order(levels, 0, 0));
        lemma_remove_order(s, levels, 0, 0, n);
    } else {
        let rest = levels[0].orders.update(0, OrderView { qty: f.qty - qty, ..f });
        let l = LevelView { orders: rest, ..levels[0] };
        let r = fill_best(levels, qty);
        assert(r == levels.update(0, l));
        lemma_level_map_update(levels, 0, l);
        lemma_map_remove_twice(level_map(levels), levels[0].price, rest);
        lemma_count_update(levels, 0, l);
        assert forall|a: int, c: int| 0 <= a < r.len() && 0 <= c < r[a].orders.len() implies {
            let o = #[trigger] r[a].orders[c];
            &&& o.price == r[a].price
            &&& o.price > 0
            &&& o.side == s
            &&& o.qty > 0
        } by {
            if a == 0 && c > 0 {
                assert(r[a].orders[c] == levels[0].orders[c]);
            }
        }
        if ids_below(levels, n) {
            assert forall|a: int, c: int| 0 <= a < r.len() && 0 <= c < r[a].orders.len() implies 0
                <= (#[trigger] r[a].orders[c]).id < n by {
                if a == 0 && c == 0 {
                    assert(levels[0].orders[0].id == r[a].orders[c].id);
                } else if a == 0 {
                    assert(levels[0].orders[c] == r[a].orders[c]);
                }
            }
        }
        assert forall|a: int, b: int| 0 <= a < b < r.len() implies better(s, #[trigger] r[a].price, #[trigger] r[b].price) by {
            assert(better(s, levels[a].price, levels[b].price));
        }
    }
}

/// How many levels at the front have a better price than `p`.
pub open spec fn rest_index(levels: Seq<LevelView>, s: Side, p: int) -> int
    decreases levels.len(),
{
    if levels.len() == 0 || !better(s, levels[0].price, p) {
        0
    } else {
        1 + rest_index(levels.drop_first(), s, p)
    }
}

pub proof fn lemma_rest_index(levels: Seq<LevelView>, s: Side, p: int)
    ensures
        0 <= rest_index(levels, s, p) <= levels.len(),
        forall|j: int| 0 <= j < rest_index(levels, s, p) ==> better(s, #[trigger] levels[j].price, p),
        rest_index(levels, s, p) < levels.len() ==> !better(s, levels[rest_index(levels, s, p)].price, p),
    decreases levels.len(),
{
    if levels.len() > 0 && better(s, levels[0].price, p) {
        let t = levels.drop_first();
        lemma_rest_index(t, s, p);
        assert forall|j: int| 0 <= j < rest_index(levels, s, p) implies better(s, #[trigger] levels[j].price, p) by {
            if j > 0 {
                assert(levels[j] == t[j - 1]);
            }
        }
        if rest_index(levels, s, p) < levels.len() {
            assert(levels[rest_index(levels, s, p)] == t[rest_index(t, s, p)]);
        }
    }
}

/// Where an order comes to rest: at the first level whose price is not
/// better than its own.
pub proof fn lemma_rest_in_at(levels: Seq<LevelView>, s: Side, o: OrderView, i: int)
    requires
        0 <= i <= levels.len(),
        forall|j: int| 0 <= j < i ==> better(s, #[trigger] levels[j].price, o.price),
        i < levels.len() ==> !better(s, levels[i].price, o.price),
    ensures
        rest_in(levels, s, o) == if i < levels.len() && levels[i].price == o.price {
            levels.update(i, LevelView { orders: levels[i].orders.push(o), ..levels[i] })
        } else {
            levels.insert(i, single_level(o))
        },
    decreases i,
{
    if i == 0 {
        if levels.len() == 0 {
            assert(seq![single_level(o)] =~= levels.insert(0, single_level(o)));
        } else if levels[0].price != o.price {
            assert(seq![single_level(o)] + levels =~= levels.insert(0, single_level(o)));
        }
    } else {
        assert(better(s, levels[0].price, o.price));
        let t = levels.drop_first();
        assert forall|j: int| 0 <= j < i - 1 implies better(s, #[trigger] t[j].price, o.price) by {
            assert(t[j] == levels[j + 1]);
        }
        lemma_rest_in_at(t, s, o, i - 1);
        if i < levels.len() && levels[i].price == o.price {
            assert(seq![levels[0]] + t.update(
                i - 1,
                LevelView { orders: t[i - 1].orders.push(o), ..t[i - 1] },
            ) =~= levels.update(i, LevelView { orders: levels[i].orders.push(o), ..levels[i] }));
        } else {
            assert(seq![levels[0]] + t.insert(i - 1, single_level(o)) =~= levels.insert(i, single_level(o)));
        }
    }
}

/// An order at rest keeps a side well formed, changes its mapping at the
/// order's price only, adds one order, and puts at the front either the
/// former best level or the order's own price.
#[verifier::rlimit(60)]
pub proof fn lemma_rest_in(s: Side, levels: Seq<LevelView>, o: OrderView, n: int)
    requires
        side_wf(s, levels),
        o.side == s,
        o.qty > 0,
        o.price > 0,
        0 <= o.id < n,
    ensures
        side_wf(s, rest_in(levels, s, o)),
        level_map(rest_in(levels, s, o)).contains_key(o.price),
        level_map(rest_in(levels, s, o)).remove(o.price) == level_map(levels).remove(o.price),
        order_count(rest_in(levels, s, o)) == order_count(levels) + 1,
        rest_in(levels, s, o).len() > 0,
        rest_in(levels, s, o)[0].price == o.price || (levels.len() > 0 && rest_in(levels, s, o)[0].price
            == levels[0].price),
        ids_below(levels, n) ==> ids_below(rest_in(levels, s, o), n),
{
    lemma_sorted_distinct(s, levels);
    let p = o.price;
    let i = rest_index(levels, s, p);
    lemma_rest_index(levels, s, p);
    lemma_rest_in_at(levels, s, o, i);
    let r = rest_in(levels, s, o);
    if i < levels.len() && levels[i].price == p {
        let l = LevelView { orders: levels[i].orders.push(o), ..levels[i] };
        lemma_level_map_update(levels, i, l);
        lemma_map_remove_twice(level_map(levels), p, l.orders);
        lemma_count_update(levels, i, l);
        lemma_level_map_at(r, i);
        assert forall|a: int, c: int| 0 <= a < r.len() && 0 <= c < r[a].orders.len() implies {
            let x = #[trigger] r[a].orders[c];
            &&& x.price == r[a].price
            &&& x.price > 0
            &&& x.side == s
            &&& x.qty > 0
        } by {
            if a == i && c < levels[i].orders.len() {
                assert(r[a].orders[c] == levels[i].orders[c]);
            }
        }
        if ids_below(levels, n) {
            assert forall|a: int, c: int| 0 <= a < r.len() && 0 <= c < r[a].orders.len() implies 0
                <= (#[trigger] r[a].orders[c]).id < n by {
                if a == i && c < levels[i].orders.len() {
                    assert(r[a].orders[c] == levels[i].orders[c]);
                }
            }
        }
        assert forall|a: int, b: int| 0 <= a < b < r.len() implies better(s, #[trigger] r[a].price, #[trigger] r[b].price) by {
            assert(better(s, levels[a].price, levels[b].price));
        }
    } else {
        let l = single_level(o);
        assert forall|j: int| 0 <= j < levels.len() implies levels[j].price != p by {
            if j < i {
                assert(better(s, levels[j].price, p));
            } else {
                assert(!better(s, levels[i].price, p));
                if j > i {
                    assert(better(s, levels[i].price, levels[j].price));
                }
            }
        }
        lemma_level_map_insert(levels, i, l);
        lemma_map_remove_twice(level_map(levels), p, l.orders);
        lemma_count_insert(levels, i, l);
        lemma_level_map_at(r, i);
        assert forall|a: int, c: int| 0 <= a < r.len() && 0 <= c < r[a].orders.len() implies {
            let x = #[trigger] r[a].orders[c];
            &&& x.price == r[a].price
            &&& x.price > 0
            &&& x.side == s
            &&& x.qty > 0
        } by {
            if a < i {
                assert(r[a] == levels[a]);
            } else if a > i {
                assert(r[a] == levels[a - 1]);
            }
        }
        if ids_below(levels, n) {
            assert forall|a: int, c: int| 0 <= a < r.len() && 0 <= c < r[a].orders.len() implies 0
                <= (#[trigger] r[a].orders[c]).id < n by {
                if a < i {
                    assert(r[a] == levels[a]);
                } else if a > i {
                    assert(r[a] == levels[a - 1]);
                }
            }
        }
        assert forall|a: int, b: int| 0 <= a < b < r.len() implies better(s, #[trigger] r[a].price, #[trigger] r[b].price) by {
            if b < i {
                assert(better(s, levels[a].price, levels[b].price));
            } else if b == i {
                assert(better(s, levels[a].price, p));
            } else if a < i {
                assert(better(s, levels[a].price, p));
                assert(!better(s, levels[i].price, p));
                if b - 1 > i {
                    assert(better(s, levels[i].price, levels[b - 1].price));
                }
            } else if a == i {
                assert(!better(s, levels[i].price, p));
                if b - 1 > i {
                    assert(better(s, levels[i].price, levels[b - 1].price));
                }
            } else {
                assert(better(s, levels[a - 1].price, levels[b - 1].price));
            }
        }
    }
}

/// An order after a change of quantity at the same price: a larger
/// quantity comes with the new time stamp (the order lost its place), a
/// smaller or equal one keeps everything else.
pub open spec fn amended(e: OrderView, qty: int, time: Seq<char>) -> OrderView {
    if qty > e.qty {
        OrderView { qty, transact_time: time, ..e }
    } else {
        OrderView { qty, ..e }
    }
}

/// A queue after order `k` changed its quantity: a larger quantity sends it
/// to the back, behind every order there; a smaller or equal one leaves it
/// where it stands.
pub open spec fn amend_orders(orders: Seq<OrderView>, k: int, qty: int, time: Seq<char>) -> Seq<OrderView> {
    if qty > orders[k].qty {
        orders.remove(k).push(amended(orders[k], qty, time))
    } else {
        orders.update(k, amended(orders[k], qty, time))
    }
}

/// A side after order `k` of level `i` changed its quantity.
pub open spec fn amend(levels: Seq<LevelView>, i: int, k: int, qty: int, time: Seq<char>) -> Seq<LevelView> {
    levels.update(i, LevelView { orders: amend_orders(levels[i].orders, k, qty, time), ..levels[i] })
}

#[verifier::rlimit(60)]
pub proof fn lemma_amend(s: Side, levels: Seq<LevelView>, i: int, k: int, qty: int, time: Seq<char>, n: int)
    requires
        side_wf(s, levels),
        0 <= i < levels.len(),
        0 <= k < levels[i].orders.len(),
        qty > 0,
    ensures
        side_wf(s, amend(levels, i, k, qty, time)),
        level_map(levels).contains_key(levels[i].price),
        level_map(amend(levels, i, k, qty, time)).contains_key(levels[i].price),
        level_map(amend(levels, i, k, qty, time)).remove(levels[i].price) == level_map(levels).remove(
            levels[i].price,
        ),
        order_count(amend(levels, i, k, qty, time)) == order_count(levels),
        amend(levels, i, k, qty, time)[0].price == levels[0].price,
        ids_below(levels, n) ==> ids_below(amend(levels, i, k, qty, time), n),
{
    lemma_sorted_distinct(s, levels);
    lemma_level_map_at(levels, i);
    let os = levels[i].orders;
    let na = amend_orders(os, k, qty, time);
    let l = LevelView { orders: na, ..levels[i] };
    let r = amend(levels, i, k, qty, time);
    assert(os[k] == os[k]);
    lemma_level_map_update(levels, i, l);
    lemma_map_remove_twice(level_map(levels), levels[i].price, na);
    lemma_count_update(levels, i, l);
    lemma_level_map_at(r, i);
    assert(na.len() == os.len());
    assert forall|c: int| 0 <= c < na.len() implies {
        &&& (#[trigger] na[c]).price == os[k].price
        &&& na[c].side == os[k].side
        &&& na[c].qty > 0
        &&& (na[c].id == os[k].id || exists|c2: int| 0 <= c2 < os.len() && na[c] == os[c2])
    } by {
        assert(os[k] == levels[i].orders[k]);
        if qty > os[k].qty {
            if c < k {
                assert(na[c] == os[c]);
                assert(os[c] == levels[i].orders[c]);
            } else if c < os.len() - 1 {
                assert(na[c] == os[c + 1]);
                assert(os[c + 1] == levels[i].orders[c + 1]);
            }
        } else {
            if c != k {
                assert(na[c] == os[c]);
                assert(os[c] == levels[i].orders[c]);
            }
        }
    }
    assert forall|a: int, c: int| 0 <= a < r.len() && 0 <= c < r[a].orders.len() implies {
        let x = #[trigger] r[a].orders[c];
        &&& x.price == r[a].price
        &&& x.side == s
        &&& x.qty > 0
    } by {
        if a == i {
            assert(r[a].orders[c] == na[c]);
        }
    }
    if ids_below(levels, n) {
        assert forall|a: int, c: int| 0 <= a < r.len() && 0 <= c < r[a].orders.len() implies 0
            <= (#[trigger] r[a].orders[c]).id < n by {
            if a == i {
                assert(r[a].orders[c] == na[c]);
                assert(os[k] == levels[i].orders[k]);
                if na[c].id != os[k].id {
                    let c2 = choose|c2: int| 0 <= c2 < os.len() && na[c] == os[c2];
                    assert(os[c2] == levels[i].orders[c2]);
                }
            }
        }
    }
    assert forall|a: int, b: int| 0 <= a < b < r.len() implies better(s, #[trigger] r[a].price, #[trigger] r[b].price) by {
        assert(better(s, levels[a].price, levels[b].price));
    }
    assert forall|a: int| 0 <= a < r.len() implies (#[trigger] r[a]).orders.len() > 0 by {
        assert(levels[a].orders.len() > 0);
    }
}

/// The place a scan finds first for an id is the only such place.
pub proof fn lemma_found_unique(b: BookView, s: Side, i: int, k: int, id: int)
    requires
        found_at(b, s, i, k, id),
        distinct_ids(side_of(b, s)[i].orders),
    ensures
        forall|s2: Side, i2: int, k2: int| #[trigger] found_at(b, s2, i2, k2, id) ==> s2 == s && i2 == i && k2 == k,
{
    assert forall|s2: Side, i2: int, k2: int| #[trigger] found_at(b, s2, i2, k2, id) implies s2 == s && i2 == i
        && k2 == k by {
        if s2 != s {
            if s == Side::Buy {
                assert(!has_id(b.bids[i].orders, id));
            } else {
                assert(!has_id(b.bids[i2].orders, id));
            }
        } else if i2 < i {
            assert(!has_id(side_of(b, s)[i2].orders, id));
        } else if i2 > i {
            assert(!has_id(side_of(b, s)[i].orders, id));
        } else if k2 != k {
            let os = side_of(b, s)[i].orders;
            if k2 < k {
                assert(os[k2].id != os[k].id);
            } else {
                assert(os[k].id != os[k2].id);
            }
        }
    }
}

/// The quantity of a queue of orders.
pub open spec fn qty_sum(orders: Seq<OrderView>) -> int
    decreases orders.len(),
{
    if orders.len() == 0 {
        0
    } else {
        orders[0].qty + qty_sum(orders.drop_first())
    }
}

/// The quantity resting on a side.
pub open spec fn side_qty(levels: Seq<LevelView>) -> int
    decreases levels.len(),
{
    if levels.len() == 0 {
        0
    } else {
        qty_sum(levels[0].orders) + side_qty(levels.drop_first())
    }
}

proof fn lemma_fill_best_qty(levels: Seq<LevelView>, qty: int)
    requires
        levels.len() > 0,
        levels[0].orders.len() > 0,
        levels[0].orders[0].qty > 0,
        qty > 0,
    ensures
        side_qty(fill_best(levels, qty)) == side_qty(levels) - (if levels[0].orders[0].qty <= qty {
            levels[0].orders[0].qty
        } else {
            qty
        }),
{
    let os = levels[0].orders;
    let rest = after_fill(os, qty);
    if os[0].qty <= qty {
        if rest.len() == 0 {
            assert(qty_sum(os.drop_first()) == 0);
        } else {
            assert(levels.update(0, LevelView { orders: rest, ..levels[0] }).drop_first() =~= levels.drop_first());
        }
    } else {
        assert(rest.drop_first() =~= os.drop_first());
        assert(levels.update(0, LevelView { orders: rest, ..levels[0] }).drop_first() =~= levels.drop_first());
    }
}

/// Conservation of quantity in matching: each trade takes at least one unit
/// and no more than what is left of either order; the incoming quantity left
/// lies between nothing and all of it; and what the opposite side lost is
/// exactly what the incoming order traded, while its own side is untouched.
pub proof fn lemma_conservation(b: BookView, s: Side, price: int, qty: int)
    requires
        side_wf(opposite(s), side_of(b, opposite(s))),
        qty >= 0,
    ensures
        can_match(b, s, price, qty) ==> 0 < trade_qty(b, s, qty) <= qty && trade_qty(b, s, qty)
            <= side_of(b, opposite(s))[0].orders[0].qty,
        0 <= match_loop(b, s, price, qty).1 <= qty,
        side_qty(side_of(b, opposite(s))) - side_qty(side_of(match_loop(b, s, price, qty).0, opposite(s)))
            == qty - match_loop(b, s, price, qty).1,
        side_of(match_loop(b, s, price, qty).0, s) == side_of(b, s),
    decreases qty,
{
    if can_match(b, s, price, qty) {
        let opp = side_of(b, opposite(s));
        let t = trade_qty(b, s, qty);
        let b1 = with_side(b, opposite(s), fill_best(opp, qty));
        lemma_fill_best(opposite(s), opp, qty, 0);
        lemma_fill_best_qty(opp, qty);
        assert(side_of(b1, opposite(s)) == fill_best(opp, qty));
        assert(side_of(b1, s) == side_of(b, s));
        lemma_conservation(b1, s, price, qty - t);
    }
}

/// First in, first out within a level: an order coming to rest at a price
/// that has a level goes behind every order there; a trade always takes the
/// front order of the best level; a change to a smaller or equal quantity
/// leaves every order where it stands; a larger one sends the order behind
/// every other order of its level.
pub proof fn lemma_fifo_within_level(
    s: Side,
    levels: Seq<LevelView>,
    o: OrderView,
    i: int,
    k: int,
    qty: int,
    time: Seq<char>,
)
    requires
        side_wf(s, levels),
        0 <= i < levels.len(),
    ensures
        levels[i].price == o.price ==> rest_in(levels, s, o)[i].orders == levels[i].orders.push(o),
        levels[0].orders.len() > 0 && levels[0].orders[0].qty > qty > 0 ==> fill_best(levels, qty)[0].orders
            == levels[0].orders.update(0, OrderView { qty: levels[0].orders[0].qty - qty, ..levels[0].orders[0] }),
        levels[0].orders.len() > 1 && 0 < levels[0].orders[0].qty <= qty ==> fill_best(levels, qty)[0].orders
            == levels[0].orders.drop_first(),
        0 <= k < levels[i].orders.len() && qty <= levels[i].orders[k].qty ==> forall|j: int|
            0 <= j < levels[i].orders.len() ==> (#[trigger] amend_orders(levels[i].orders, k, qty, time)[j]).id
                == levels[i].orders[j].id,
        0 <= k < levels[i].orders.len() && qty > levels[i].orders[k].qty ==> {
            let a = amend_orders(levels[i].orders, k, qty, time);
            &&& a.len() == levels[i].orders.len()
            &&& a.last().id == levels[i].orders[k].id
            &&& a.drop_last() == levels[i].orders.remove(k)
        },
{
    lemma_sorted_distinct(s, levels);
    if levels[i].price == o.price {
        let idx = rest_index(levels, s, o.price);
        lemma_rest_index(levels, s, o.price);
        if idx < i {
            assert(better(s, levels[idx].price, levels[i].price));
        } else if idx > i {
            assert(better(s, levels[i].price, o.price));
        }
        lemma_rest_in_at(levels, s, o, idx);
    }
    if 0 <= k < levels[i].orders.len() && qty > levels[i].orders[k].qty {
        let a = amend_orders(levels[i].orders, k, qty, time);
        assert(a.drop_last() =~= levels[i].orders.remove(k));
    }
}

// Uniqueness of ids.

/// Whether order `k` of level `i` exists.
pub open spec fn pos_ok(levels: Seq<LevelView>, i: int, k: int) -> bool {
    0 <= i < levels.len() && 0 <= k < levels[i].orders.len()
}

/// No two orders of a side share an id.
pub open spec fn unique_in_side(levels: Seq<LevelView>) -> bool {
    forall|i1: int, k1: int, i2: int, k2: int|
        pos_ok(levels, i1, k1) && pos_ok(levels, i2, k2) && (i1 != i2 || k1 != k2)
            ==> #[trigger] levels[i1].orders[k1].id != #[trigger] levels[i2].orders[k2].id
}

/// Whether an order of the side has the id.
pub open spec fn in_side(levels: Seq<LevelView>, id: int) -> bool {
    exists|i: int, k: int| pos_ok(levels, i, k) && #[trigger] levels[i].orders[k].id == id
}

/// An id appears at most once in the whole book.
pub open spec fn ids_unique(b: BookView) -> bool {
    &&& unique_in_side(b.bids)
    &&& unique_in_side(b.asks)
    &&& forall|id: int| #[trigger] in_side(b.bids, id) ==> !in_side(b.asks, id)
}

/// When every order of `r` but the one at `np` (if `fresh`) is an order of
/// `levels` at a place given by `f`, distinct places going to distinct
/// places, and the one at `np` has an id that `levels` does not hold, then
/// `r` has unique ids where `levels` had, and holds no other id.
pub proof fn lemma_ids_from(
    levels: Seq<LevelView>,
    r: Seq<LevelView>,
    f: spec_fn(int, int) -> (int, int),
    fresh: bool,
    np: (int, int),
)
    requires
        forall|a: int, c: int|
            pos_ok(r, a, c) && !(fresh && a == np.0 && c == np.1) ==> pos_ok(levels, f(a, c).0, f(a, c).1)
                && #[trigger] r[a].orders[c].id == levels[f(a, c).0].orders[f(a, c).1].id,
        forall|a1: int, c1: int, a2: int, c2: int|
            pos_ok(r, a1, c1) && pos_ok(r, a2, c2) && (a1 != a2 || c1 != c2) && !(fresh && a1 == np.0 && c1
                == np.1) && !(fresh && a2 == np.0 && c2 == np.1) ==> #[trigger] f(a1, c1) != #[trigger] f(a2, c2),
        fresh ==> pos_ok(r, np.0, np.1) && !in_side(levels, r[np.0].orders[np.1].id),
    ensures
        unique_in_side(levels) ==> unique_in_side(r),
        forall|id: int| #[trigger] in_side(r, id) ==> in_side(levels, id) || (fresh && id == r[np.0].orders[np.1].id),
{
    if unique_in_side(levels) {
        assert forall|a1: int, c1: int, a2: int, c2: int|
            pos_ok(r, a1, c1) && pos_ok(r, a2, c2) && (a1 != a2 || c1 != c2) implies #[trigger] r[a1].orders[c1].id
            != #[trigger] r[a2].orders[c2].id by {
            let n1 = fresh && a1 == np.0 && c1 == np.1;
            let n2 = fresh && a2 == np.0 && c2 == np.1;
            if n1 && !n2 {
                let p = f(a2, c2);
                assert(r[a2].orders[c2].id == levels[p.0].orders[p.1].id);
            } else if n2 && !n1 {
                let p = f(a1, c1);
                assert(r[a1].orders[c1].id == levels[p.0].orders[p.1].id);
            } else if !n1 && !n2 {
                let src1 = f(a1, c1);
                let src2 = f(a2, c2);
                assert(r[a1].orders[c1].id == levels[src1.0].orders[src1.1].id);
                assert(r[a2].orders[c2].id == levels[src2.0].orders[src2.1].id);
                assert(src1 != src2);
                assert(levels[src1.0].orders[src1.1].id != levels[src2.0].orders[src2.1].id);
            }
        }
    }
    assert forall|id: int| #[trigger] in_side(r, id) implies in_side(levels, id) || (fresh && id == r[np.0].orders[
        np.1].id) by {
        let (a, c) = choose|a: int, c: int| pos_ok(r, a, c) && #[trigger] r[a].orders[c].id == id;
        if !(fresh && a == np.0 && c == np.1) {
            let p = f(a, c);
            assert(r[a].orders[c].id == levels[p.0].orders[p.1].id);
        }
    }
}

pub proof fn lemma_ids_remove_order(levels: Seq<LevelView>, i: int, k: int)
    requires
        pos_ok(levels, i, k),
    ensures
        unique_in_side(levels) ==> unique_in_side(remove_order(levels, i, k)),
        forall|id: int| #[trigger] in_side(remove_order(levels, i, k), id) ==> in_side(levels, id),
{
    let r = remove_order(levels, i, k);
    let one = levels[i].orders.len() == 1;
    let f = |a: int, c: int|
        if one {
            (if a < i { a } else { a + 1 }, c)
        } else if a == i {
            (a, if c < k { c } else { c + 1 })
        } else {
            (a, c)
        };
    assert forall|a: int, c: int| pos_ok(r, a, c) && !(false && a == 0 && c == 0) implies pos_ok(levels, f(a, c).0, f(a, c).1)
        && #[trigger] r[a].orders[c].id == levels[f(a, c).0].orders[f(a, c).1].id by {
        if one {
            if a < i {
                assert(r[a] == levels[a]);
            } else {
                assert(r[a] == levels[a + 1]);
            }
        } else if a == i {
            if c < k {
                assert(r[a].orders[c] == levels[i].orders[c]);
            } else {
                assert(r[a].orders[c] == levels[i].orders[c + 1]);
            }
        } else {
            assert(r[a] == levels[a]);
        }
    }
    lemma_ids_from(levels, r, f, false, (0, 0));
}

pub proof fn lemma_ids_fill_best(s: Side, levels: Seq<LevelView>, qty: int)
    requires
        side_wf(s, levels),
        levels.len() > 0,
        qty > 0,
    ensures
        unique_in_side(levels) ==> unique_in_side(fill_best(levels, qty)),
        forall|id: int| #[trigger] in_side(fill_best(levels, qty), id) ==> in_side(levels, id),
{
    let f0 = levels[0].orders[0];
    assert(f0 == levels[0].orders[0]);
    if f0.qty <= qty {
        assert(levels[0].orders.drop_first() =~= levels[0].orders.remove(0));
        assert(fill_best(levels, qty) == remove_order(levels, 0, 0));
        lemma_ids_remove_order(levels, 0, 0);
    } else {
        let r = fill_best(levels, qty);
        let f = |a: int, c: int| (a, c);
        assert forall|a: int, c: int| pos_ok(r, a, c) && !(false && a == 0 && c == 0) implies pos_ok(levels, f(a, c).0, f(a, c).1)
            && #[trigger] r[a].orders[c].id == levels[f(a, c).0].orders[f(a, c).1].id by {
            if a == 0 && c > 0 {
                assert(r[a].orders[c] == levels[0].orders[c]);
            }
        }
        lemma_ids_from(levels, r, f, false, (0, 0));
    }
}

pub proof fn lemma_ids_amend(levels: Seq<LevelView>, i: int, k: int, qty: int, time: Seq<char>)
    requires
        pos_ok(levels, i, k),
    ensures
        unique_in_side(levels) ==> unique_in_side(amend(levels, i, k, qty, time)),
        forall|id: int| #[trigger] in_side(amend(levels, i, k, qty, time), id) ==> in_side(levels, id),
{
    let r = amend(levels, i, k, qty, time);
    let os = levels[i].orders;
    let n = os.len();
    let up = qty > os[k].qty;
    let f = |a: int, c: int|
        if a == i && up {
            if c < k {
                (a, c)
            } else if c < n - 1 {
                (a, c + 1)
            } else {
                (a, k)
            }
        } else {
            (a, c)
        };
    assert forall|a: int, c: int| pos_ok(r, a, c) && !(false && a == 0 && c == 0) implies pos_ok(levels, f(a, c).0, f(a, c).1)
        && #[trigger] r[a].orders[c].id == levels[f(a, c).0].orders[f(a, c).1].id by {
        if a == i {
            let na = r[a].orders;
            assert(na == amend_orders(os, k, qty, time));
            if up {
                if c < k {
                    assert(na[c] == os[c]);
                } else if c < n - 1 {
                    assert(na[c] == os[c + 1]);
                } else {
                    assert(na[c] == amended(os[k], qty, time));
                }
            } else if c != k {
                assert(na[c] == os[c]);
            }
        }
    }
    lemma_ids_from(levels, r, f, false, (0, 0));
}

pub proof fn lemma_ids_rest_in(s: Side, levels: Seq<LevelView>, o: OrderView)
    requires
        !in_side(levels, o.id),
    ensures
        unique_in_side(levels) ==> unique_in_side(rest_in(levels, s, o)),
        forall|id: int| #[trigger] in_side(rest_in(levels, s, o), id) ==> in_side(levels, id) || id == o.id,
        in_side(rest_in(levels, s, o), o.id),
{
    let idx = rest_index(levels, s, o.price);
    lemma_rest_index(levels, s, o.price);
    lemma_rest_in_at(levels, s, o, idx);
    let r = rest_in(levels, s, o);
    if idx < levels.len() && levels[idx].price == o.price {
        let np = (idx, levels[idx].orders.len() as int);
        let f = |a: int, c: int| (a, c);
        assert forall|a: int, c: int| pos_ok(r, a, c) && !(true && a == np.0 && c == np.1) implies pos_ok(levels, f(a, c).0, f(a, c).1)
            && #[trigger] r[a].orders[c].id == levels[f(a, c).0].orders[f(a, c).1].id by {
            if a == idx {
                assert(r[a].orders[c] == levels[idx].orders[c]);
            }
        }
        assert(r[np.0].orders[np.1] == o);
        lemma_ids_from(levels, r, f, true, np);
    } else {
        let np = (idx, 0int);
        let f = |a: int, c: int| (if a < idx { a } else { a - 1 }, c);
        assert forall|a: int, c: int| pos_ok(r, a, c) && !(true && a == np.0 && c == np.1) implies pos_ok(levels, f(a, c).0, f(a, c).1)
            && #[trigger] r[a].orders[c].id == levels[f(a, c).0].orders[f(a, c).1].id by {
            if a < idx {
                assert(r[a] == levels[a]);
            } else if a > idx {
                assert(r[a] == levels[a - 1]);
            }
        }
        assert forall|a1: int, c1: int, a2: int, c2: int|
            pos_ok(r, a1, c1) && pos_ok(r, a2, c2) && (a1 != a2 || c1 != c2) && !(true && a1 == np.0 && c1 == np.1)
                && !(true && a2 == np.0 && c2 == np.1) implies #[trigger] f(a1, c1) != #[trigger] f(a2, c2) by {
            assert(a1 != idx && a2 != idx);
        }
        assert(r[np.0].orders[np.1] == o);
        lemma_ids_from(levels, r, f, true, np);
    }
    assert(r[idx].orders[if idx < levels.len() && levels[idx].price == o.price { levels[idx].orders.len() as int } else { 0 }] == o);
}

/// Changing one side of a book whose ids were unique, so that the side has
/// unique ids and no id but those it had and perhaps one fresh id that the
/// other side lacks, keeps the ids of the book unique.
pub proof fn lemma_unique_after(b0: BookView, s: Side, r: Seq<LevelView>, fresh: bool, id0: int)
    requires
        ids_unique(b0),
        unique_in_side(side_of(b0, s)) ==> unique_in_side(r),
        forall|id: int| #[trigger] in_side(r, id) ==> in_side(side_of(b0, s), id) || (fresh && id == id0),
        fresh ==> !in_side(side_of(b0, opposite(s)), id0),
    ensures
        ids_unique(with_side(b0, s, r)),
{
    let b1 = with_side(b0, s, r);
    assert forall|id: int| #[trigger] in_side(b1.bids, id) implies !in_side(b1.asks, id) by {
        if s == Side::Buy {
            if in_side(side_of(b0, s), id) {
                assert(!in_side(b0.asks, id));
            }
        } else {
            assert(in_side(b0.bids, id));
            if in_side(b1.asks, id) {
                assert(in_side(r, id));
                if in_side(side_of(b0, s), id) {
                    assert(!in_side(b0.asks, id));
                }
            }
        }
    }
}

/// No order of a side has an id at or above `n` when all are below it.
pub proof fn lemma_below_not_in(levels: Seq<LevelView>, n: int)
    requires
        ids_below(levels, n),
    ensures
        !in_side(levels, n),
{
    if in_side(levels, n) {
        let (i, k) = choose|i: int, k: int| pos_ok(levels, i, k) && #[trigger] levels[i].orders[k].id == n;
        assert(levels[i].orders[k].id < n);
    }
}

/// Level `r` is level `l` without its first `m` orders, the next one perhaps
/// partly filled: the same order (id, side, price, stamp) with no more
/// quantity than it had, and everything behind it as it was.
pub open spec fn trimmed(l: LevelView, m: int, r: LevelView) -> bool {
    &&& r.price == l.price
    &&& 0 <= m < l.orders.len()
    &&& r.orders.len() == l.orders.len() - m
    &&& r.orders.drop_first() == l.orders.skip(m + 1)
    &&& r.orders[0] == OrderView { qty: r.orders[0].qty, ..l.orders[m] }
    &&& 0 < r.orders[0].qty <= l.orders[m].qty
}

/// Side `res` is side `opp` after an incoming order of side `s` at `price`
/// took its first `d` levels whole, each of them marketable, and then
/// perhaps the front part of the next level (see `trimmed`).
pub open spec fn drained(opp: Seq<LevelView>, res: Seq<LevelView>, s: Side, price: int, d: int, m: int) -> bool {
    &&& 0 <= d <= opp.len()
    &&& forall|j: int| 0 <= j < d ==> marketable(s, price, #[trigger] opp[j].price)
    &&& (res == opp.skip(d) || (d < opp.len() && res.len() == opp.len() - d && trimmed(opp[d], m, res[0])
        && res.drop_first() == opp.skip(d + 1)))
}

proof fn lemma_drained_level_gone(opp: Seq<LevelView>, res: Seq<LevelView>, s: Side, price: int, d1: int, m1: int)
    requires
        opp.len() > 0,
        marketable(s, price, opp[0].price),
        drained(opp.drop_first(), res, s, price, d1, m1),
    ensures
        drained(opp, res, s, price, d1 + 1, m1),
{
    let opp1 = opp.drop_first();
    assert forall|j: int| 0 <= j < d1 + 1 implies marketable(s, price, #[trigger] opp[j].price) by {
        if j > 0 {
            assert(opp[j] == opp1[j - 1]);
        }
    }
    assert(opp1.skip(d1) =~= opp.skip(d1 + 1));
    if d1 < opp1.len() {
        assert(opp1[d1] == opp[d1 + 1]);
        assert(opp1.skip(d1 + 1) =~= opp.skip(d1 + 2));
    }
}

#[verifier::rlimit(40)]
proof fn lemma_drained_front_gone(opp: Seq<LevelView>, res: Seq<LevelView>, s: Side, price: int, d1: int, m1: int)
    requires
        opp.len() > 0,
        opp[0].orders.len() > 1,
        opp[0].orders[1].qty > 0,
        marketable(s, price, opp[0].price),
        drained(
            opp.update(0, LevelView { orders: opp[0].orders.drop_first(), ..opp[0] }),
            res,
            s,
            price,
            d1,
            m1,
        ),
    ensures
        exists|d: int, m: int| drained(opp, res, s, price, d, m),
{
    let l = opp[0];
    let l1 = LevelView { orders: l.orders.drop_first(), ..l };
    let opp1 = opp.update(0, l1);
    assert(opp1.skip(1) =~= opp.skip(1));
    if d1 == 0 {
        if res == opp1.skip(d1) {
            assert(opp1.skip(0) =~= opp1);
            assert(l1.orders.drop_first() =~= l.orders.skip(2));
            assert(l1.orders[0] == l.orders[1]);
            assert(res[0] == l1);
            assert(res[0].orders[0] == OrderView { qty: res[0].orders[0].qty, ..l.orders[1] });
            assert(res.drop_first() =~= opp.skip(1));
            assert(drained(opp, res, s, price, 0, 1));
        } else {
            assert(l1.orders.skip(m1 + 1) =~= l.orders.skip(m1 + 2));
            assert(l1.orders[m1] == l.orders[m1 + 1]);
            assert(drained(opp, res, s, price, 0, m1 + 1));
        }
    } else {
        assert(opp1.skip(d1) =~= opp.skip(d1));
        assert forall|j: int| 0 <= j < d1 implies marketable(s, price, #[trigger] opp[j].price) by {
            if j > 0 {
                assert(opp[j] == opp1[j]);
            }
        }
        if d1 < opp1.len() {
            assert(opp1[d1] == opp[d1]);
            assert(opp1.skip(d1 + 1) =~= opp.skip(d1 + 1));
        }
        assert(drained(opp, res, s, price, d1, m1));
    }
}

/// Price priority and arrival order in matching: an incoming order takes
/// the opposite side from its best level on, whole levels first, each one
/// marketable, then the oldest orders of the next level, the last of them
/// perhaps partly filled and left at the front with its id; every other
/// resting order and level stays as it was, in the same order.
pub proof fn lemma_match_drains_best_first(b: BookView, s: Side, price: int, qty: int)
    requires
        side_wf(opposite(s), side_of(b, opposite(s))),
        qty >= 0,
    ensures
        exists|d: int, m: int|
            drained(
                side_of(b, opposite(s)),
                side_of(match_loop(b, s, price, qty).0, opposite(s)),
                s,
                price,
                d,
                m,
            ),
    decreases qty,
{
    let os = opposite(s);
    let opp = side_of(b, os);
    let res = side_of(match_loop(b, s, price, qty).0, os);
    if !can_match(b, s, price, qty) {
        assert(opp.skip(0) =~= opp);
        assert(drained(opp, res, s, price, 0, 0));
    } else {
        let t = trade_qty(b, s, qty);
        let opp1 = fill_best(opp, qty);
        let b1 = with_side(b, os, opp1);
        lemma_fill_best(os, opp, qty, 0);
        assert(side_of(b1, os) == opp1);
        assert(res == side_of(match_loop(b1, s, price, qty - t).0, os));
        let l = opp[0];
        let f = l.orders[0];
        assert(f == l.orders[0]);
        if f.qty > qty {
            assert(!can_match(b1, s, price, qty - t));
            assert(res == opp1);
            assert(res[0].orders.drop_first() =~= l.orders.skip(1));
            assert(res.drop_first() =~= opp.skip(1));
            assert(drained(opp, res, s, price, 0, 0));
        } else {
            lemma_match_drains_best_first(b1, s, price, qty - t);
            let (d1, m1) = choose|d1: int, m1: int| drained(opp1, res, s, price, d1, m1);
            if l.orders.len() == 1 {
                assert(opp1 == opp.drop_first());
                lemma_drained_level_gone(opp, res, s, price, d1, m1);
            } else {
                assert(opp1 == opp.update(0, LevelView { orders: l.orders.drop_first(), ..l }));
                assert(l.orders[1] == opp[0].orders[1]);
                lemma_drained_front_gone(opp, res, s, price, d1, m1);
            }
        }
    }
}

/// What an insert does to the other side of the book (its final book is
/// `insert_outcome`'s, see `MatchingEngine::insert`): it drains that side
/// best price first and oldest order first (see `drained`); the quantity it
/// took from there is exactly what the incoming order traded, and what is
/// left of the incoming order lies between nothing and all of it.
pub proof fn lemma_insert_laws(b: BookView, o: OrderView)
    requires
        book_wf(b),
        o.qty >= 0,
    ensures
        exists|d: int, m: int|
            drained(
                side_of(b, opposite(o.side)),
                side_of(insert_outcome(b, o).0, opposite(o.side)),
                o.side,
                o.price,
                d,
                m,
            ),
        side_qty(side_of(b, opposite(o.side))) - side_qty(side_of(insert_outcome(b, o).0, opposite(o.side)))
            == o.qty - insert_outcome(b, o).1.qty,
        0 <= insert_outcome(b, o).1.qty <= o.qty,
        insert_outcome(b, o).1.id == o.id,
{
    let os = opposite(o.side);
    assert(side_wf(os, side_of(b, os))) by {
        if o.side == Side::Buy {
            assert(side_of(b, os) == b.asks);
        } else {
            assert(side_of(b, os) == b.bids);
        }
    }
    lemma_match_drains_best_first(b, o.side, o.price, o.qty);
    lemma_conservation(b, o.side, o.price, o.qty);
    let m = match_loop(b, o.side, o.price, o.qty);
    let o1 = OrderView { qty: m.1, ..o };
    if m.1 > 0 {
        let b2 = with_side(m.0, o.side, rest_in(side_of(m.0, o.side), o.side, o1));
        assert(side_of(b2, os) == side_of(m.0, os));
    }
    assert(side_of(insert_outcome(b, o).0, os) == side_of(m.0, os));
    let (d, k) = choose|d: int, k: int| drained(side_of(b, os), side_of(m.0, os), o.side, o.price, d, k);
    assert(drained(side_of(b, os), side_of(insert_outcome(b, o).0, os), o.side, o.price, d, k));
}

} // verus!
