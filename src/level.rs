use vstd::prelude::*;
use linked_hash_map::LinkedHashMap;
use crate::order::{Order, OrderView, views};

verus! {

/// The insertion-ordered map of the `linked_hash_map` crate, carried opaquely.
#[verifier::external_type_specification]
#[verifier::external_body]
#[verifier::reject_recursive_types(K)]
#[verifier::reject_recursive_types(V)]
#[verifier::reject_recursive_types(S)]
pub struct ExLinkedHashMap<K, V, S>(LinkedHashMap<K, V, S>);

/// The entries of a queue of orders keyed by id, oldest first.
pub uninterp spec fn queue_entries(m: LinkedHashMap<i64, Order>) -> Seq<(i64, Order)>;

/// Relies on `LinkedHashMap::new`: an empty map.
#[verifier::external_body]
fn queue_new() -> (r: LinkedHashMap<i64, Order>)
    ensures
        queue_entries(r) == Seq::<(i64, Order)>::empty(),
{
    LinkedHashMap::new()
}

/// Relies on `LinkedHashMap::is_empty`: whether the map has no entry.
#[verifier::external_body]
fn queue_is_empty(m: &LinkedHashMap<i64, Order>) -> (r: bool)
    ensures
        r == (queue_entries(*m).len() == 0),
{
    m.is_empty()
}

/// Whether no two entries share a key.
pub open spec fn keys_distinct(e: Seq<(i64, Order)>) -> bool {
    forall|i: int, j: int| 0 <= i < j < e.len() ==> e[i].0 != e[j].0
}

/// Relies on `LinkedHashMap::insert` for a key that is not in the map yet:
/// the entry goes to the back and nothing is handed back.
#[verifier::external_body]
fn queue_push(m: &mut LinkedHashMap<i64, Order>, k: i64, v: Order) -> (r: Option<Order>)
    requires
        forall|i: int| 0 <= i < queue_entries(*old(m)).len() ==> queue_entries(*old(m))[i].0 != k,
    ensures
        r is None,
        queue_entries(*final(m)) == queue_entries(*old(m)).push((k, v)),
{
    m.insert(k, v)
}

/// Relies on `LinkedHashMap::remove`: the entry with the key leaves the map
/// and its value is handed back; without one, nothing changes.
#[verifier::external_body]
fn queue_remove(m: &mut LinkedHashMap<i64, Order>, k: &i64) -> (r: Option<Order>)
    requires
        keys_distinct(queue_entries(*old(m))),
    ensures
        forall|i: int|
            0 <= i < queue_entries(*old(m)).len() && queue_entries(*old(m))[i].0 == *k ==> r
                == Some(queue_entries(*old(m))[i].1) && queue_entries(*final(m))
                == queue_entries(*old(m)).remove(i),
        (forall|i: int| 0 <= i < queue_entries(*old(m)).len() ==> queue_entries(*old(m))[i].0 != *k)
            ==> r is None && queue_entries(*final(m)) == queue_entries(*old(m)),
{
    m.remove(k)
}

/// Relies on `LinkedHashMap::get`: the value under the key, if any.
#[verifier::external_body]
fn queue_get<'a>(m: &'a LinkedHashMap<i64, Order>, k: &i64) -> (r: Option<&'a Order>)
    requires
        keys_distinct(queue_entries(*m)),
    ensures
        forall|i: int|
            0 <= i < queue_entries(*m).len() && queue_entries(*m)[i].0 == *k ==> r == Some(
                &queue_entries(*m)[i].1,
            ),
        (forall|i: int| 0 <= i < queue_entries(*m).len() ==> queue_entries(*m)[i].0 != *k) ==> r
            is None,
{
    m.get(k)
}

/// Relies on `LinkedHashMap`'s `IndexMut` (`get_mut`, which panics on a
/// missing key): the value under a key of the map is replaced where it stands.
#[verifier::external_body]
fn queue_replace(m: &mut LinkedHashMap<i64, Order>, k: &i64, v: Order)
    requires
        keys_distinct(queue_entries(*old(m))),
        exists|i: int| 0 <= i < queue_entries(*old(m)).len() && queue_entries(*old(m))[i].0 == *k,
    ensures
        forall|i: int|
            0 <= i < queue_entries(*old(m)).len() && queue_entries(*old(m))[i].0 == *k
                ==> queue_entries(*final(m)) == queue_entries(*old(m)).update(i, (*k, v)),
{
    m[k] = v;
}

/// Relies on `LinkedHashMap::front`: the oldest entry, if any.
#[verifier::external_body]
fn queue_front<'a>(m: &'a LinkedHashMap<i64, Order>) -> (r: Option<(&'a i64, &'a Order)>)
    ensures
        queue_entries(*m).len() == 0 ==> r is None,
        queue_entries(*m).len() > 0 ==> r == Some((&queue_entries(*m)[0].0, &queue_entries(*m)[0].1)),
{
    m.front()
}

/// Relies on `LinkedHashMap::pop_front`: the oldest entry leaves the map.
#[verifier::external_body]
fn queue_pop_front(m: &mut LinkedHashMap<i64, Order>) -> (r: Option<(i64, Order)>)
    ensures
        queue_entries(*old(m)).len() == 0 ==> r is None && queue_entries(*final(m)) == queue_entries(*old(m)),
        queue_entries(*old(m)).len() > 0 ==> r == Some(queue_entries(*old(m))[0])
            && queue_entries(*final(m)) == queue_entries(*old(m)).drop_first(),
{
    m.pop_front()
}

/// Relies on `LinkedHashMap::values`: the values oldest first, each copied.
#[verifier::external_body]
fn queue_values(m: &LinkedHashMap<i64, Order>) -> (r: Vec<Order>)
    ensures
        r@.len() == queue_entries(*m).len(),
        forall|i: int| 0 <= i < r@.len() ==> r@[i]@ == queue_entries(*m)[i].1@,
{
    m.values().map(|o| o.duplicate()).collect()
}

/// One price level as values: its price and its orders, oldest first.
pub struct LevelView {
    pub price: int,
    pub orders: Seq<OrderView>,
}

/// Whether no two orders share an id.
pub open spec fn distinct_ids(s: Seq<OrderView>) -> bool {
    forall|i: int, j: int| 0 <= i < j < s.len() ==> s[i].id != s[j].id
}

/// Whether some order of the sequence has the id.
pub open spec fn has_id(s: Seq<OrderView>, id: int) -> bool {
    exists|j: int| 0 <= j < s.len() && s[j].id == id
}

/// A queue after its front order traded `qty`: the front order leaves when
/// it had no more than that, else it stays at the front with the rest.
pub open spec fn after_fill(orders: Seq<OrderView>, qty: int) -> Seq<OrderView> {
    if orders[0].qty <= qty {
        orders.drop_first()
    } else {
        orders.update(0, OrderView { qty: orders[0].qty - qty, ..orders[0] })
    }
}

/// The orders resting at one price on one side, first in first out.
pub struct PriceLevel {
    price: i64,
    queue: LinkedHashMap<i64, Order>,
}

impl View for PriceLevel {
    type V = LevelView;

    closed spec fn view(&self) -> LevelView {
        LevelView {
            price: self.price as int,
            orders: queue_entries(self.queue).map_values(|e: (i64, Order)| e.1@),
        }
    }
}

impl PriceLevel {
    /// Each entry is keyed by its order's id, and ids are distinct.
    pub closed spec fn wf(&self) -> bool {
        &&& forall|i: int|
            0 <= i < queue_entries(self.queue).len() ==> queue_entries(self.queue)[i].0 as int
                == (#[trigger] queue_entries(self.queue)[i]).1@.id
        &&& distinct_ids(self@.orders)
    }

    pub proof fn lemma_distinct(&self)
        requires
            self.wf(),
        ensures
            distinct_ids(self@.orders),
    {
    }

    proof fn lemma_keys_distinct(&self)
        requires
            self.wf(),
        ensures
            keys_distinct(queue_entries(self.queue)),
            queue_entries(self.queue).len() == self@.orders.len(),
            forall|i: int|
                0 <= i < queue_entries(self.queue).len() ==> queue_entries(self.queue)[i].0 as int
                    == #[trigger] self@.orders[i].id,
    {
        let e = queue_entries(self.queue);
        assert forall|i: int, j: int| 0 <= i < j < e.len() implies e[i].0 != e[j].0 by {
            assert(e[i] == e[i]);
            assert(e[j] == e[j]);
            assert(self@.orders[i].id != self@.orders[j].id);
        }
        assert forall|i: int| 0 <= i < e.len() implies e[i].0 as int == #[trigger] self@.orders[i].id by {
            assert(e[i] == e[i]);
        }
    }

    /// A level holding one order.
    pub fn new(price: i64, first: Order) -> (r: PriceLevel)
        ensures
            r.wf(),
            r@ == (LevelView { price: price as int, orders: seq![first@] }),
    {
        let mut queue = queue_new();
        let id = first.get_id();
        queue_push(&mut queue, id, first);
        let r = PriceLevel { price, queue };
        proof {
            let e = queue_entries(r.queue);
            assert(e.len() == 1);
            assert(e[0].0 as int == e[0].1@.id);
            assert(r@.orders =~= seq![first@]);
        }
        r
    }

    pub fn get_price(&self) -> (r: i64)
        ensures
            r as int == self@.price,
    {
        self.price
    }

    pub fn is_empty(&self) -> (r: bool)
        ensures
            r == (self@.orders.len() == 0),
    {
        queue_is_empty(&self.queue)
    }

    /// Appends an order at the back of the queue.
    pub fn push_back(&mut self, o: Order)
        requires
            old(self).wf(),
            !has_id(old(self)@.orders, o@.id),
        ensures
            final(self).wf(),
            final(self)@ == (LevelView { orders: old(self)@.orders.push(o@), ..old(self)@ }),
    {
        proof { self.lemma_keys_distinct(); }
        let id = o.get_id();
        proof {
            let e = queue_entries(self.queue);
            assert forall|i: int| 0 <= i < e.len() implies e[i].0 != id by {
                assert(self@.orders[i].id == e[i].1@.id);
                assert(e[i] == e[i]);
            }
        }
        queue_push(&mut self.queue, id, o);
        proof {
            let e = queue_entries(self.queue);
            assert(self@.orders =~= old(self)@.orders.push(o@));
            assert forall|i: int| 0 <= i < e.len() implies e[i].0 as int == (#[trigger] e[i]).1@.id by {
                if i < e.len() - 1 {
                    assert(e[i] == queue_entries(old(self).queue)[i]);
                }
            }
        }
    }

    /// Trades against the front order: up to `qty` comes off it, and it
    /// leaves the queue when nothing of it remains.
    pub fn fill_front(&mut self, qty: i64) -> (traded: i64)
        requires
            old(self).wf(),
            old(self)@.orders.len() > 0,
            old(self)@.orders[0].qty > 0,
            qty > 0,
        ensures
            final(self).wf(),
            traded as int == if old(self)@.orders[0].qty <= qty {
                old(self)@.orders[0].qty
            } else {
                qty as int
            },
            final(self)@ == (LevelView {
                orders: after_fill(old(self)@.orders, qty as int),
                ..old(self)@
            }),
    {
        proof { self.lemma_keys_distinct(); }
        let ghost e0 = queue_entries(self.queue);
        let (key, front) = match queue_front(&self.queue) {
            Some((k, o)) => (*k, o.duplicate()),
            None => {
                return 0;
            },
        };
        assert(e0[0] == e0[0]);
        let front_qty = front.get_qty();
        if front_qty <= qty {
            queue_pop_front(&mut self.queue);
            proof {
                let e = queue_entries(self.queue);
                assert(self@.orders =~= old(self)@.orders.drop_first());
                assert forall|i: int| 0 <= i < e.len() implies e[i].0 as int == (#[trigger] e[i]).1@.id by {
                    assert(e[i] == e0[i + 1]);
                }
            }
            front_qty
        } else {
            let mut rest = front;
            rest.set_qty(front_qty - qty);
            assert(e0[0].0 == key);
            let ghost rv = rest@;
            queue_replace(&mut self.queue, &key, rest);
            proof {
                let e = queue_entries(self.queue);
                assert(e == e0.update(0, (key, rest)));
                assert(self@.orders =~= old(self)@.orders.update(0, rv));
                assert forall|i: int| 0 <= i < e.len() implies e[i].0 as int == (#[trigger] e[i]).1@.id by {
                    if i > 0 {
                        assert(e[i] == e0[i]);
                    }
                }
            }
            qty
        }
    }

    /// Takes the order with the id out of the queue; the others keep their
    /// order. Without such an order nothing changes.
    pub fn remove(&mut self, id: i64) -> (r: Option<Order>)
        requires
            old(self).wf(),
        ensures
            final(self).wf(),
            final(self)@.price == old(self)@.price,
            forall|j: int|
                0 <= j < old(self)@.orders.len() && old(self)@.orders[j].id == id ==> r is Some
                    && r->0@ == old(self)@.orders[j] && final(self)@.orders == old(self)@.orders.remove(j),
            !has_id(old(self)@.orders, id as int) ==> r is None && final(self)@ == old(self)@,
    {
        proof { self.lemma_keys_distinct(); }
        let ghost e0 = queue_entries(self.queue);
        let r = queue_remove(&mut self.queue, &id);
        proof {
            let e = queue_entries(self.queue);
            assert forall|j: int|
                0 <= j < old(self)@.orders.len() && old(self)@.orders[j].id == id implies r is Some
                    && r->0@ == old(self)@.orders[j] && self@.orders == old(self)@.orders.remove(j) by {
                assert(e0[j].0 == id);
                assert(e == e0.remove(j));
                assert(self@.orders =~= old(self)@.orders.remove(j));
            }
            if !has_id(old(self)@.orders, id as int) {
                assert forall|i: int| 0 <= i < e0.len() implies e0[i].0 != id by {
                    assert(e0[i].0 as int == old(self)@.orders[i].id);
                }
                assert(self@ == old(self)@);
            }
            assert forall|i: int| 0 <= i < e.len() implies e[i].0 as int == (#[trigger] e[i]).1@.id by {
                if has_id(old(self)@.orders, id as int) {
                    let j = choose|j: int| 0 <= j < old(self)@.orders.len() && old(self)@.orders[j].id == id;
                    assert(e0[j].0 == id);
                    assert(e == e0.remove(j));
                    if i < j {
                        assert(e[i] == e0[i]);
                    } else {
                        assert(e[i] == e0[i + 1]);
                    }
                }
            }
        }
        r
    }

    /// A copy of the order with the id, if it rests here.
    pub fn find(&self, id: i64) -> (r: Option<Order>)
        requires
            self.wf(),
        ensures
            forall|j: int|
                0 <= j < self@.orders.len() && self@.orders[j].id == id ==> r is Some && r->0@
                    == self@.orders[j],
            !has_id(self@.orders, id as int) ==> r is None,
    {
        proof { self.lemma_keys_distinct(); }
        let ghost e0 = queue_entries(self.queue);
        match queue_get(&self.queue, &id) {
            Some(o) => {
                proof {
                    assert forall|j: int|
                        0 <= j < self@.orders.len() && self@.orders[j].id == id implies o@
                            == self@.orders[j] by {
                        assert(e0[j].0 == id);
                    }
                    if !has_id(self@.orders, id as int) {
                        assert forall|i: int| 0 <= i < e0.len() implies e0[i].0 != id by {
                            assert(e0[i].0 as int == self@.orders[i].id);
                        }
                    }
                }
                Some(o.duplicate())
            },
            None => {
                proof {
                    assert forall|j: int| 0 <= j < self@.orders.len() implies self@.orders[j].id != id by {
                        if self@.orders[j].id == id {
                            assert(e0[j].0 == id);
                        }
                    }
                }
                None
            },
        }
    }

    /// Sets the quantity of the order with the id where it stands.
    pub fn set_qty(&mut self, id: i64, qty: i64)
        requires
            old(self).wf(),
        ensures
            final(self).wf(),
            final(self)@.price == old(self)@.price,
            forall|j: int|
                0 <= j < old(self)@.orders.len() && old(self)@.orders[j].id == id
                    ==> final(self)@.orders == old(self)@.orders.update(
                    j,
                    OrderView { qty: qty as int, ..old(self)@.orders[j] },
                ),
            !has_id(old(self)@.orders, id as int) ==> final(self)@ == old(self)@,
    {
        match self.find(id) {
            Some(o) => {
                proof { self.lemma_keys_distinct(); }
                let ghost e0 = queue_entries(self.queue);
                let mut o = o;
                o.set_qty(qty);
                let ghost ov = o;
                proof {
                    let j = choose|j: int| 0 <= j < old(self)@.orders.len() && old(self)@.orders[j].id == id;
                    assert(e0[j].0 == id);
                }
                queue_replace(&mut self.queue, &id, o);
                proof {
                    let e = queue_entries(self.queue);
                    assert forall|j: int|
                        0 <= j < old(self)@.orders.len() && old(self)@.orders[j].id == id implies self@.orders
                            == old(self)@.orders.update(
                            j,
                            OrderView { qty: qty as int, ..old(self)@.orders[j] },
                        ) by {
                        assert(e0[j].0 == id);
                        assert(e == e0.update(j, (id, ov)));
                        assert(self@.orders =~= old(self)@.orders.update(
                            j,
                            OrderView { qty: qty as int, ..old(self)@.orders[j] },
                        ));
                    }
                    let j = choose|j: int| 0 <= j < old(self)@.orders.len() && old(self)@.orders[j].id == id;
                    assert(e0[j].0 == id);
                    assert(e == e0.update(j, (id, ov)));
                    assert forall|i: int| 0 <= i < e.len() implies e[i].0 as int == (#[trigger] e[i]).1@.id by {
                        if i != j {
                            assert(e[i] == e0[i]);
                        }
                    }
                    assert forall|a: int, b: int| 0 <= a < b < self@.orders.len() implies self@.orders[a].id
                        != self@.orders[b].id by {
                        assert(old(self)@.orders[a].id != old(self)@.orders[b].id);
                    }
                }
            },
            None => {},
        }
    }

    /// Copies of the orders, oldest first.
    pub fn orders(&self) -> (r: Vec<Order>)
        ensures
            views(r@) == self@.orders,
    {
        let r = queue_values(&self.queue);
        assert(views(r@) =~= self@.orders);
        r
    }
}

} // verus!
