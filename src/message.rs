use vstd::prelude::*;
use crate::order::{Order, OrderView, copy_orders, views};

verus! {

/// An incremental message as values: its sequence number, the price whose
/// level changed, and every order resting there after the change.
pub struct MessageView {
    pub seq: int,
    pub price: int,
    pub orders: Seq<OrderView>,
}

/// One change of the book: the whole new content of the level at one price.
#[derive(Clone, Debug)]
pub struct IncrementalMessage {
    price: i64,
    seq_number: i64,
    orders_vec: Vec<Order>,
}

impl View for IncrementalMessage {
    type V = MessageView;

    closed spec fn view(&self) -> MessageView {
        MessageView {
            seq: self.seq_number as int,
            price: self.price as int,
            orders: views(self.orders_vec@),
        }
    }
}

/// The views of a sequence of messages.
pub open spec fn message_views(s: Seq<IncrementalMessage>) -> Seq<MessageView> {
    s.map_values(|m: IncrementalMessage| m@)
}

impl IncrementalMessage {
    pub fn new(p_in: i64, seq_number: i64, orders_vec: Vec<Order>) -> (r: IncrementalMessage)
        ensures
            r@ == (MessageView {
                seq: seq_number as int,
                price: p_in as int,
                orders: views(orders_vec@),
            }),
    {
        IncrementalMessage { price: p_in, seq_number, orders_vec }
    }

    /// The price whose level changed.
    pub fn get_price(&self) -> (r: i64)
        ensures
            r as int == self@.price,
    {
        self.price
    }

    /// The sequence number.
    pub fn get_num(&self) -> (r: i64)
        ensures
            r as int == self@.seq,
    {
        self.seq_number
    }

    /// The orders now resting at the price, oldest first.
    pub fn get_orders(&self) -> (r: Vec<Order>)
        ensures
            views(r@) == self@.orders,
    {
        copy_orders(&self.orders_vec)
    }
}

/// A recovery snapshot as values: the sequence number of the newest message
/// folded into it, and the orders of every level.
pub struct RecoveryView {
    pub last_msg: int,
    pub state: Seq<Seq<OrderView>>,
}

/// A full picture of the book, for consumers that join late or lost messages.
#[derive(Clone, Debug)]
pub struct RecoveryFeed {
    last_msg: i64,
    state: Vec<Vec<Order>>,
}

/// The views of the levels of a snapshot.
pub open spec fn state_views(s: Seq<Vec<Order>>) -> Seq<Seq<OrderView>> {
    s.map_values(|l: Vec<Order>| views(l@))
}

impl View for RecoveryFeed {
    type V = RecoveryView;

    closed spec fn view(&self) -> RecoveryView {
        RecoveryView { last_msg: self.last_msg as int, state: state_views(self.state@) }
    }
}

impl RecoveryFeed {
    pub fn new(last_msg_index: i64, cur_state: Vec<Vec<Order>>) -> (r: RecoveryFeed)
        ensures
            r@ == (RecoveryView {
                last_msg: last_msg_index as int,
                state: state_views(cur_state@),
            }),
    {
        RecoveryFeed { last_msg: last_msg_index, state: cur_state }
    }

    /// The sequence number of the newest message folded in.
    pub fn get_last_msg(&self) -> (r: i64)
        ensures
            r as int == self@.last_msg,
    {
        self.last_msg
    }

    /// Copies of the levels.
    pub fn get_state(&self) -> (r: Vec<Vec<Order>>)
        ensures
            state_views(r@) == self@.state,
    {
        let mut r: Vec<Vec<Order>> = Vec::new();
        let mut i: usize = 0;
        while i < self.state.len()
            invariant
                i <= self.state@.len(),
                r@.len() == i,
                forall|j: int| 0 <= j < i ==> views((#[trigger] r@[j])@) == views(self.state@[j]@),
            decreases self.state@.len() - i,
        {
            r.push(copy_orders(&self.state[i]));
            i = i + 1;
        }
        assert(state_views(r@) =~= state_views(self.state@));
        r
    }
}

} // verus!
