use vstd::prelude::*;

verus! {

/// The side of the book an order rests on.
#[derive(Clone, Copy, PartialEq, Eq, Structural, Debug)]
pub enum Side {
    Buy,
    Sell,
}

/// What an order holds, as mathematical values.
pub struct OrderView {
    pub id: int,
    pub qty: int,
    pub price: int,
    pub side: Side,
    pub transact_time: Seq<char>,
}

/// The views of a sequence of orders.
pub open spec fn views(s: Seq<Order>) -> Seq<OrderView> {
    s.map_values(|o: Order| o@)
}

/// An order: an engine-assigned id, a remaining quantity, a limit price,
/// a side and the time stamp taken when it was created.
#[derive(Clone, Debug)]
pub struct Order {
    id: i64,
    order_qty: i64,
    price: i64,
    side: Side,
    transact_time: String,
}

impl View for Order {
    type V = OrderView;

    closed spec fn view(&self) -> OrderView {
        OrderView {
            id: self.id as int,
            qty: self.order_qty as int,
            price: self.price as int,
            side: self.side,
            transact_time: self.transact_time@,
        }
    }
}

/// The calendar time from the `time` crate, carried through opaquely.
#[verifier::external_type_specification]
#[verifier::external_body]
pub struct ExTm(time::Tm);

/// Relies on `time::now_utc`: the current time in UTC. Nothing is promised
/// of its value, which depends on the clock.
#[verifier::external_body]
fn utc_now() -> (r: time::Tm) {
    time::now_utc()
}

/// Relies on `time::strftime`: the time rendered by a strftime-style format,
/// or `None` where the crate refuses the format.
#[verifier::external_body]
fn format_time(format: &str, tm: &time::Tm) -> (r: Option<String>) {
    time::strftime(format, tm).ok()
}

/// Length of a stamp `YYYYMMDD-HH:MM:SS.sss`.
pub const STAMP_LEN: usize = 21;

/// The first `STAMP_LEN` characters of a rendered time, or all of it where it
/// is shorter: the nanoseconds are cut to milliseconds.
pub fn cut_stamp(full: &str) -> (r: String)
    ensures
        full@.len() <= STAMP_LEN ==> r@ == full@,
        full@.len() > STAMP_LEN ==> r@ == full@.subrange(0, STAMP_LEN as int),
{
    let n = full.unicode_len();
    if n <= STAMP_LEN {
        String::from_str(full)
    } else {
        String::from_str(full.substring_char(0, STAMP_LEN))
    }
}

impl Order {
    /// A new order with no id yet (`-1`), the given quantity, price and side,
    /// stamped with the current UTC time to the millisecond.
    pub fn new(m_qty: i64, m_price: i64, m_side: Side) -> (r: Order)
        ensures
            r@.id == -1,
            r@.qty == m_qty,
            r@.price == m_price,
            r@.side == m_side,
            r@.transact_time.len() <= STAMP_LEN,
    {
        let now = utc_now();
        let stamp = match format_time("%Y%m%d-%H:%M:%S.%f", &now) {
            Some(full) => cut_stamp(full.as_str()),
            None => String::new(),
        };
        Order { id: -1, order_qty: m_qty, price: m_price, side: m_side, transact_time: stamp }
    }

    /// An order with all of its fields given.
    pub fn with_fields(id: i64, qty: i64, price: i64, side: Side, transact_time: String) -> (r: Order)
        ensures
            r@ == (OrderView {
                id: id as int,
                qty: qty as int,
                price: price as int,
                side,
                transact_time: transact_time@,
            }),
    {
        Order { id, order_qty: qty, price, side, transact_time }
    }

    /// A field-by-field copy.
    pub fn duplicate(&self) -> (r: Order)
        ensures
            r@ == self@,
    {
        Order {
            id: self.id,
            order_qty: self.order_qty,
            price: self.price,
            side: self.side,
            transact_time: self.transact_time.clone(),
        }
    }

    pub fn get_id(&self) -> (r: i64)
        ensures
            r as int == self@.id,
    {
        self.id
    }

    pub fn get_qty(&self) -> (r: i64)
        ensures
            r as int == self@.qty,
    {
        self.order_qty
    }

    pub fn get_price(&self) -> (r: i64)
        ensures
            r as int == self@.price,
    {
        self.price
    }

    pub fn get_side(&self) -> (r: Side)
        ensures
            r == self@.side,
    {
        self.side
    }

    pub fn get_transact_time(&self) -> (r: String)
        ensures
            r@ == self@.transact_time,
    {
        self.transact_time.clone()
    }

    pub fn set_id(&mut self, m_id: i64)
        ensures
            final(self)@ == (OrderView { id: m_id as int, ..old(self)@ }),
    {
        self.id = m_id;
    }

    pub fn set_qty(&mut self, m_qty: i64)
        ensures
            final(self)@ == (OrderView { qty: m_qty as int, ..old(self)@ }),
    {
        self.order_qty = m_qty;
    }

    pub fn set_price(&mut self, m_price: i64)
        ensures
            final(self)@ == (OrderView { price: m_price as int, ..old(self)@ }),
    {
        self.price = m_price;
    }

    pub fn set_side(&mut self, m_side: Side)
        ensures
            final(self)@ == (OrderView { side: m_side, ..old(self)@ }),
    {
        self.side = m_side;
    }

    pub fn set_transact_time(&mut self, m_time: &String)
        ensures
            final(self)@ == (OrderView { transact_time: m_time@, ..old(self)@ }),
    {
        self.transact_time = m_time.clone();
    }
}

/// Copies of the orders, in the same order.
pub fn copy_orders(v: &Vec<Order>) -> (r: Vec<Order>)
    ensures
        views(r@) == views(v@),
{
    let mut r: Vec<Order> = Vec::new();
    let mut i: usize = 0;
    while i < v.len()
        invariant
            i <= v@.len(),
            r@.len() == i,
            forall|j: int| 0 <= j < i ==> (#[trigger] r@[j])@ == v@[j]@,
        decreases v@.len() - i,
    {
        r.push(v[i].duplicate());
        i = i + 1;
    }
    assert(views(r@) =~= views(v@));
    r
}

} // verus!
