//! The order data model: sides, order kinds, resting orders, and the inbound
//! order payload handed over by the form layer.
//!
//! Text fields are byte strings and prices are unsigned cent counts, so that
//! every field is a plain value the contracts can speak about exactly.

use vstd::prelude::*;

verus! {

/// Side of an order or of a book half.
#[derive(Clone, Copy, PartialEq, Eq, Structural, Debug)]
pub enum Side {
    Buy,
    Sell,
}

/// Kind of an order. Only limit orders ever match, as with the outside engine.
#[derive(Clone, Copy, PartialEq, Eq, Structural, Debug)]
pub enum OrderType {
    Limit,
    Market,
}

pub open spec fn buy_word() -> Seq<u8> {
    seq![66, 117, 121]
}

pub open spec fn sell_word() -> Seq<u8> {
    seq![83, 101, 108, 108]
}

pub open spec fn limit_word() -> Seq<u8> {
    seq![76, 105, 109, 105, 116]
}

pub open spec fn market_word() -> Seq<u8> {
    seq![77, 97, 114, 107, 101, 116]
}

/// The side named by a textual field: `Buy` exactly for the word "Buy",
/// every other text falls back to `Sell`.
pub open spec fn spec_side_of(s: Seq<u8>) -> Side {
    if s == buy_word() {
        Side::Buy
    } else {
        Side::Sell
    }
}

/// The order kind named by a textual field: `Limit` exactly for the word
/// "Limit", every other text falls back to `Market`.
pub open spec fn spec_kind_of(s: Seq<u8>) -> OrderType {
    if s == limit_word() {
        OrderType::Limit
    } else {
        OrderType::Market
    }
}

impl Side {
    /// The textual rendering of the side.
    pub open spec fn spec_word(self) -> Seq<u8> {
        match self {
            Side::Buy => buy_word(),
            Side::Sell => sell_word(),
        }
    }

    pub fn from(s: &Vec<u8>) -> (r: Side)
        ensures
            r == spec_side_of(s@),
    {
        if s.len() == 3 && s[0] == 66 && s[1] == 117 && s[2] == 121 {
            proof {
                assert(s@ =~= buy_word());
            }
            Side::Buy
        } else {
            proof {
                if s@ == buy_word() {
                    assert(s@.len() == 3 && s@[0] == 66 && s@[1] == 117 && s@[2] == 121);
                }
            }
            Side::Sell
        }
    }
}

impl OrderType {
    /// The textual rendering of the order kind.
    pub open spec fn spec_word(self) -> Seq<u8> {
        match self {
            OrderType::Limit => limit_word(),
            OrderType::Market => market_word(),
        }
    }

    pub fn from(s: &Vec<u8>) -> (r: OrderType)
        ensures
            r == spec_kind_of(s@),
    {
        if s.len() == 5 && s[0] == 76 && s[1] == 105 && s[2] == 109 && s[3] == 105 && s[4]
            == 116 {
            proof {
                assert(s@ =~= limit_word());
            }
            OrderType::Limit
        } else {
            proof {
                if s@ == limit_word() {
                    assert(s@.len() == 5 && s@[0] == 76);
                }
            }
            OrderType::Market
        }
    }
}

/// Mathematical model of a resting order.
#[verifier::ext_equal]
pub ghost struct OrderV {
    pub qty: u32,
    pub symbol: Seq<u8>,
    pub price: u64,
    pub side: Side,
    pub order_type: OrderType,
    pub cl_ord_id: Seq<u8>,
}

/// One order resting in the book. `price` counts cents, so ten dollars is
/// the price 1000.
#[derive(Debug)]
pub struct RestingOrder {
    pub qty: u32,
    pub symbol: Vec<u8>,
    pub price: u64,
    pub side: Side,
    pub order_type: OrderType,
    pub cl_ord_id: Vec<u8>,
}

impl View for RestingOrder {
    type V = OrderV;

    open spec fn view(&self) -> OrderV {
        OrderV {
            qty: self.qty,
            symbol: self.symbol@,
            price: self.price,
            side: self.side,
            order_type: self.order_type,
            cl_ord_id: self.cl_ord_id@,
        }
    }
}

impl RestingOrder {
    /// A fresh resting order with the same contents.
    pub fn dup(&self) -> (r: RestingOrder)
        ensures
            r@ == self@,
    {
        RestingOrder {
            qty: self.qty,
            symbol: crate::bytes::copy_bytes(&self.symbol),
            price: self.price,
            side: self.side,
            order_type: self.order_type,
            cl_ord_id: crate::bytes::copy_bytes(&self.cl_ord_id),
        }
    }
}

/// Mathematical model of the inbound order payload.
#[verifier::ext_equal]
pub ghost struct OrderFormV {
    pub symbol: Seq<u8>,
    pub qty: u32,
    pub price: u64,
    pub side: Seq<u8>,
    pub order_type: Seq<u8>,
    pub cl_ord_id: Seq<u8>,
    pub format: Seq<u8>,
}

/// The inbound order payload, already parsed of basic shape by the form
/// layer: side and order kind still arrive as text, and the price counts
/// cents, as everywhere in the model.
#[derive(Debug)]
pub struct Order {
    symbol: Vec<u8>,
    qty: u32,
    price: u64,
    side: Vec<u8>,
    order_type: Vec<u8>,
    cl_ord_id: Vec<u8>,
    format: Vec<u8>,
}

impl View for Order {
    type V = OrderFormV;

    closed spec fn view(&self) -> OrderFormV {
        OrderFormV {
            symbol: self.symbol@,
            qty: self.qty,
            price: self.price,
            side: self.side@,
            order_type: self.order_type@,
            cl_ord_id: self.cl_ord_id@,
            format: self.format@,
        }
    }
}

/// The resting order an inbound payload stands for.
pub open spec fn spec_resting_of(o: OrderFormV) -> OrderV {
    OrderV {
        qty: o.qty,
        symbol: o.symbol,
        price: o.price,
        side: spec_side_of(o.side),
        order_type: spec_kind_of(o.order_type),
        cl_ord_id: o.cl_ord_id,
    }
}

impl Order {
    pub fn new(
        symbol: Vec<u8>,
        qty: u32,
        price: u64,
        side: Vec<u8>,
        order_type: Vec<u8>,
        cl_ord_id: Vec<u8>,
        format: Vec<u8>,
    ) -> (r: Order)
        ensures
            r@ == (OrderFormV {
                symbol: symbol@,
                qty,
                price,
                side: side@,
                order_type: order_type@,
                cl_ord_id: cl_ord_id@,
                format: format@,
            }),
    {
        Order { symbol, qty, price, side, order_type, cl_ord_id, format }
    }

    pub fn symbol(&self) -> (r: &Vec<u8>)
        ensures
            r@ == self@.symbol,
    {
        &self.symbol
    }

    pub fn qty(&self) -> (r: u32)
        ensures
            r == self@.qty,
    {
        self.qty
    }

    pub fn price(&self) -> (r: u64)
        ensures
            r == self@.price,
    {
        self.price
    }

    pub fn side(&self) -> (r: &Vec<u8>)
        ensures
            r@ == self@.side,
    {
        &self.side
    }

    pub fn order_type(&self) -> (r: &Vec<u8>)
        ensures
            r@ == self@.order_type,
    {
        &self.order_type
    }

    pub fn cl_ord_id(&self) -> (r: &Vec<u8>)
        ensures
            r@ == self@.cl_ord_id,
    {
        &self.cl_ord_id
    }

    pub fn format(&self) -> (r: &Vec<u8>)
        ensures
            r@ == self@.format,
    {
        &self.format
    }

    /// The resting order this payload submits, with side and kind resolved
    /// from their textual fields.
    pub fn to_resting(&self) -> (r: RestingOrder)
        ensures
            r@ == spec_resting_of(self@),
    {
        RestingOrder {
            qty: self.qty,
            symbol: crate::bytes::copy_bytes(&self.symbol),
            price: self.price,
            side: Side::from(&self.side),
            order_type: OrderType::from(&self.order_type),
            cl_ord_id: crate::bytes::copy_bytes(&self.cl_ord_id),
        }
    }
}

} // verus!
