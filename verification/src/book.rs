//! The live order book, its flat snapshot form, and the transcoder between
//! them: re-keying every price level through the key codec, preserving the
//! arrival order inside each level, and aborting the whole conversion on the
//! first undecodable key.

use vstd::prelude::*;

use crate::bytes::{SEP, text_free};
use crate::errors::RequestError;
use crate::key::{IdV, OrderIdentity, spec_decode_key, spec_encode_key, encode, decode,
    lemma_key_round_trip};
use crate::order::{OrderV, RestingOrder};

verus! {

/// Model of one side of the live book: price levels in their standing
/// order, each an identity and the FIFO queue resting under it.
pub type BookSideV = Seq<(IdV, Seq<OrderV>)>;

/// Model of one side of the snapshot: levels keyed by encoded strings.
pub type SnapSideV = Seq<(Seq<u8>, Seq<OrderV>)>;

/// Mathematical model of the live order book.
#[verifier::ext_equal]
pub ghost struct BookV {
    pub buys: BookSideV,
    pub sells: BookSideV,
}

/// Mathematical model of the serializable snapshot.
#[verifier::ext_equal]
pub ghost struct SnapV {
    pub buys: SnapSideV,
    pub sells: SnapSideV,
}

pub open spec fn orders_view(v: Seq<RestingOrder>) -> Seq<OrderV> {
    v.map_values(|o: RestingOrder| o@)
}

pub open spec fn book_side_view(v: Seq<(OrderIdentity, Vec<RestingOrder>)>) -> BookSideV {
    v.map_values(|p: (OrderIdentity, Vec<RestingOrder>)| (p.0@, orders_view(p.1@)))
}

pub open spec fn snap_side_view(v: Seq<(Vec<u8>, Vec<RestingOrder>)>) -> SnapSideV {
    v.map_values(|p: (Vec<u8>, Vec<RestingOrder>)| (p.0@, orders_view(p.1@)))
}

/// The mutable working representation used during matching: two sequences
/// of price levels, one per side.
#[derive(Debug)]
pub struct LiveOrderBook {
    pub buy_orders: Vec<(OrderIdentity, Vec<RestingOrder>)>,
    pub sell_orders: Vec<(OrderIdentity, Vec<RestingOrder>)>,
}

impl View for LiveOrderBook {
    type V = BookV;

    open spec fn view(&self) -> BookV {
        BookV { buys: book_side_view(self.buy_orders@), sells: book_side_view(self.sell_orders@) }
    }
}

/// The serializable, at-rest form of the book: the same levels, keyed by
/// the encoded string form of their identities.
#[derive(Debug)]
pub struct OB {
    pub buy_orders: Vec<(Vec<u8>, Vec<RestingOrder>)>,
    pub sell_orders: Vec<(Vec<u8>, Vec<RestingOrder>)>,
}

impl View for OB {
    type V = SnapV;

    open spec fn view(&self) -> SnapV {
        SnapV { buys: snap_side_view(self.buy_orders@), sells: snap_side_view(self.sell_orders@) }
    }
}

/// A resting order whose text fields may stand verbatim in the snapshot
/// document.
pub open spec fn wf_order(o: OrderV) -> bool {
    text_free(o.symbol) && text_free(o.cl_ord_id)
}

/// A live price level fit for encoding: a separator-free, delimiter-free
/// symbol and a nonempty queue of document-safe orders.
pub open spec fn wf_book_level(p: (IdV, Seq<OrderV>)) -> bool {
    &&& text_free(p.0.symbol)
    &&& forall|j: int| 0 <= j < p.0.symbol.len() ==> p.0.symbol[j] != SEP
    &&& p.1.len() >= 1
    &&& forall|j: int| 0 <= j < p.1.len() ==> wf_order(#[trigger] p.1[j])
}

pub open spec fn wf_book_side(s: BookSideV) -> bool {
    &&& forall|i: int| 0 <= i < s.len() ==> wf_book_level(#[trigger] s[i])
    &&& forall|i: int, j: int| 0 <= i < j < s.len() ==> (#[trigger] s[i]).0 != (#[trigger] s[j]).0
}

pub open spec fn wf_book(b: BookV) -> bool {
    wf_book_side(b.buys) && wf_book_side(b.sells)
}

/// Re-keys one side of the live book by its encoded identities.
pub open spec fn spec_snap_of_side(side: BookSideV) -> SnapSideV {
    side.map_values(|p: (IdV, Seq<OrderV>)| (spec_encode_key(p.0), p.1))
}

/// The snapshot of a live book: both sides re-keyed, levels untouched.
pub open spec fn spec_to_snapshot(b: BookV) -> SnapV {
    SnapV { buys: spec_snap_of_side(b.buys), sells: spec_snap_of_side(b.sells) }
}

/// Decodes one snapshot side back to live form, failing as a whole if any
/// key fails to decode.
pub open spec fn spec_side_of_snap(side: SnapSideV) -> Option<BookSideV> {
    if forall|i: int| 0 <= i < side.len() ==> spec_decode_key((#[trigger] side[i]).0) is Some {
        Some(side.map_values(|p: (Seq<u8>, Seq<OrderV>)| (spec_decode_key(p.0).unwrap(), p.1)))
    } else {
        None
    }
}

/// The live book a snapshot hydrates to, or nothing if any key is bad.
pub open spec fn spec_from_snapshot(s: SnapV) -> Option<BookV> {
    match (spec_side_of_snap(s.buys), spec_side_of_snap(s.sells)) {
        (Some(b), Some(l)) => Some(BookV { buys: b, sells: l }),
        _ => None,
    }
}

/// A book side whose level symbols avoid the key separator: all the key
/// codec needs for every key to decode back.
pub open spec fn sep_free_side(s: BookSideV) -> bool {
    forall|i: int, j: int|
        0 <= i < s.len() && 0 <= j < s[i].0.symbol.len() ==> #[trigger] s[i].0.symbol[j] != SEP
}

pub open spec fn sep_free_book(b: BookV) -> bool {
    sep_free_side(b.buys) && sep_free_side(b.sells)
}

/// Round trip: a live book whose symbols avoid the key separator survives
/// the trip through its snapshot untouched, FIFO order within every level
/// included.
pub proof fn lemma_book_round_trip(b: BookV)
    requires
        sep_free_book(b),
    ensures
        spec_from_snapshot(spec_to_snapshot(b)) == Some(b),
{
    lemma_side_round_trip(b.buys);
    lemma_side_round_trip(b.sells);
    assert(spec_from_snapshot(spec_to_snapshot(b)).unwrap() =~= b);
}

pub proof fn lemma_side_round_trip(side: BookSideV)
    requires
        sep_free_side(side),
    ensures
        spec_side_of_snap(spec_snap_of_side(side)) == Some(side),
{
    let snap = spec_snap_of_side(side);
    assert forall|i: int| 0 <= i < snap.len() implies spec_decode_key(
        (#[trigger] snap[i]).0,
    ) is Some by {
        lemma_key_round_trip(side[i].0);
    }
    let back = spec_side_of_snap(snap).unwrap();
    assert forall|i: int| 0 <= i < side.len() implies back[i] == side[i] by {
        lemma_key_round_trip(side[i].0);
        assert(back[i].0 == side[i].0);
        assert(back[i].1 == side[i].1);
    }
    assert(back =~= side);
}

/// A snapshot side whose keys are all canonical encodings of identities
/// with separator-free symbols.
pub open spec fn canonically_keyed_side(s: SnapSideV) -> bool {
    forall|i: int|
        0 <= i < s.len() ==> exists|id: IdV|
            (#[trigger] s[i]).0 == spec_encode_key(id) && (forall|j: int|
                0 <= j < id.symbol.len() ==> id.symbol[j] != crate::bytes::SEP)
}

pub open spec fn canonically_keyed(s: SnapV) -> bool {
    canonically_keyed_side(s.buys) && canonically_keyed_side(s.sells)
}

/// Round trip in the other direction: a snapshot whose keys are canonical
/// encodings hydrates, and re-encoding the hydrated book reproduces it.
pub proof fn lemma_snapshot_round_trip(s: SnapV)
    requires
        canonically_keyed(s),
    ensures
        spec_from_snapshot(s) is Some,
        spec_to_snapshot(spec_from_snapshot(s).unwrap()) == s,
{
    lemma_snap_side_round_trip(s.buys);
    lemma_snap_side_round_trip(s.sells);
    assert(spec_to_snapshot(spec_from_snapshot(s).unwrap()) =~= s);
}

pub proof fn lemma_snap_side_round_trip(side: SnapSideV)
    requires
        canonically_keyed_side(side),
    ensures
        spec_side_of_snap(side) is Some,
        spec_snap_of_side(spec_side_of_snap(side).unwrap()) == side,
{
    assert forall|i: int| 0 <= i < side.len() implies spec_decode_key(
        (#[trigger] side[i]).0,
    ) is Some by {
        let id = choose|id: IdV|
            side[i].0 == spec_encode_key(id) && (forall|j: int|
                0 <= j < id.symbol.len() ==> id.symbol[j] != crate::bytes::SEP);
        lemma_key_round_trip(id);
    }
    let back = spec_side_of_snap(side).unwrap();
    assert forall|i: int| 0 <= i < side.len() implies spec_snap_of_side(back)[i] == side[i] by {
        let id = choose|id: IdV|
            side[i].0 == spec_encode_key(id) && (forall|j: int|
                0 <= j < id.symbol.len() ==> id.symbol[j] != crate::bytes::SEP);
        lemma_key_round_trip(id);
        assert(back[i] == (id, side[i].1));
        assert(spec_snap_of_side(back)[i] == (spec_encode_key(id), side[i].1));
    }
    assert(spec_snap_of_side(back) =~= side);
}

/// A fresh copy of one price level's queue.
pub fn dup_level(l: &Vec<RestingOrder>) -> (r: Vec<RestingOrder>)
    ensures
        orders_view(r@) == orders_view(l@),
        r@.len() == l@.len(),
{
    let mut r: Vec<RestingOrder> = Vec::new();
    let mut i: usize = 0;
    while i < l.len()
        invariant
            i <= l.len(),
            r@.len() == i,
            orders_view(r@) == orders_view(l@.subrange(0, i as int)),
        decreases l.len() - i,
    {
        let ghost prev = r@;
        r.push(l[i].dup());
        proof {
            assert(orders_view(r@) =~= orders_view(prev).push(l@[i as int]@));
            assert(orders_view(l@.subrange(0, i + 1 as int)) =~= orders_view(
                l@.subrange(0, i as int),
            ).push(l@[i as int]@));
        }
        i += 1;
    }
    proof {
        assert(l@.subrange(0, l@.len() as int) =~= l@);
    }
    r
}

/// Encodes one side of the live book into snapshot form.
fn side_to_snap(src: &Vec<(OrderIdentity, Vec<RestingOrder>)>) -> (r: Vec<
    (Vec<u8>, Vec<RestingOrder>),
>)
    ensures
        snap_side_view(r@) == spec_snap_of_side(book_side_view(src@)),
{
    let mut r: Vec<(Vec<u8>, Vec<RestingOrder>)> = Vec::new();
    let mut i: usize = 0;
    while i < src.len()
        invariant
            i <= src.len(),
            snap_side_view(r@) == spec_snap_of_side(book_side_view(src@.subrange(0, i as int))),
        decreases src.len() - i,
    {
        let ghost prev = r@;
        let key = encode(&src[i].0);
        let lev = dup_level(&src[i].1);
        r.push((key, lev));
        proof {
            assert(snap_side_view(r@) =~= snap_side_view(prev).push(
                (spec_encode_key(src@[i as int].0@), orders_view(src@[i as int].1@)),
            ));
            assert(spec_snap_of_side(book_side_view(src@.subrange(0, i + 1 as int)))
                =~= spec_snap_of_side(book_side_view(src@.subrange(0, i as int))).push(
                (spec_encode_key(src@[i as int].0@), orders_view(src@[i as int].1@)),
            ));
        }
        i += 1;
    }
    proof {
        assert(src@.subrange(0, src@.len() as int) =~= src@);
    }
    r
}

/// Decodes one snapshot side, failing on the first bad key.
fn snap_to_side(src: &Vec<(Vec<u8>, Vec<RestingOrder>)>) -> (r: Result<
    Vec<(OrderIdentity, Vec<RestingOrder>)>,
    RequestError,
>)
    ensures
        match r {
            Ok(v) => spec_side_of_snap(snap_side_view(src@)) == Some(book_side_view(v@)),
            Err(e) => e == RequestError::MalformedKey && spec_side_of_snap(
                snap_side_view(src@),
            ) is None,
        },
{
    let ghost sv = snap_side_view(src@);
    let mut out: Vec<(OrderIdentity, Vec<RestingOrder>)> = Vec::new();
    let mut i: usize = 0;
    while i < src.len()
        invariant
            i <= src.len(),
            sv == snap_side_view(src@),
            out@.len() == i,
            forall|j: int| 0 <= j < i ==> spec_decode_key((#[trigger] sv[j]).0) is Some,
            forall|j: int|
                0 <= j < i ==> #[trigger] book_side_view(out@)[j] == (
                    spec_decode_key(sv[j].0).unwrap(),
                    sv[j].1,
                ),
        decreases src.len() - i,
    {
        match decode(&src[i].0) {
            Ok(id) => {
                let ghost prev = out@;
                let lev = dup_level(&src[i].1);
                out.push((id, lev));
                proof {
                    assert(book_side_view(out@) =~= book_side_view(prev).push(
                        (id@, orders_view(lev@)),
                    ));
                    assert(sv[i as int].1 == orders_view(src@[i as int].1@));
                    assert(book_side_view(out@)[i as int] == (
                        spec_decode_key(sv[i as int].0).unwrap(),
                        sv[i as int].1,
                    ));
                }
            },
            Err(_) => {
                proof {
                    assert(spec_decode_key(sv[i as int].0) is None);
                }
                return Err(RequestError::MalformedKey);
            },
        }
        i += 1;
    }
    proof {
        assert forall|j: int| 0 <= j < sv.len() implies spec_decode_key(
            (#[trigger] sv[j]).0,
        ) is Some by {}
        let mapped = sv.map_values(
            |p: (Seq<u8>, Seq<OrderV>)| (spec_decode_key(p.0).unwrap(), p.1),
        );
        assert(book_side_view(out@) =~= mapped);
    }
    Ok(out)
}

/// The price-level identity an order rests under.
pub open spec fn id_of_order(o: OrderV) -> IdV {
    IdV { symbol: o.symbol, price: o.price }
}

/// Index of the first level standing under `id`, if any.
pub open spec fn spec_level_index(side: BookSideV, id: IdV) -> Option<int>
    decreases side.len(),
{
    if side.len() == 0 {
        None
    } else if side[0].0 == id {
        Some(0)
    } else {
        match spec_level_index(side.drop_first(), id) {
            Some(i) => Some(i + 1),
            None => None,
        }
    }
}

pub proof fn lemma_level_index_char(side: BookSideV, id: IdV)
    ensures
        match spec_level_index(side, id) {
            None => forall|j: int| 0 <= j < side.len() ==> (#[trigger] side[j]).0 != id,
            Some(i) => 0 <= i < side.len() && side[i].0 == id && (forall|j: int|
                0 <= j < i ==> (#[trigger] side[j]).0 != id),
        },
    decreases side.len(),
{
    if side.len() != 0 && side[0].0 != id {
        let t = side.drop_first();
        lemma_level_index_char(t, id);
        match spec_level_index(t, id) {
            None => {
                assert forall|j: int| 0 <= j < side.len() implies (#[trigger] side[j]).0
                    != id by {
                    if j > 0 {
                        assert(t[j - 1] == side[j]);
                    }
                }
            },
            Some(i) => {
                assert(side[i + 1] == t[i]);
                assert forall|j: int| 0 <= j < i + 1 implies (#[trigger] side[j]).0 != id by {
                    if j > 0 {
                        assert(t[j - 1] == side[j]);
                    }
                }
            },
        }
    }
}

pub proof fn lemma_level_index_at(side: BookSideV, id: IdV, i: int)
    requires
        0 <= i < side.len(),
        side[i].0 == id,
        forall|j: int| 0 <= j < i ==> (#[trigger] side[j]).0 != id,
    ensures
        spec_level_index(side, id) == Some(i),
{
    lemma_level_index_char(side, id);
    match spec_level_index(side, id) {
        None => {
            assert(side[i].0 != id);
        },
        Some(k) => {
            if k < i {
                assert(side[k].0 != id);
            } else if k > i {
                assert(side[i].0 != id);
            }
        },
    }
}

pub proof fn lemma_level_index_absent(side: BookSideV, id: IdV)
    requires
        forall|j: int| 0 <= j < side.len() ==> (#[trigger] side[j]).0 != id,
    ensures
        spec_level_index(side, id) is None,
{
    lemma_level_index_char(side, id);
    match spec_level_index(side, id) {
        None => {},
        Some(i) => {
            assert(side[i].0 != id);
        },
    }
}

/// One side after an order arrives: appended at the tail of its identity's
/// FIFO queue, or opening a new level at the end of the side.
pub open spec fn spec_insert_side(side: BookSideV, o: OrderV) -> BookSideV {
    match spec_level_index(side, id_of_order(o)) {
        Some(i) => side.update(i, (side[i].0, side[i].1.push(o))),
        None => side.push((id_of_order(o), seq![o])),
    }
}

/// The book after an order arrives on its own side.
pub open spec fn spec_insert(b: BookV, o: OrderV) -> BookV {
    match o.side {
        crate::order::Side::Buy => BookV { buys: spec_insert_side(b.buys, o), sells: b.sells },
        crate::order::Side::Sell => BookV { buys: b.buys, sells: spec_insert_side(b.sells, o) },
    }
}

fn side_insert(side: &mut Vec<(OrderIdentity, Vec<RestingOrder>)>, order: &RestingOrder)
    ensures
        book_side_view(final(side)@) == spec_insert_side(book_side_view(old(side)@), order@),
{
    let ghost sv = book_side_view(old(side)@);
    let ghost target = id_of_order(order@);
    let ghost ov = order@;
    let mut i: usize = 0;
    while i < side.len()
        invariant
            i <= side.len(),
            side@ == old(side)@,
            sv == book_side_view(side@),
            order@ == ov,
            target == id_of_order(ov),
            forall|j: int| 0 <= j < i ==> (#[trigger] sv[j]).0 != target,
        decreases side.len() - i,
    {
        if side[i].0.price == order.price && crate::bytes::bytes_eq(
            &side[i].0.symbol,
            &order.symbol,
        ) {
            proof {
                assert(sv[i as int] == (side@[i as int].0@, orders_view(side@[i as int].1@)));
                assert(side@[i as int].0.symbol@ == order.symbol@);
                assert(side@[i as int].0.price == order.price);
                assert(sv[i as int].0 =~= target);
                lemma_level_index_at(sv, target, i as int);
            }
            let key = side[i].0.dup();
            let mut lev = dup_level(&side[i].1);
            let ghost dv = lev@;
            lev.push(order.dup());
            proof {
                assert(lev@ == dv.push(lev@[dv.len() as int]));
                assert(lev@[dv.len() as int]@ == ov);
                assert forall|j: int| 0 <= j < lev@.len() implies #[trigger] orders_view(lev@)[j]
                    == orders_view(dv).push(ov)[j] by {
                    if j < dv.len() {
                        assert(orders_view(lev@)[j] == lev@[j]@);
                    }
                }
                assert(orders_view(lev@) =~= orders_view(dv).push(ov));
                assert(orders_view(lev@) =~= sv[i as int].1.push(ov));
            }
            let ghost lv = orders_view(lev@);
            side.set(i, (key, lev));
            proof {
                assert(book_side_view(side@) =~= sv.update(i as int, (sv[i as int].0, lv)));
                assert(spec_level_index(sv, id_of_order(ov)) == Some(i as int));
                assert(lv == sv[i as int].1.push(ov));
                assert(spec_insert_side(sv, ov) == sv.update(
                    i as int,
                    (sv[i as int].0, sv[i as int].1.push(ov)),
                ));
                assert(book_side_view(side@) == spec_insert_side(sv, ov));
            }
            return ;
        } else {
            proof {
                assert(sv[i as int] == (side@[i as int].0@, orders_view(side@[i as int].1@)));
                if sv[i as int].0 == target {
                    assert(sv[i as int].0.price == side@[i as int].0.price);
                    assert(sv[i as int].0.symbol == side@[i as int].0.symbol@);
                    assert(false);
                }
            }
        }
        i += 1;
    }
    proof {
        lemma_level_index_absent(sv, target);
    }
    let id = OrderIdentity { symbol: crate::bytes::copy_bytes(&order.symbol), price: order.price };
    let mut lev: Vec<RestingOrder> = Vec::new();
    lev.push(order.dup());
    side.push((id, lev));
    proof {
        assert(orders_view(lev@) =~= seq![ov]);
        assert(book_side_view(side@) =~= sv.push((target, seq![ov])));
    }
}

impl LiveOrderBook {
    /// An empty live book.
    pub fn empty() -> (r: LiveOrderBook)
        ensures
            r@ == (BookV { buys: Seq::<(IdV, Seq<OrderV>)>::empty(), sells: Seq::<
                (IdV, Seq<OrderV>),
            >::empty() }),
    {
        let r = LiveOrderBook { buy_orders: Vec::new(), sell_orders: Vec::new() };
        proof {
            assert(r@ =~= BookV { buys: Seq::<(IdV, Seq<OrderV>)>::empty(), sells: Seq::<
                (IdV, Seq<OrderV>),
            >::empty() });
        }
        r
    }

    /// Adds an order to its side of the book, at the tail of its price
    /// level's queue: new orders never jump ahead of resting ones.
    pub fn add_order_to_order_book(&mut self, order: RestingOrder)
        ensures
            final(self)@ == spec_insert(old(self)@, order@),
    {
        match order.side {
            crate::order::Side::Buy => {
                side_insert(&mut self.buy_orders, &order);
            },
            crate::order::Side::Sell => {
                side_insert(&mut self.sell_orders, &order);
            },
        }
        proof {
            assert(self@ =~= spec_insert(old(self)@, order@));
        }
    }
}

impl OB {
    /// An empty snapshot: two empty mappings.
    pub fn empty() -> (r: OB)
        ensures
            r@ == (SnapV { buys: Seq::<(Seq<u8>, Seq<OrderV>)>::empty(), sells: Seq::<
                (Seq<u8>, Seq<OrderV>),
            >::empty() }),
    {
        let r = OB { buy_orders: Vec::new(), sell_orders: Vec::new() };
        proof {
            assert(r@ =~= SnapV { buys: Seq::<(Seq<u8>, Seq<OrderV>)>::empty(), sells: Seq::<
                (Seq<u8>, Seq<OrderV>),
            >::empty() });
        }
        r
    }

    /// Creates the snapshot of a live order book.
    pub fn from(order_book: &LiveOrderBook) -> (r: OB)
        ensures
            r@ == spec_to_snapshot(order_book@),
    {
        let r = OB {
            buy_orders: side_to_snap(&order_book.buy_orders),
            sell_orders: side_to_snap(&order_book.sell_orders),
        };
        proof {
            assert(r@ =~= spec_to_snapshot(order_book@));
        }
        r
    }

    /// Converts a snapshot to a live order book, failing with a malformed
    /// key error exactly when some key cannot be decoded; no partial book
    /// is ever produced.
    pub fn to(ob: &OB) -> (r: Result<LiveOrderBook, RequestError>)
        ensures
            match r {
                Ok(book) => spec_from_snapshot(ob@) == Some(book@),
                Err(e) => e == RequestError::MalformedKey && spec_from_snapshot(ob@) is None,
            },
    {
        let buys = match snap_to_side(&ob.buy_orders) {
            Ok(v) => v,
            Err(e) => {
                return Err(e);
            },
        };
        let sells = match snap_to_side(&ob.sell_orders) {
            Ok(v) => v,
            Err(e) => {
                return Err(e);
            },
        };
        let book = LiveOrderBook { buy_orders: buys, sell_orders: sells };
        proof {
            assert(spec_from_snapshot(ob@).unwrap() =~= book@);
        }
        Ok(book)
    }
}

} // verus!
