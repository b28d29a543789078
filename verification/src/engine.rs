//! The boundary to the outside matching engine. The engine keeps its own
//! book representation with binary floating point prices; this module hands
//! it plain values, runs the selected matcher, and reads the matched book
//! back as plain rows, which verified code validates and regroups.
//!
//! Nothing is assumed of the matcher's outcome: the engine walks hash maps
//! whose iteration order varies between processes, and its fills carry
//! freshly generated identifiers, so every contract downstream speaks only
//! of whatever book came back. What is assumed is what the matchers need
//! to run without failing, stated as preconditions over a ghost model of
//! the engine book's contents and checked here before anything is fed.

use vstd::prelude::*;

use crate::book::{BookSideV, book_side_view, wf_book_side, orders_view, spec_level_index,
    lemma_level_index_at, lemma_level_index_absent, lemma_level_index_char};
use crate::bytes::{BAR, COMMA, NL, SEP, bytes_eq, copy_bytes, text_free};
use crate::errors::RequestError;
use crate::key::{IdV, OrderIdentity, spec_price_text, spec_parse_price, price_to_text,
    parse_price};
use crate::order::{OrderType, OrderV, RestingOrder, Side};

verus! {

/// A fill reported by the engine, in plain values: the price keeps the
/// engine's own textual rendering.
#[derive(Debug)]
pub struct FillRecord {
    pub symbol: Vec<u8>,
    pub qty: u32,
    pub price_text: Vec<u8>,
    pub side: Side,
    pub cl_ord_id: Vec<u8>,
    pub secondary_cl_ord_id: Vec<u8>,
    pub status: Vec<u8>,
    pub leaves_qty: u32,
    pub cum_qty: u32,
}

/// Mathematical model of one read-back row.
#[verifier::ext_equal]
pub ghost struct RowV {
    pub key_symbol: Seq<u8>,
    pub key_price_text: Seq<u8>,
    pub qty: u32,
    pub limit: bool,
    pub cl_ord_id: Seq<u8>,
}

/// One resting order of the matched book, read back as plain values and
/// keyed by its level's (symbol, price) pair.
#[derive(Debug)]
pub struct BookRow {
    pub key_symbol: Vec<u8>,
    pub key_price_text: Vec<u8>,
    pub qty: u32,
    pub limit: bool,
    pub cl_ord_id: Vec<u8>,
}

impl View for BookRow {
    type V = RowV;

    open spec fn view(&self) -> RowV {
        RowV {
            key_symbol: self.key_symbol@,
            key_price_text: self.key_price_text@,
            qty: self.qty,
            limit: self.limit,
            cl_ord_id: self.cl_ord_id@,
        }
    }
}

pub open spec fn rows_view(v: Seq<BookRow>) -> Seq<RowV> {
    v.map_values(|r: BookRow| r@)
}

/// The largest cent count handed to the engine. The engine keys levels by
/// a binary floating point price; below this bound, counts one cent apart
/// lie many rounding steps apart, so distinct counts parse to distinct
/// keys and the boundary loses nothing.
pub const MAX_ENGINE_PRICE: u64 = 0xfffffffffff;

/// Some cent count the engine can keep distinct renders to this text.
pub open spec fn is_engine_price_text(s: Seq<u8>) -> bool {
    exists|c: u64| c <= MAX_ENGINE_PRICE && s == spec_price_text(c)
}

/// Mathematical model of one order as the engine book receives it: the
/// exact plain values handed across the boundary.
#[verifier::ext_equal]
pub ghost struct EngineOrderV {
    pub qty: u32,
    pub symbol: Seq<u8>,
    pub price_text: Seq<u8>,
    pub buy: bool,
    pub limit: bool,
    pub cl_ord_id: Seq<u8>,
}

/// The orders an engine book holds, in the order they were enqueued: its
/// stored strings read back as their bytes and its floating point keys as
/// their price texts. The add wrapper's preconditions keep both readings
/// one-to-one, so this is a single consistent view of the stored state.
pub uninterp spec fn engine_orders(ob: matching_engine::model::domain::OrderBook) -> Seq<EngineOrderV>;

/// The engine-side image of a model order: its price rendered as text.
pub open spec fn eng_view(o: OrderV) -> EngineOrderV {
    EngineOrderV {
        qty: o.qty,
        symbol: o.symbol,
        price_text: spec_price_text(o.price),
        buy: o.side is Buy,
        limit: o.order_type is Limit,
        cl_ord_id: o.cl_ord_id,
    }
}

pub open spec fn eng_seq(os: Seq<OrderV>) -> Seq<EngineOrderV> {
    os.map_values(|o: OrderV| eng_view(o))
}

/// Two engine orders rest at the same price level of the same side.
pub open spec fn same_level(a: EngineOrderV, b: EngineOrderV) -> bool {
    a.buy == b.buy && a.symbol == b.symbol && a.price_text == b.price_text
}

/// No two orders of one price level share a client order id. The matchers
/// key their cumulative-quantity maps by client order id within a level,
/// so a duplicate makes their quantity subtractions underflow.
pub open spec fn distinct_level_ids(es: Seq<EngineOrderV>) -> bool {
    forall|i: int, j: int|
        0 <= i < j < es.len() && same_level(#[trigger] es[i], #[trigger] es[j]) ==> es[i].cl_ord_id
            != es[j].cl_ord_id
}

/// Every quantity stays below 2^31, so the matchers' doubled cumulative
/// additions cannot overflow a u32.
pub open spec fn bounded_qtys(es: Seq<EngineOrderV>) -> bool {
    forall|i: int| 0 <= i < es.len() ==> (#[trigger] es[i]).qty <= 0x7fffffff
}

/// Total quantity resting at one side of one price level.
pub open spec fn level_qty(es: Seq<EngineOrderV>, buy: bool, sym: Seq<u8>, pt: Seq<u8>) -> int
    decreases es.len(),
{
    if es.len() == 0 {
        0
    } else {
        level_qty(es.drop_last(), buy, sym, pt) + if es.last().buy == buy && es.last().symbol
            == sym && es.last().price_text == pt {
            es.last().qty as int
        } else {
            0
        }
    }
}

/// The pro-rata matcher's arithmetic needs, at every level it touches
/// (one with orders on both sides), the sell quantity not to exceed the
/// buy quantity it is rationed against, and the buy total to fit the
/// engine's u32 sums.
pub open spec fn prorata_balanced(es: Seq<EngineOrderV>) -> bool {
    forall|i: int|
        0 <= i < es.len() && !(#[trigger] es[i]).buy && (exists|j: int|
            0 <= j < es.len() && (#[trigger] es[j]).buy && es[j].symbol == es[i].symbol
                && es[j].price_text == es[i].price_text) ==> {
            &&& level_qty(es, true, es[i].symbol, es[i].price_text) <= 0x7fffffff
            &&& level_qty(es, false, es[i].symbol, es[i].price_text) <= level_qty(
                es,
                true,
                es[i].symbol,
                es[i].price_text,
            )
        }
}

/// Every order's bytes survive the boundary conversions unchanged: text in
/// the seven-bit range passes the engine's UTF-8 string conversion one
/// byte for one character, and a bounded cent count parses to a floating
/// point key distinct from every other such count's. Without this, the
/// engine can conflate orders or levels the model keeps apart.
pub open spec fn engine_representable(es: Seq<EngineOrderV>) -> bool {
    forall|i: int|
        0 <= i < es.len() ==> {
            &&& crate::bytes::ascii_text((#[trigger] es[i]).symbol)
            &&& crate::bytes::ascii_text(es[i].cl_ord_id)
            &&& is_engine_price_text(es[i].price_text)
        }
}

/// What the selected matcher needs of the book's contents to run without
/// failing.
pub open spec fn strategy_safe(es: Seq<EngineOrderV>, prorata: bool) -> bool {
    &&& engine_representable(es)
    &&& distinct_level_ids(es)
    &&& bounded_qtys(es)
    &&& (prorata ==> prorata_balanced(es))
}

#[verifier::external_type_specification]
#[verifier::external_body]
pub struct ExOrderBook(matching_engine::model::domain::OrderBook);

#[verifier::external_type_specification]
#[verifier::external_body]
pub struct ExFill(matching_engine::model::domain::Fill);

/// Relies on matching_engine's OrderBook::default: a fresh, empty engine
/// book.
#[verifier::external_body]
fn engine_new_book() -> (r: matching_engine::model::domain::OrderBook)
    ensures
        engine_orders(r) == Seq::<EngineOrderV>::empty(),
{
    matching_engine::model::domain::OrderBook::default()
}

/// Relies on matching_engine's OrderSingle::new and
/// OrderBook::add_order_to_order_book: enqueues one order at the tail of
/// its (symbol, price) level on its side. The preconditions make the push
/// clause exact: seven-bit text passes the lossy UTF-8 conversion below
/// unchanged, and the price text renders a bounded cent count, so the
/// numeric parse cannot fail and the engine's floating point key stands
/// for this count alone.
#[verifier::external_body]
fn engine_add_order(
    ob: &mut matching_engine::model::domain::OrderBook,
    qty: u32,
    symbol: &Vec<u8>,
    price_text: &Vec<u8>,
    buy: bool,
    limit: bool,
    cl_ord_id: &Vec<u8>,
)
    requires
        is_engine_price_text(price_text@),
        crate::bytes::ascii_text(symbol@),
        crate::bytes::ascii_text(cl_ord_id@),
    ensures
        engine_orders(*final(ob)) == engine_orders(*old(ob)).push(
            EngineOrderV {
                qty,
                symbol: symbol@,
                price_text: price_text@,
                buy,
                limit,
                cl_ord_id: cl_ord_id@,
            },
        ),
{
    let sd = if buy { matching_engine::model::domain::Side::Buy } else { matching_engine::model::domain::Side::Sell };
    let kd = if limit { matching_engine::model::domain::OrderType::Limit } else { matching_engine::model::domain::OrderType::Market };
    let sym = String::from_utf8_lossy(symbol).into_owned();
    let id = String::from_utf8_lossy(cl_ord_id).into_owned();
    let pr = String::from_utf8_lossy(price_text).parse().unwrap();
    ob.add_order_to_order_book(
        matching_engine::model::domain::OrderSingle::new(qty, sym, pr, sd, kd, id),
    );
}

/// Relies on matching_engine's FIFOMatcher::match_order_book: matches the
/// book in place, reducing or removing matched quantity, and reports the
/// fills in the order they occurred. Nothing is assumed of the outcome.
/// The precondition keeps its cumulative-quantity arithmetic, keyed by
/// client order id per level, from underflowing or overflowing.
#[verifier::external_body]
fn engine_match_fifo(ob: &mut matching_engine::model::domain::OrderBook) -> Vec<
    matching_engine::model::domain::Fill,
>
    requires
        strategy_safe(engine_orders(*old(ob)), false),
{
    matching_engine::matchers::matcher::Matcher::match_order_book(
        &mut matching_engine::matchers::fifo_matcher::FIFOMatcher,
        ob,
    )
}

/// Relies on matching_engine's ProrataMatcher::match_order_book, as the
/// FIFO wrapper does for its matcher. Nothing is assumed of the outcome.
/// The precondition additionally keeps its proportional fills within each
/// order's quantity and its per-level quantity sums within a u32.
#[verifier::external_body]
fn engine_match_prorata(ob: &mut matching_engine::model::domain::OrderBook) -> Vec<
    matching_engine::model::domain::Fill,
>
    requires
        strategy_safe(engine_orders(*old(ob)), true),
{
    matching_engine::matchers::matcher::Matcher::match_order_book(
        &mut matching_engine::matchers::prorata_matcher::ProrataMatcher,
        ob,
    )
}

/// Relies on matching_engine's Fill accessors: each engine fill becomes one
/// plain record, field for field; the price keeps the engine's rendering.
#[verifier::external_body]
fn engine_fills_out(fills: &Vec<matching_engine::model::domain::Fill>) -> Vec<FillRecord> {
    fills.iter().map(
        |f| FillRecord {
            symbol: f.symbol().clone().into_bytes(),
            qty: f.qty(),
            price_text: f.price().to_string().into_bytes(),
            side: if f.side() == matching_engine::model::domain::Side::Buy { Side::Buy } else { Side::Sell },
            cl_ord_id: f.cl_ord_id().to_string().into_bytes(),
            secondary_cl_ord_id: f.secondary_cl_ord_id().into_bytes(),
            status: f.status().string_value().to_string().into_bytes(),
            leaves_qty: f.leaves_qty(),
            cum_qty: f.cum_qty(),
        },
    ).collect()
}

/// Relies on matching_engine's OrderBook::get_orders_for: hands out one
/// side's levels as plain rows, one per resting order, keyed by the level's
/// (symbol, price). Level order follows the engine's map iteration, which
/// varies; within one level the queue order is kept.
#[verifier::external_body]
fn engine_book_rows(ob: &matching_engine::model::domain::OrderBook, buy: bool) -> Vec<BookRow> {
    let sd = if buy { matching_engine::model::domain::Side::Buy } else { matching_engine::model::domain::Side::Sell };
    ob.get_orders_for(sd).iter().flat_map(
        |(k, q)| q.iter().map(
            |o| BookRow {
                key_symbol: k.symbol().to_string().into_bytes(),
                key_price_text: k.price().to_string().into_bytes(),
                qty: o.qty(),
                limit: o.order_type() == matching_engine::model::domain::OrderType::Limit,
                cl_ord_id: o.cl_ord_id().clone().into_bytes(),
            },
        ).collect::<Vec<BookRow>>(),
    ).collect()
}

/// The identity and order one row stands for, if the model can hold it: a
/// cent-precision key price, a delimiter-free and separator-free key
/// symbol, a document-safe client order id. The rebuilt order takes its
/// symbol, price and side from its level, as the engine's own insertion
/// derives the level from them.
pub open spec fn spec_row_of(row: RowV, buy: bool) -> Option<(IdV, OrderV)> {
    match spec_parse_price(row.key_price_text) {
        Some(c) => if text_free(row.key_symbol) && (forall|j: int|
            0 <= j < row.key_symbol.len() ==> row.key_symbol[j] != SEP) && text_free(
            row.cl_ord_id,
        ) {
            Some(
                (
                    IdV { symbol: row.key_symbol, price: c },
                    OrderV {
                        qty: row.qty,
                        symbol: row.key_symbol,
                        price: c,
                        side: if buy {
                            Side::Buy
                        } else {
                            Side::Sell
                        },
                        order_type: if row.limit {
                            OrderType::Limit
                        } else {
                            OrderType::Market
                        },
                        cl_ord_id: row.cl_ord_id,
                    },
                ),
            )
        } else {
            None
        },
        None => None,
    }
}

/// One side regrouped from its rows, row by row: a row whose identity is
/// that of the last level extends its queue, a new identity opens a new
/// level, and the rebuild fails on a row the model cannot hold or whose
/// identity re-appears after other levels.
pub open spec fn spec_rebuild(rows: Seq<RowV>, buy: bool) -> Option<BookSideV>
    decreases rows.len(),
{
    if rows.len() == 0 {
        Some(Seq::empty())
    } else {
        match (spec_rebuild(rows.drop_last(), buy), spec_row_of(rows.last(), buy)) {
            (Some(side), Some(p)) => match spec_level_index(side, p.0) {
                Some(k) => if k == side.len() - 1 {
                    Some(side.update(k, (side[k].0, side[k].1.push(p.1))))
                } else {
                    None
                },
                None => Some(side.push((p.0, seq![p.1]))),
            },
            _ => None,
        }
    }
}

pub proof fn lemma_rebuild_none(rows: Seq<RowV>, buy: bool, k: int)
    requires
        0 <= k <= rows.len(),
        spec_rebuild(rows.subrange(0, k), buy) is None,
    ensures
        spec_rebuild(rows, buy) is None,
    decreases rows.len(),
{
    if k == rows.len() {
        assert(rows.subrange(0, k) =~= rows);
    } else {
        assert(rows.drop_last().subrange(0, k) =~= rows.subrange(0, k));
        lemma_rebuild_none(rows.drop_last(), buy, k);
    }
}

/// Checks that a text may stand verbatim in the snapshot document.
pub fn check_text_free(v: &Vec<u8>) -> (r: bool)
    ensures
        r == text_free(v@),
{
    let mut i: usize = 0;
    while i < v.len()
        invariant
            i <= v.len(),
            forall|j: int| 0 <= j < i ==> #[trigger] v@[j] != COMMA && v@[j] != BAR && v@[j] != NL,
        decreases v.len() - i,
    {
        let b = v[i];
        if b == COMMA || b == BAR || b == NL {
            return false;
        }
        i += 1;
    }
    true
}

/// Checks that a text stays within the seven-bit range.
pub fn check_ascii(v: &Vec<u8>) -> (r: bool)
    ensures
        r == crate::bytes::ascii_text(v@),
{
    let mut i: usize = 0;
    while i < v.len()
        invariant
            i <= v.len(),
            forall|j: int| 0 <= j < i ==> (#[trigger] v@[j]) < 128,
        decreases v.len() - i,
    {
        if v[i] >= 128 {
            return false;
        }
        i += 1;
    }
    true
}

/// Checks that a symbol is free of the key separator.
pub fn check_sep_free(v: &Vec<u8>) -> (r: bool)
    ensures
        r == (forall|j: int| 0 <= j < v@.len() ==> v@[j] != SEP),
{
    let mut i: usize = 0;
    while i < v.len()
        invariant
            i <= v.len(),
            forall|j: int| 0 <= j < i ==> v@[j] != SEP,
        decreases v.len() - i,
    {
        if v[i] == SEP {
            return false;
        }
        i += 1;
    }
    true
}

fn check_row(row: &BookRow, buy: bool) -> (r: Option<(OrderIdentity, RestingOrder)>)
    ensures
        match r {
            Some(p) => spec_row_of(row@, buy) == Some((p.0@, p.1@)),
            None => spec_row_of(row@, buy) is None,
        },
{
    let cents = match parse_price(&row.key_price_text, 0, row.key_price_text.len()) {
        Some(c) => c,
        None => {
            proof {
                assert(row.key_price_text@.subrange(
                    0,
                    row.key_price_text@.len() as int,
                ) =~= row.key_price_text@);
            }
            return None;
        },
    };
    proof {
        assert(row.key_price_text@.subrange(
            0,
            row.key_price_text@.len() as int,
        ) =~= row.key_price_text@);
    }
    if !check_text_free(&row.key_symbol) || !check_sep_free(&row.key_symbol) {
        return None;
    }
    if !check_text_free(&row.cl_ord_id) {
        return None;
    }
    let id = OrderIdentity { symbol: copy_bytes(&row.key_symbol), price: cents };
    let o = RestingOrder {
        qty: row.qty,
        symbol: copy_bytes(&row.key_symbol),
        price: cents,
        side: if buy {
            Side::Buy
        } else {
            Side::Sell
        },
        order_type: if row.limit {
            OrderType::Limit
        } else {
            OrderType::Market
        },
        cl_ord_id: copy_bytes(&row.cl_ord_id),
    };
    proof {
        assert(spec_row_of(row@, buy).unwrap() =~= (id@, o@));
    }
    Some((id, o))
}

/// Index of the level standing under `id`, if any.
fn find_level(side: &Vec<(OrderIdentity, Vec<RestingOrder>)>, id: &OrderIdentity) -> (r: Option<
    usize,
>)
    ensures
        match spec_level_index(book_side_view(side@), id@) {
            None => r is None,
            Some(k) => r == Some(k as usize),
        },
{
    let ghost sv = book_side_view(side@);
    let mut i: usize = 0;
    while i < side.len()
        invariant
            i <= side.len(),
            sv == book_side_view(side@),
            forall|j: int| 0 <= j < i ==> (#[trigger] sv[j]).0 != id@,
        decreases side.len() - i,
    {
        proof {
            assert(sv[i as int] == (side@[i as int].0@, orders_view(side@[i as int].1@)));
        }
        if side[i].0.price == id.price && bytes_eq(&side[i].0.symbol, &id.symbol) {
            proof {
                assert(sv[i as int].0 =~= id@);
                lemma_level_index_at(sv, id@, i as int);
            }
            return Some(i);
        }
        proof {
            if sv[i as int].0 == id@ {
                assert(sv[i as int].0.symbol == side@[i as int].0.symbol@);
                assert(false);
            }
        }
        i += 1;
    }
    proof {
        lemma_level_index_absent(sv, id@);
    }
    None
}

/// Regroups the rows of one side into well-formed price levels, exactly as
/// the grouping spec says; the whole rebuild fails on any row the model
/// cannot hold or that would scatter one level.
pub fn rebuild_side(rows: &Vec<BookRow>, buy: bool) -> (r: Result<
    Vec<(OrderIdentity, Vec<RestingOrder>)>,
    RequestError,
>)
    ensures
        match r {
            Ok(v) => {
                &&& spec_rebuild(rows_view(rows@), buy) == Some(book_side_view(v@))
                &&& wf_book_side(book_side_view(v@))
            },
            Err(e) => e == RequestError::MatcherState && spec_rebuild(
                rows_view(rows@),
                buy,
            ) is None,
        },
{
    let ghost rv = rows_view(rows@);
    let mut out: Vec<(OrderIdentity, Vec<RestingOrder>)> = Vec::new();
    let mut i: usize = 0;
    proof {
        assert(rv.subrange(0, 0) =~= Seq::<RowV>::empty());
        assert(book_side_view(out@) =~= Seq::<(IdV, Seq<OrderV>)>::empty());
    }
    while i < rows.len()
        invariant
            i <= rows.len(),
            rv == rows_view(rows@),
            spec_rebuild(rv.subrange(0, i as int), buy) == Some(book_side_view(out@)),
            wf_book_side(book_side_view(out@)),
        decreases rows.len() - i,
    {
        proof {
            assert(rv[i as int] == rows@[i as int]@);
            assert(rv.subrange(0, i + 1 as int).drop_last() =~= rv.subrange(0, i as int));
            assert(rv.subrange(0, i + 1 as int).last() == rv[i as int]);
        }
        let (id, o) = match check_row(&rows[i], buy) {
            Some(p) => p,
            None => {
                proof {
                    assert(spec_rebuild(rv.subrange(0, i + 1 as int), buy) is None);
                    lemma_rebuild_none(rv, buy, i + 1 as int);
                }
                return Err(RequestError::MatcherState);
            },
        };
        let ghost prev = book_side_view(out@);
        let n = out.len();
        match find_level(&out, &id) {
            Some(k) => {
                proof {
                    lemma_level_index_char(prev, id@);
                    assert(spec_level_index(prev, id@) == Some(k as int));
                    assert(0 <= k < n);
                }
                if k + 1 != n {
                    proof {
                        assert(spec_rebuild(rv.subrange(0, i + 1 as int), buy) is None);
                        lemma_rebuild_none(rv, buy, i + 1 as int);
                    }
                    return Err(RequestError::MatcherState);
                }
                let key = out[n - 1].0.dup();
                let mut lev = crate::book::dup_level(&out[n - 1].1);
                let ghost dv = lev@;
                let ghost oov = o@;
                lev.push(o);
                proof {
                    assert forall|j: int| 0 <= j < lev@.len() implies #[trigger] orders_view(
                        lev@,
                    )[j] == orders_view(dv).push(oov)[j] by {
                        if j < dv.len() {
                            assert(orders_view(lev@)[j] == lev@[j]@);
                        }
                    }
                    assert(orders_view(lev@) =~= orders_view(dv).push(oov));
                    assert(prev[n - 1 as int] == (
                        out@[n - 1 as int].0@,
                        orders_view(out@[n - 1 as int].1@),
                    ));
                    assert(orders_view(lev@) =~= prev[n - 1 as int].1.push(oov));
                }
                let ghost lv = orders_view(lev@);
                out.set(n - 1, (key, lev));
                proof {
                    assert(book_side_view(out@) =~= prev.update(
                        n - 1 as int,
                        (prev[n - 1 as int].0, lv),
                    ));
                    assert(spec_row_of(rv.subrange(0, i + 1 as int).last(), buy) == Some(
                        (id@, oov),
                    ));
                    assert(spec_rebuild(rv.subrange(0, i + 1 as int), buy) == Some(
                        prev.update(n - 1 as int, (prev[n - 1 as int].0, prev[n - 1 as int].1.push(oov))),
                    ));
                    assert(spec_rebuild(rv.subrange(0, i + 1 as int), buy) == Some(
                        book_side_view(out@),
                    ));
                    assert forall|j: int| 0 <= j < book_side_view(out@).len() implies
                        crate::book::wf_book_level(#[trigger] book_side_view(out@)[j]) by {
                        assert(crate::book::wf_book_level(prev[j]));
                    }
                    assert forall|a: int, b: int|
                        0 <= a < b < book_side_view(out@).len() implies (
                    #[trigger] book_side_view(out@)[a]).0 != (#[trigger] book_side_view(
                        out@,
                    )[b]).0 by {
                        assert(prev[a].0 != prev[b].0);
                        assert(book_side_view(out@)[a].0 == prev[a].0);
                        assert(book_side_view(out@)[b].0 == prev[b].0);
                    }
                }
            },
            None => {
                let ghost iv = id@;
                let ghost oov = o@;
                proof {
                    lemma_level_index_char(prev, iv);
                }
                let mut lev: Vec<RestingOrder> = Vec::new();
                lev.push(o);
                out.push((id, lev));
                proof {
                    assert(orders_view(lev@) =~= seq![oov]);
                    assert(book_side_view(out@) =~= prev.push((iv, seq![oov])));
                    assert(spec_rebuild(rv.subrange(0, i + 1 as int), buy) == Some(
                        book_side_view(out@),
                    ));
                    assert forall|j: int| 0 <= j < book_side_view(out@).len() implies
                        crate::book::wf_book_level(#[trigger] book_side_view(out@)[j]) by {
                        if j < prev.len() {
                            assert(crate::book::wf_book_level(prev[j]));
                        }
                    }
                    assert forall|a: int, b: int|
                        0 <= a < b < book_side_view(out@).len() implies (
                    #[trigger] book_side_view(out@)[a]).0 != (#[trigger] book_side_view(
                        out@,
                    )[b]).0 by {
                        if b < prev.len() {
                            assert(prev[a].0 != prev[b].0);
                        } else {
                            assert(prev[a].0 != iv);
                        }
                        assert(book_side_view(out@)[a].0 == prev[a].0);
                    }
                }
            },
        }
        i += 1;
    }
    proof {
        assert(rv.subrange(0, rv.len() as int) =~= rv);
    }
    Ok(out)
}

/// The orders of one side, level by level, queue order kept.
pub open spec fn spec_flatten_side(side: BookSideV) -> Seq<OrderV>
    decreases side.len(),
{
    if side.len() == 0 {
        Seq::empty()
    } else {
        spec_flatten_side(side.drop_last()) + side.last().1
    }
}

/// All the book's orders: the buy side's, then the sell side's.
pub open spec fn spec_flatten(b: crate::book::BookV) -> Seq<OrderV> {
    spec_flatten_side(b.buys) + spec_flatten_side(b.sells)
}

/// Collects one side's orders into the flat feed.
fn flatten_side(out: &mut Vec<RestingOrder>, side: &Vec<(OrderIdentity, Vec<RestingOrder>)>)
    ensures
        orders_view(final(out)@) == orders_view(old(out)@) + spec_flatten_side(
            book_side_view(side@),
        ),
{
    let ghost sv = book_side_view(side@);
    let ghost base = orders_view(out@);
    let mut i: usize = 0;
    proof {
        assert(orders_view(out@) =~= base + spec_flatten_side(sv.subrange(0, 0)));
    }
    while i < side.len()
        invariant
            i <= side.len(),
            sv == book_side_view(side@),
            orders_view(out@) == base + spec_flatten_side(sv.subrange(0, i as int)),
        decreases side.len() - i,
    {
        proof {
            assert(sv[i as int] == (side@[i as int].0@, orders_view(side@[i as int].1@)));
        }
        let ghost lv = sv[i as int].1;
        let mut j: usize = 0;
        while j < side[i].1.len()
            invariant
                i < side.len(),
                j <= side@[i as int].1@.len(),
                sv == book_side_view(side@),
                lv == orders_view(side@[i as int].1@),
                orders_view(out@) == base + spec_flatten_side(sv.subrange(0, i as int))
                    + lv.subrange(0, j as int),
            decreases side@[i as int].1@.len() - j,
        {
            let ghost before = orders_view(out@);
            out.push(side[i].1[j].dup());
            proof {
                assert(orders_view(out@) =~= before.push(lv[j as int]));
                assert(lv.subrange(0, j + 1 as int) =~= lv.subrange(0, j as int).push(
                    lv[j as int],
                ));
                assert(orders_view(out@) =~= base + spec_flatten_side(sv.subrange(0, i as int))
                    + lv.subrange(0, j + 1 as int));
            }
            j += 1;
        }
        proof {
            assert(lv.subrange(0, lv.len() as int) =~= lv);
            assert(sv.subrange(0, i + 1 as int).drop_last() =~= sv.subrange(0, i as int));
            assert(sv.subrange(0, i + 1 as int).last() == sv[i as int]);
            assert(orders_view(out@) =~= base + spec_flatten_side(sv.subrange(0, i + 1 as int)));
        }
        i += 1;
    }
    proof {
        assert(sv.subrange(0, sv.len() as int) =~= sv);
    }
}

/// The book's orders as one flat feed, buys then sells.
fn flatten_book(book: &crate::book::LiveOrderBook) -> (r: Vec<RestingOrder>)
    ensures
        orders_view(r@) == spec_flatten(book@),
{
    let mut r: Vec<RestingOrder> = Vec::new();
    proof {
        assert(orders_view(r@) =~= Seq::<OrderV>::empty());
        assert(Seq::<OrderV>::empty() + spec_flatten_side(book_side_view(book.buy_orders@))
            =~= spec_flatten_side(book_side_view(book.buy_orders@)));
    }
    flatten_side(&mut r, &book.buy_orders);
    flatten_side(&mut r, &book.sell_orders);
    r
}

pub proof fn lemma_level_qty_step(es: Seq<EngineOrderV>, k: int, buy: bool, sym: Seq<u8>, pt: Seq<
    u8,
>)
    requires
        0 <= k < es.len(),
    ensures
        level_qty(es.subrange(0, k + 1), buy, sym, pt) == level_qty(es.subrange(0, k), buy, sym, pt)
            + if es[k].buy == buy && es[k].symbol == sym && es[k].price_text == pt {
            es[k].qty as int
        } else {
            0
        },
{
    assert(es.subrange(0, k + 1).drop_last() =~= es.subrange(0, k));
    assert(es.subrange(0, k + 1).last() == es[k]);
}

/// Sums one level's quantity over the feed.
fn feed_level_qty(
    feed: &Vec<RestingOrder>,
    pts: &Vec<Vec<u8>>,
    at: usize,
    buy: bool,
    Ghost(es): Ghost<Seq<EngineOrderV>>,
) -> (r: u128)
    requires
        es == eng_seq(orders_view(feed@)),
        pts@.len() == feed@.len(),
        forall|j: int| 0 <= j < feed@.len() ==> (#[trigger] pts@[j])@ == es[j].price_text,
        at < feed@.len(),
    ensures
        r as int == level_qty(es, buy, es[at as int].symbol, es[at as int].price_text),
{
    let ghost sym = es[at as int].symbol;
    let ghost pt = es[at as int].price_text;
    let mut acc: u128 = 0;
    let mut k: usize = 0;
    proof {
        assert(es.subrange(0, 0) =~= Seq::<EngineOrderV>::empty());
    }
    while k < feed.len()
        invariant
            k <= feed@.len(),
            es == eng_seq(orders_view(feed@)),
            pts@.len() == feed@.len(),
            forall|j: int| 0 <= j < feed@.len() ==> (#[trigger] pts@[j])@ == es[j].price_text,
            sym == es[at as int].symbol,
            pt == es[at as int].price_text,
            at < feed@.len(),
            acc as int == level_qty(es.subrange(0, k as int), buy, sym, pt),
            acc <= (k as int) * 0x100000000,
        decreases feed.len() - k,
    {
        proof {
            assert(es[k as int] == eng_view(orders_view(feed@)[k as int]));
            assert(orders_view(feed@)[k as int] == feed@[k as int]@);
            lemma_level_qty_step(es, k as int, buy, sym, pt);
        }
        let is_buy = matches!(feed[k].side, Side::Buy);
        if is_buy == buy && bytes_eq(&feed[k].symbol, &feed[at].symbol) && bytes_eq(
            &pts[k],
            &pts[at],
        ) {
            proof {
                assert(es[at as int] == eng_view(feed@[at as int]@));
                assert(es[k as int].buy == buy && es[k as int].symbol == sym && es[
                    k as int
                ].price_text == pt);
            }
            acc = acc + feed[k].qty as u128;
        } else {
            proof {
                assert(es[at as int] == eng_view(feed@[at as int]@));
                if es[k as int].buy == buy && es[k as int].symbol == sym && es[
                    k as int
                ].price_text == pt {
                    assert(false);
                }
            }
        }
        k += 1;
    }
    proof {
        assert(es.subrange(0, feed@.len() as int) =~= es);
    }
    acc
}

/// Decides whether the feed is safe to hand to the selected matcher.
#[verifier::rlimit(100)]
fn check_safe(feed: &Vec<RestingOrder>, prorata: bool) -> (r: bool)
    ensures
        r == strategy_safe(eng_seq(orders_view(feed@)), prorata),
{
    let ghost es = eng_seq(orders_view(feed@));
    proof {
        assert forall|j: int| 0 <= j < es.len() implies #[trigger] es[j] == eng_view(
            feed@[j]@,
        ) by {
            assert(orders_view(feed@)[j] == feed@[j]@);
        }
    }
    let n = feed.len();
    // bytes and prices the engine keeps distinct
    let mut i: usize = 0;
    while i < n
        invariant
            i <= n == feed@.len(),
            es == eng_seq(orders_view(feed@)),
            forall|j: int| 0 <= j < es.len() ==> #[trigger] es[j] == eng_view(feed@[j]@),
            forall|j: int|
                0 <= j < i ==> {
                    &&& crate::bytes::ascii_text((#[trigger] es[j]).symbol)
                    &&& crate::bytes::ascii_text(es[j].cl_ord_id)
                    &&& is_engine_price_text(es[j].price_text)
                },
        decreases n - i,
    {
        if !check_ascii(&feed[i].symbol) || !check_ascii(&feed[i].cl_ord_id) {
            proof {
                assert(es[i as int].symbol == feed@[i as int]@.symbol);
                assert(es[i as int].cl_ord_id == feed@[i as int]@.cl_ord_id);
                assert(!engine_representable(es));
            }
            return false;
        }
        if feed[i].price > MAX_ENGINE_PRICE {
            proof {
                assert(es[i as int].price_text == spec_price_text(feed@[i as int].price));
                if is_engine_price_text(es[i as int].price_text) {
                    let c = choose|c: u64|
                        c <= MAX_ENGINE_PRICE && es[i as int].price_text == spec_price_text(c);
                    crate::key::lemma_price_text_injective(c, feed@[i as int].price);
                }
                assert(!engine_representable(es));
            }
            return false;
        }
        proof {
            assert(es[i as int].price_text == spec_price_text(feed@[i as int].price));
            assert(is_engine_price_text(es[i as int].price_text));
        }
        i += 1;
    }
    proof {
        assert(engine_representable(es));
    }
    // quantity bound
    let mut i: usize = 0;
    while i < n
        invariant
            i <= n == feed@.len(),
            es == eng_seq(orders_view(feed@)),
            engine_representable(es),
            forall|j: int| 0 <= j < es.len() ==> #[trigger] es[j] == eng_view(feed@[j]@),
            forall|j: int| 0 <= j < i ==> (#[trigger] es[j]).qty <= 0x7fffffff,
        decreases n - i,
    {
        if feed[i].qty > 0x7fffffff {
            proof {
                assert(es[i as int].qty > 0x7fffffff);
            }
            return false;
        }
        i += 1;
    }
    // price texts, for level comparisons
    let mut pts: Vec<Vec<u8>> = Vec::new();
    let mut i: usize = 0;
    while i < n
        invariant
            i <= n == feed@.len(),
            es == eng_seq(orders_view(feed@)),
            engine_representable(es),
            forall|j: int| 0 <= j < es.len() ==> #[trigger] es[j] == eng_view(feed@[j]@),
            pts@.len() == i,
            forall|j: int| 0 <= j < i ==> (#[trigger] pts@[j])@ == es[j].price_text,
        decreases n - i,
    {
        let pt = price_to_text(feed[i].price);
        pts.push(pt);
        i += 1;
    }
    // distinct client order ids per level
    let mut i: usize = 0;
    while i < n
        invariant
            i <= n == feed@.len(),
            es == eng_seq(orders_view(feed@)),
            engine_representable(es),
            forall|j: int| 0 <= j < es.len() ==> #[trigger] es[j] == eng_view(feed@[j]@),
            pts@.len() == n,
            forall|j: int| 0 <= j < n ==> (#[trigger] pts@[j])@ == es[j].price_text,
            forall|a: int, b: int|
                0 <= a < b < es.len() && a < i && same_level(#[trigger] es[a], #[trigger] es[b])
                    ==> es[a].cl_ord_id != es[b].cl_ord_id,
        decreases n - i,
    {
        let mut j: usize = i + 1;
        while j < n
            invariant
                i < j <= n == feed@.len(),
                es == eng_seq(orders_view(feed@)),
                forall|jj: int| 0 <= jj < es.len() ==> #[trigger] es[jj] == eng_view(feed@[jj]@),
                pts@.len() == n,
                forall|jj: int| 0 <= jj < n ==> (#[trigger] pts@[jj])@ == es[jj].price_text,
                forall|b: int|
                    i < b < j && same_level(es[i as int], #[trigger] es[b]) ==> es[
                        i as int
                    ].cl_ord_id != es[b].cl_ord_id,
            decreases n - j,
        {
            let same_side = matches!(feed[i].side, Side::Buy) == matches!(feed[j].side, Side::Buy);
            if same_side && bytes_eq(&feed[i].symbol, &feed[j].symbol) && bytes_eq(
                &pts[i],
                &pts[j],
            ) {
                if bytes_eq(&feed[i].cl_ord_id, &feed[j].cl_ord_id) {
                    proof {
                        assert(same_level(es[i as int], es[j as int]));
                        assert(es[i as int].cl_ord_id == es[j as int].cl_ord_id);
                        assert(!distinct_level_ids(es));
                    }
                    return false;
                }
            } else {
                proof {
                    if same_level(es[i as int], es[j as int]) {
                        assert(false);
                    }
                }
            }
            j += 1;
        }
        i += 1;
    }
    proof {
        assert(es.len() == feed@.len());
        assert(bounded_qtys(es));
        assert(distinct_level_ids(es));
        assert(engine_representable(es));
    }
    if !prorata {
        return true;
    }
    // pro-rata balance per level with both sides present
    let mut i: usize = 0;
    while i < n
        invariant
            prorata,
            i <= n == feed@.len(),
            es == eng_seq(orders_view(feed@)),
            engine_representable(es),
            forall|j: int| 0 <= j < es.len() ==> #[trigger] es[j] == eng_view(feed@[j]@),
            pts@.len() == n,
            forall|j: int| 0 <= j < n ==> (#[trigger] pts@[j])@ == es[j].price_text,
            distinct_level_ids(es),
            bounded_qtys(es),
            forall|a: int|
                0 <= a < i && !(#[trigger] es[a]).buy && (exists|b: int|
                    0 <= b < es.len() && (#[trigger] es[b]).buy && es[b].symbol == es[a].symbol
                        && es[b].price_text == es[a].price_text) ==> {
                    &&& level_qty(es, true, es[a].symbol, es[a].price_text) <= 0x7fffffff
                    &&& level_qty(es, false, es[a].symbol, es[a].price_text) <= level_qty(
                        es,
                        true,
                        es[a].symbol,
                        es[a].price_text,
                    )
                },
        decreases n - i,
    {
        if !matches!(feed[i].side, Side::Buy) {
            // is some buy resting at this level?
            let mut found = false;
            let ghost mut witness: int = 0int;
            let mut j: usize = 0;
            while j < n
                invariant
                    j <= n == feed@.len(),
                    i < n,
                    es == eng_seq(orders_view(feed@)),
                    forall|jj: int| 0 <= jj < es.len() ==> #[trigger] es[jj] == eng_view(
                        feed@[jj]@,
                    ),
                    pts@.len() == n,
                    forall|jj: int| 0 <= jj < n ==> (#[trigger] pts@[jj])@ == es[jj].price_text,
                    !found ==> forall|b: int|
                        0 <= b < j ==> !((#[trigger] es[b]).buy && es[b].symbol == es[
                            i as int
                        ].symbol && es[b].price_text == es[i as int].price_text),
                    found ==> 0 <= witness < es.len() && es[witness].buy && es[witness].symbol
                        == es[i as int].symbol && es[witness].price_text == es[
                        i as int
                    ].price_text,
                decreases n - j,
            {
                if !found && matches!(feed[j].side, Side::Buy) && bytes_eq(
                    &feed[j].symbol,
                    &feed[i].symbol,
                ) && bytes_eq(&pts[j], &pts[i]) {
                    found = true;
                    proof {
                        witness = j as int;
                    }
                } else {
                    proof {
                        if !found && es[j as int].buy && es[j as int].symbol == es[
                            i as int
                        ].symbol && es[j as int].price_text == es[i as int].price_text {
                            assert(false);
                        }
                    }
                }
                j += 1;
            }
            if found {
                let bsum = feed_level_qty(feed, &pts, i, true, Ghost(es));
                if bsum > 0x7fffffff {
                    proof {
                        assert(!es[i as int].buy);
                        assert(level_qty(es, true, es[i as int].symbol, es[i as int].price_text)
                            > 0x7fffffff);
                        assert(exists|b: int|
                            0 <= b < es.len() && (#[trigger] es[b]).buy && es[b].symbol == es[
                                i as int
                            ].symbol && es[b].price_text == es[i as int].price_text) by {
                            assert(es[witness].buy && es[witness].symbol == es[i as int].symbol
                                && es[witness].price_text == es[i as int].price_text);
                        }
                        assert(!prorata_balanced(es));
                    }
                    return false;
                }
                let ssum = feed_level_qty(feed, &pts, i, false, Ghost(es));
                if ssum > bsum {
                    proof {
                        assert(!es[i as int].buy);
                        assert(level_qty(es, false, es[i as int].symbol, es[i as int].price_text)
                            > level_qty(es, true, es[i as int].symbol, es[i as int].price_text));
                        assert(exists|b: int|
                            0 <= b < es.len() && (#[trigger] es[b]).buy && es[b].symbol == es[
                                i as int
                            ].symbol && es[b].price_text == es[i as int].price_text) by {
                            assert(es[witness].buy && es[witness].symbol == es[i as int].symbol
                                && es[witness].price_text == es[i as int].price_text);
                        }
                        assert(!prorata_balanced(es));
                    }
                    return false;
                }
            }
        }
        i += 1;
    }
    true
}

/// Runs the selected matcher over the book's contents: flattens the book,
/// refuses a feed the matcher cannot process safely, fills the engine's
/// book, matches it in place, and reads the result back as a book the
/// model holds, with the fills. Whatever the matcher did, the returned
/// book is well formed; a result outside the model fails instead.
pub fn run_match(book: &crate::book::LiveOrderBook, strategy: crate::strategy::Strategy) -> (r:
    Result<(crate::book::LiveOrderBook, Vec<FillRecord>), RequestError>)
    ensures
        match r {
            Ok(p) => {
                &&& crate::book::wf_book(p.0@)
                &&& strategy_safe(
                    eng_seq(spec_flatten(book@)),
                    strategy is Prorata,
                )
            },
            Err(e) => {
                ||| (e == RequestError::EngineUnsafe && !strategy_safe(
                    eng_seq(spec_flatten(book@)),
                    strategy is Prorata,
                ))
                ||| (e == RequestError::MatcherState && strategy_safe(
                    eng_seq(spec_flatten(book@)),
                    strategy is Prorata,
                ))
            },
        },
{
    let feed = flatten_book(book);
    let prorata = matches!(strategy, crate::strategy::Strategy::Prorata);
    if !check_safe(&feed, prorata) {
        return Err(RequestError::EngineUnsafe);
    }
    let ghost es = eng_seq(orders_view(feed@));
    let mut eng = engine_new_book();
    let mut i: usize = 0;
    proof {
        assert(engine_orders(eng) =~= es.subrange(0, 0));
    }
    while i < feed.len()
        invariant
            i <= feed@.len(),
            es == eng_seq(orders_view(feed@)),
            strategy_safe(es, prorata),
            engine_orders(eng) == es.subrange(0, i as int),
        decreases feed.len() - i,
    {
        let o = &feed[i];
        let pt = price_to_text(o.price);
        proof {
            assert(es[i as int] == eng_view(orders_view(feed@)[i as int]));
            assert(orders_view(feed@)[i as int] == feed@[i as int]@);
            assert(pt@ == spec_price_text(o.price));
            assert(pt@ == es[i as int].price_text);
            assert(is_engine_price_text(pt@));
            assert(crate::bytes::ascii_text(o.symbol@));
            assert(crate::bytes::ascii_text(o.cl_ord_id@));
        }
        engine_add_order(
            &mut eng,
            o.qty,
            &o.symbol,
            &pt,
            matches!(o.side, Side::Buy),
            matches!(o.order_type, OrderType::Limit),
            &o.cl_ord_id,
        );
        proof {
            assert(es.subrange(0, i + 1 as int) =~= es.subrange(0, i as int).push(es[i as int]));
            assert(engine_orders(eng) =~= es.subrange(0, i + 1 as int));
        }
        i += 1;
    }
    proof {
        assert(es.subrange(0, feed@.len() as int) =~= es);
    }
    let raw = match strategy {
        crate::strategy::Strategy::Fifo => engine_match_fifo(&mut eng),
        crate::strategy::Strategy::Prorata => engine_match_prorata(&mut eng),
    };
    let fills = engine_fills_out(&raw);
    let buy_rows = engine_book_rows(&eng, true);
    let sell_rows = engine_book_rows(&eng, false);
    let buys = match rebuild_side(&buy_rows, true) {
        Ok(v) => v,
        Err(e) => {
            return Err(e);
        },
    };
    let sells = match rebuild_side(&sell_rows, false) {
        Ok(v) => v,
        Err(e) => {
            return Err(e);
        },
    };
    Ok((crate::book::LiveOrderBook { buy_orders: buys, sell_orders: sells }, fills))
}

} // verus!
