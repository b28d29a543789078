//! Batch order entry: a payload of text lines, one order per line in the
//! form `<cl_ord_id> <symbol> <qty> <price> <side>`, inserted into the book
//! in payload order before one match-and-persist cycle runs. Lines that do
//! not fit the form, or whose text the snapshot document could not carry,
//! are skipped, as the engine's own reader skips orders it finds invalid.

use vstd::prelude::*;

use crate::book::{BookV, spec_insert};
use crate::bytes::{NL, copy_range, find_byte, lemma_find_char, spec_find};
use crate::engine::run_match;
use crate::errors::RequestError;
use crate::key::{parse_price, spec_parse_price};
use crate::num::{parse_u32_digits, spec_parse_u32};
use crate::order::{OrderType, OrderV, RestingOrder, Side, spec_side_of};
use crate::orchestrator::{RequestOutcome, get_order_book_from_file, spec_hydrated};
use crate::store::{persist_order_book, spec_load};
use crate::strategy::Strategy;

verus! {

/// The field separator of an order line.
pub const SP: u8 = 32;

/// The carriage return stripped from a line's tail.
pub const CR: u8 = 13;

/// The order one payload line stands for: exactly five space-separated
/// fields — client order id, symbol, quantity, price, side — a limit
/// order always, with `Buy` for the side word "Buy" and `Sell` otherwise.
pub open spec fn spec_parse_order_line(l: Seq<u8>) -> Option<OrderV> {
    match spec_find(l, SP) {
        None => None,
        Some(i1) => {
            let id = l.subrange(0, i1);
            let r1 = l.subrange(i1 + 1, l.len() as int);
            match spec_find(r1, SP) {
                None => None,
                Some(i2) => {
                    let sym = r1.subrange(0, i2);
                    let r2 = r1.subrange(i2 + 1, r1.len() as int);
                    match spec_find(r2, SP) {
                        None => None,
                        Some(i3) => {
                            let qs = r2.subrange(0, i3);
                            let r3 = r2.subrange(i3 + 1, r2.len() as int);
                            match spec_find(r3, SP) {
                                None => None,
                                Some(i4) => {
                                    let ps = r3.subrange(0, i4);
                                    let sd = r3.subrange(i4 + 1, r3.len() as int);
                                    if spec_find(sd, SP) is Some || !crate::bytes::text_free(
                                        sym,
                                    ) || (exists|j: int|
                                        0 <= j < sym.len() && #[trigger] sym[j]
                                            == crate::bytes::SEP) || !crate::bytes::text_free(
                                        id,
                                    ) {
                                        None
                                    } else {
                                        match (spec_parse_u32(qs), spec_parse_price(ps)) {
                                            (Some(q), Some(p)) => Some(
                                                OrderV {
                                                    qty: q,
                                                    symbol: sym,
                                                    price: p,
                                                    side: spec_side_of(sd),
                                                    order_type: OrderType::Limit,
                                                    cl_ord_id: id,
                                                },
                                            ),
                                            _ => None,
                                        }
                                    }
                                },
                            }
                        },
                    }
                },
            }
        },
    }
}

/// A line with its trailing carriage returns stripped.
pub open spec fn spec_trim_cr(l: Seq<u8>) -> Seq<u8>
    decreases l.len(),
{
    if l.len() > 0 && l.last() == CR {
        spec_trim_cr(l.drop_last())
    } else {
        l
    }
}

pub open spec fn spec_line_orders(l: Seq<u8>) -> Seq<OrderV> {
    match spec_parse_order_line(spec_trim_cr(l)) {
        Some(o) => seq![o],
        None => Seq::empty(),
    }
}

/// The orders of a whole payload, line by line, in payload order.
pub open spec fn spec_upload_orders(p: Seq<u8>) -> Seq<OrderV>
    decreases p.len(),
{
    if p.len() == 0 {
        Seq::empty()
    } else {
        match spec_find(p, NL) {
            None => spec_line_orders(p),
            Some(i) => if 0 <= i < p.len() {
                spec_line_orders(p.subrange(0, i)) + spec_upload_orders(
                    p.subrange(i + 1, p.len() as int),
                )
            } else {
                Seq::empty()
            },
        }
    }
}

/// The book after a batch of orders arrives, in order.
pub open spec fn spec_insert_all(b: BookV, os: Seq<OrderV>) -> BookV
    decreases os.len(),
{
    if os.len() == 0 {
        b
    } else {
        spec_insert_all(spec_insert(b, os[0]), os.drop_first())
    }
}

pub proof fn lemma_insert_all_push(b: BookV, os: Seq<OrderV>, o: OrderV)
    ensures
        spec_insert_all(b, os.push(o)) == spec_insert(spec_insert_all(b, os), o),
    decreases os.len(),
{
    if os.len() == 0 {
        assert(os.push(o)[0] == o);
        assert(os.push(o).drop_first() =~= Seq::<OrderV>::empty());
        assert(spec_insert_all(b, os) == b);
        assert(spec_insert_all(spec_insert(b, o), Seq::<OrderV>::empty()) == spec_insert(b, o));
    } else {
        assert(os.push(o)[0] == os[0]);
        assert(os.push(o).drop_first() =~= os.drop_first().push(o));
        lemma_insert_all_push(spec_insert(b, os[0]), os.drop_first(), o);
    }
}

/// Parses one order line standing in `s[from..to]`.
#[verifier::rlimit(100)]
fn parse_order_line(s: &Vec<u8>, from: usize, to: usize) -> (r: Option<RestingOrder>)
    requires
        from <= to <= s.len(),
    ensures
        match r {
            Some(o) => spec_parse_order_line(s@.subrange(from as int, to as int)) == Some(o@),
            None => spec_parse_order_line(s@.subrange(from as int, to as int)) is None,
        },
{
    let ghost l = s@.subrange(from as int, to as int);
    let c1 = match find_byte(s, from, to, SP) {
        None => {
            return None;
        },
        Some(x) => x,
    };
    proof {
        lemma_find_char(l, SP);
        assert(l.subrange(0, c1 - from) =~= s@.subrange(from as int, c1 as int));
        assert(l.subrange(c1 - from + 1, l.len() as int) =~= s@.subrange(c1 + 1 as int, to as int));
    }
    let ghost r1 = l.subrange(c1 - from + 1, l.len() as int);
    let c2 = match find_byte(s, c1 + 1, to, SP) {
        None => {
            return None;
        },
        Some(x) => x,
    };
    proof {
        lemma_find_char(r1, SP);
        assert(r1.subrange(0, c2 - c1 - 1) =~= s@.subrange(c1 + 1 as int, c2 as int));
        assert(r1.subrange(c2 - c1, r1.len() as int) =~= s@.subrange(c2 + 1 as int, to as int));
    }
    let ghost r2 = r1.subrange(c2 - c1, r1.len() as int);
    let c3 = match find_byte(s, c2 + 1, to, SP) {
        None => {
            return None;
        },
        Some(x) => x,
    };
    proof {
        lemma_find_char(r2, SP);
        assert(r2.subrange(0, c3 - c2 - 1) =~= s@.subrange(c2 + 1 as int, c3 as int));
        assert(r2.subrange(c3 - c2, r2.len() as int) =~= s@.subrange(c3 + 1 as int, to as int));
    }
    let ghost r3 = r2.subrange(c3 - c2, r2.len() as int);
    let c4 = match find_byte(s, c3 + 1, to, SP) {
        None => {
            return None;
        },
        Some(x) => x,
    };
    proof {
        lemma_find_char(r3, SP);
        assert(r3.subrange(0, c4 - c3 - 1) =~= s@.subrange(c3 + 1 as int, c4 as int));
        assert(r3.subrange(c4 - c3, r3.len() as int) =~= s@.subrange(c4 + 1 as int, to as int));
    }
    if find_byte(s, c4 + 1, to, SP).is_some() {
        return None;
    }
    let sym_text = copy_range(s, c1 + 1, c2);
    let id_text = copy_range(s, from, c1);
    if !crate::engine::check_text_free(&sym_text) || !crate::engine::check_text_free(&id_text) {
        return None;
    }
    let sep_ok = crate::engine::check_sep_free(&sym_text);
    if !sep_ok {
        proof {
            let sym = s@.subrange(c1 + 1 as int, c2 as int);
            assert(exists|j: int| 0 <= j < sym.len() && #[trigger] sym[j] == crate::bytes::SEP)
                by {
                let j = choose|j: int| 0 <= j < sym_text@.len() && sym_text@[j]
                    == crate::bytes::SEP;
                assert(sym[j] == crate::bytes::SEP);
            }
        }
        return None;
    }
    let q = match parse_u32_digits(s, c2 + 1, c3) {
        None => {
            return None;
        },
        Some(x) => x,
    };
    let p = match parse_price(s, c3 + 1, c4) {
        None => {
            return None;
        },
        Some(x) => x,
    };
    let side_text = copy_range(s, c4 + 1, to);
    let o = RestingOrder {
        qty: q,
        symbol: copy_range(s, c1 + 1, c2),
        price: p,
        side: Side::from(&side_text),
        order_type: OrderType::Limit,
        cl_ord_id: copy_range(s, from, c1),
    };
    proof {
        assert(spec_parse_order_line(l).unwrap() =~= o@);
    }
    Some(o)
}

/// Strips trailing carriage returns: the end of the trimmed window.
fn trim_end(s: &Vec<u8>, from: usize, to: usize) -> (r: usize)
    requires
        from <= to <= s.len(),
    ensures
        from <= r <= to,
        s@.subrange(from as int, r as int) == spec_trim_cr(s@.subrange(from as int, to as int)),
{
    let mut e = to;
    while e > from && s[e - 1] == CR
        invariant
            from <= e <= to <= s.len(),
            spec_trim_cr(s@.subrange(from as int, e as int)) == spec_trim_cr(
                s@.subrange(from as int, to as int),
            ),
        decreases e,
    {
        proof {
            assert(s@.subrange(from as int, e as int).last() == s@[e - 1]);
            assert(s@.subrange(from as int, e as int).drop_last() =~= s@.subrange(
                from as int,
                e - 1 as int,
            ));
        }
        e -= 1;
    }
    proof {
        let w = s@.subrange(from as int, e as int);
        if w.len() > 0 {
            assert(w.last() == s@[e - 1]);
        }
        assert(spec_trim_cr(w) == w);
    }
    e
}

/// Collects the orders of a payload, line by line; unparsable lines are
/// skipped.
fn collect_orders(s: &Vec<u8>, from: usize, out: &mut Vec<RestingOrder>)
    requires
        from <= s.len(),
    ensures
        crate::book::orders_view(final(out)@) == crate::book::orders_view(old(out)@)
            + spec_upload_orders(s@.subrange(from as int, s@.len() as int)),
    decreases s.len() - from,
{
    let ghost p = s@.subrange(from as int, s@.len() as int);
    let ghost base = crate::book::orders_view(out@);
    if from == s.len() {
        proof {
            assert(p =~= Seq::<u8>::empty());
            assert(crate::book::orders_view(out@) =~= base + spec_upload_orders(p));
        }
        return ;
    }
    match find_byte(s, from, s.len(), NL) {
        None => {
            let e = trim_end(s, from, s.len());
            match parse_order_line(s, from, e) {
                Some(o) => {
                    let ghost ov = o@;
                    let ghost prev = crate::book::orders_view(out@);
                    out.push(o);
                    proof {
                        assert(crate::book::orders_view(out@) =~= prev.push(ov));
                        assert(crate::book::orders_view(out@) =~= base + spec_upload_orders(p));
                    }
                },
                None => {
                    proof {
                        assert(crate::book::orders_view(out@) =~= base + spec_upload_orders(p));
                    }
                },
            }
        },
        Some(i) => {
            proof {
                lemma_find_char(p, NL);
                assert(p.subrange(0, i - from) =~= s@.subrange(from as int, i as int));
                assert(p.subrange(i - from + 1, p.len() as int) =~= s@.subrange(
                    i + 1 as int,
                    s@.len() as int,
                ));
            }
            let e = trim_end(s, from, i);
            match parse_order_line(s, from, e) {
                Some(o) => {
                    let ghost ov = o@;
                    let ghost prev = crate::book::orders_view(out@);
                    out.push(o);
                    proof {
                        assert(crate::book::orders_view(out@) =~= prev.push(ov));
                        assert(crate::book::orders_view(out@) =~= base + spec_line_orders(
                            p.subrange(0, i - from),
                        ));
                    }
                },
                None => {
                    proof {
                        assert(crate::book::orders_view(out@) =~= base + spec_line_orders(
                            p.subrange(0, i - from),
                        ));
                    }
                },
            }
            collect_orders(s, i + 1, out);
            proof {
                assert(crate::book::orders_view(out@) =~= base + spec_upload_orders(p));
            }
        },
    }
}

/// Batch order entry: every order of the payload joins the loaded book in
/// payload order, then one match-and-persist cycle runs, exactly as for a
/// single submission.
pub fn upload(content: Option<&Vec<u8>>, payload: &Vec<u8>, strategy: Strategy) -> (r: Result<
    RequestOutcome,
    RequestError,
>)
    ensures
        ({
            let cv = match content {
                Some(c) => Some(c@),
                None => None::<Seq<u8>>,
            };
            let fed = crate::engine::eng_seq(
                crate::engine::spec_flatten(
                    spec_insert_all(
                        spec_hydrated(spec_load(cv).unwrap(), None).unwrap(),
                        spec_upload_orders(payload@),
                    ),
                ),
            );
            match r {
                Ok(out) => {
                    &&& spec_load(cv) is Ok
                    &&& match spec_hydrated(spec_load(cv).unwrap(), None) {
                        Some(b) => out.pre_match@ == spec_insert_all(
                            b,
                            spec_upload_orders(payload@),
                        ),
                        None => false,
                    }
                    &&& crate::engine::strategy_safe(fed, strategy is Prorata)
                    &&& crate::book::wf_book(out.book@)
                    &&& out.content@ == crate::doc::spec_doc_text(
                        crate::book::spec_to_snapshot(out.book@),
                    )
                },
                Err(e) => {
                    ||| (e == RequestError::CorruptState && spec_load(cv) == Err::<
                        crate::book::SnapV,
                        RequestError,
                    >(RequestError::CorruptState))
                    ||| (e == RequestError::MalformedKey && spec_load(cv) is Ok && spec_hydrated(
                        spec_load(cv).unwrap(),
                        None,
                    ) is None)
                    ||| (e == RequestError::EngineUnsafe && spec_load(cv) is Ok && spec_hydrated(
                        spec_load(cv).unwrap(),
                        None,
                    ) is Some && !crate::engine::strategy_safe(fed, strategy is Prorata))
                    ||| (e == RequestError::MatcherState && spec_load(cv) is Ok && spec_hydrated(
                        spec_load(cv).unwrap(),
                        None,
                    ) is Some && crate::engine::strategy_safe(fed, strategy is Prorata))
                },
            }
        }),
{
    let mut book = match get_order_book_from_file(content, None) {
        Ok(b) => b,
        Err(e) => {
            return Err(e);
        },
    };
    let ghost b0 = book@;
    let mut orders: Vec<RestingOrder> = Vec::new();
    proof {
        assert(payload@.subrange(0, payload@.len() as int) =~= payload@);
        assert(crate::book::orders_view(Seq::<RestingOrder>::empty()) =~= Seq::<OrderV>::empty());
    }
    collect_orders(payload, 0, &mut orders);
    let ghost ovs = crate::book::orders_view(orders@);
    proof {
        assert(Seq::<OrderV>::empty() + spec_upload_orders(payload@) =~= spec_upload_orders(
            payload@,
        ));
    }
    let mut i: usize = 0;
    while i < orders.len()
        invariant
            i <= orders.len(),
            ovs == crate::book::orders_view(orders@),
            book@ == spec_insert_all(b0, ovs.subrange(0, i as int)),
        decreases orders.len() - i,
    {
        book.add_order_to_order_book(orders[i].dup());
        proof {
            assert(ovs.subrange(0, i + 1 as int) =~= ovs.subrange(0, i as int).push(
                ovs[i as int],
            ));
            assert(orders@[i as int]@ == ovs[i as int]);
            lemma_insert_all_push(b0, ovs.subrange(0, i as int), ovs[i as int]);
        }
        i += 1;
    }
    proof {
        assert(ovs.subrange(0, ovs.len() as int) =~= ovs);
    }
    let ghost pre = book@;
    let (matched, fills) = match run_match(&book, strategy) {
        Ok(p) => p,
        Err(e) => {
            return Err(e);
        },
    };
    let snap = crate::book::OB::from(&matched);
    let bytes = persist_order_book(&snap);
    Ok(RequestOutcome { book: matched, fills, content: bytes, pre_match: Ghost(pre) })
}

} // verus!
