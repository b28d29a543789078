//! The snapshot document codec: a structured text rendering of the two
//! string-keyed mappings of a snapshot, one price level per line, and the
//! parser back, with the round trip proved.
//!
//! Line grammar: a side marker, the encoded key, and the level's resting
//! orders, fields joined by bars; inside an order record the quantity,
//! symbol, price in cents, side word, kind word and client order id are
//! joined by commas.

use vstd::prelude::*;

use crate::book::{OB, SnapSideV, SnapV, snap_side_view, orders_view, wf_order};
use crate::bytes::{BAR, COMMA, NL, copy_range, find_byte, lemma_find_absent, lemma_find_char,
    lemma_find_concat, push_bytes, spec_find, text_free};
use crate::num::{spec_digits, spec_parse_u32, spec_parse_u64, lemma_u64_digits_fit,
    lemma_digits_text_free, parse_u32_digits, parse_u64_digits, u64_to_digits};
use crate::order::{OrderType, OrderV, RestingOrder, Side, buy_word, limit_word, market_word,
    sell_word};

verus! {

/// Marker byte of a buy-side line.
pub const BUY_MARK: u8 = 66;

/// Marker byte of a sell-side line.
pub const SELL_MARK: u8 = 83;

/// One serialized resting-order record.
pub open spec fn spec_order_text(o: OrderV) -> Seq<u8> {
    spec_digits(o.qty as nat) + seq![COMMA] + o.symbol + seq![COMMA] + spec_digits(o.price as nat)
        + seq![COMMA] + o.side.spec_word() + seq![COMMA] + o.order_type.spec_word() + seq![COMMA]
        + o.cl_ord_id
}

/// The records of one level, joined by bars.
pub open spec fn spec_orders_text(os: Seq<OrderV>) -> Seq<u8>
    decreases os.len(),
{
    if os.len() == 0 {
        Seq::empty()
    } else if os.len() == 1 {
        spec_order_text(os[0])
    } else {
        spec_order_text(os[0]) + seq![BAR] + spec_orders_text(os.drop_first())
    }
}

/// One level line without its terminator.
pub open spec fn spec_line_body(marker: u8, key: Seq<u8>, os: Seq<OrderV>) -> Seq<u8> {
    seq![marker, BAR] + key + seq![BAR] + spec_orders_text(os)
}

/// The lines of one snapshot side, each terminated.
pub open spec fn spec_side_lines(marker: u8, side: SnapSideV) -> Seq<u8>
    decreases side.len(),
{
    if side.len() == 0 {
        Seq::empty()
    } else {
        spec_line_body(marker, side[0].0, side[0].1) + seq![NL] + spec_side_lines(
            marker,
            side.drop_first(),
        )
    }
}

/// The whole document: buy lines, then sell lines.
pub open spec fn spec_doc_text(s: SnapV) -> Seq<u8> {
    spec_side_lines(BUY_MARK, s.buys) + spec_side_lines(SELL_MARK, s.sells)
}

/// The side a record's side field names, if it is one of the two words.
pub open spec fn spec_read_side(w: Seq<u8>) -> Option<Side> {
    if w == buy_word() {
        Some(Side::Buy)
    } else if w == sell_word() {
        Some(Side::Sell)
    } else {
        None
    }
}

/// The kind a record's kind field names, if it is one of the two words.
pub open spec fn spec_read_kind(w: Seq<u8>) -> Option<OrderType> {
    if w == limit_word() {
        Some(OrderType::Limit)
    } else if w == market_word() {
        Some(OrderType::Market)
    } else {
        None
    }
}

/// Parses one resting-order record.
pub open spec fn spec_parse_order(t: Seq<u8>) -> Option<OrderV> {
    match spec_find(t, COMMA) {
        None => None,
        Some(i1) => {
            let qs = t.subrange(0, i1);
            let r1 = t.subrange(i1 + 1, t.len() as int);
            match (spec_parse_u32(qs), spec_find(r1, COMMA)) {
                (Some(q), Some(i2)) => {
                    let sym = r1.subrange(0, i2);
                    let r2 = r1.subrange(i2 + 1, r1.len() as int);
                    match spec_find(r2, COMMA) {
                        None => None,
                        Some(i3) => {
                            let ps = r2.subrange(0, i3);
                            let r3 = r2.subrange(i3 + 1, r2.len() as int);
                            match (spec_parse_u64(ps), spec_find(r3, COMMA)) {
                                (Some(p), Some(i4)) => {
                                    let sw = r3.subrange(0, i4);
                                    let r4 = r3.subrange(i4 + 1, r3.len() as int);
                                    match spec_find(r4, COMMA) {
                                        None => None,
                                        Some(i5) => {
                                            let kw = r4.subrange(0, i5);
                                            let id = r4.subrange(i5 + 1, r4.len() as int);
                                            match (spec_read_side(sw), spec_read_kind(kw)) {
                                                (Some(sd), Some(kd)) => Some(
                                                    OrderV {
                                                        qty: q,
                                                        symbol: sym,
                                                        price: p,
                                                        side: sd,
                                                        order_type: kd,
                                                        cl_ord_id: id,
                                                    },
                                                ),
                                                _ => None,
                                            }
                                        },
                                    }
                                },
                                _ => None,
                            }
                        },
                    }
                },
                _ => None,
            }
        },
    }
}

/// Parses the bar-joined records of one level: at least one.
pub open spec fn spec_parse_orders(t: Seq<u8>) -> Option<Seq<OrderV>>
    decreases t.len(),
{
    match spec_find(t, BAR) {
        None => match spec_parse_order(t) {
            Some(o) => Some(seq![o]),
            None => None,
        },
        Some(i) => if 0 <= i < t.len() {
            match spec_parse_order(t.subrange(0, i)) {
                Some(o) => match spec_parse_orders(t.subrange(i + 1, t.len() as int)) {
                    Some(rest) => Some(seq![o] + rest),
                    None => None,
                },
                None => None,
            }
        } else {
            None
        },
    }
}

/// Parses one level line body: marker, bar, key, bar, records.
pub open spec fn spec_parse_line(l: Seq<u8>) -> Option<(bool, Seq<u8>, Seq<OrderV>)> {
    if l.len() >= 2 && (l[0] == BUY_MARK || l[0] == SELL_MARK) && l[1] == BAR {
        let rest = l.subrange(2, l.len() as int);
        match spec_find(rest, BAR) {
            None => None,
            Some(j) => if 0 <= j < rest.len() {
                let key = rest.subrange(0, j);
                match spec_parse_orders(rest.subrange(j + 1, rest.len() as int)) {
                    Some(os) => Some((l[0] == BUY_MARK, key, os)),
                    None => None,
                }
            } else {
                None
            },
        }
    } else {
        None
    }
}

/// Some later level of this side already stands under the key.
pub open spec fn key_taken(side: SnapSideV, key: Seq<u8>) -> bool {
    exists|k: int| 0 <= k < side.len() && (#[trigger] side[k]).0 == key
}

/// Parses a whole document; the empty text is the empty snapshot, and a
/// key that re-appears on one side makes the document no snapshot at all:
/// each side is a mapping, one level per key.
pub open spec fn spec_parse_doc(c: Seq<u8>) -> Option<SnapV>
    decreases c.len(),
{
    if c.len() == 0 {
        Some(SnapV { buys: Seq::empty(), sells: Seq::empty() })
    } else {
        match spec_find(c, NL) {
            None => None,
            Some(i) => if 0 <= i < c.len() {
                match spec_parse_line(c.subrange(0, i)) {
                    Some(lv) => match spec_parse_doc(c.subrange(i + 1, c.len() as int)) {
                        Some(rest) => if lv.0 {
                            if key_taken(rest.buys, lv.1) {
                                None
                            } else {
                                Some(
                                    SnapV {
                                        buys: seq![(lv.1, lv.2)] + rest.buys,
                                        sells: rest.sells,
                                    },
                                )
                            }
                        } else {
                            if key_taken(rest.sells, lv.1) {
                                None
                            } else {
                                Some(
                                    SnapV {
                                        buys: rest.buys,
                                        sells: seq![(lv.1, lv.2)] + rest.sells,
                                    },
                                )
                            }
                        },
                        None => None,
                    },
                    None => None,
                }
            } else {
                None
            },
        }
    }
}

/// A snapshot level fit for the document: a delimiter-free key and a
/// nonempty queue of document-safe orders.
pub open spec fn wf_snap_level(p: (Seq<u8>, Seq<OrderV>)) -> bool {
    &&& text_free(p.0)
    &&& p.1.len() >= 1
    &&& forall|j: int| 0 <= j < p.1.len() ==> wf_order(#[trigger] p.1[j])
}

pub open spec fn wf_snap_side(s: SnapSideV) -> bool {
    &&& forall|i: int| 0 <= i < s.len() ==> wf_snap_level(#[trigger] s[i])
    &&& forall|i: int, j: int| 0 <= i < j < s.len() ==> (#[trigger] s[i]).0 != (#[trigger] s[j]).0
}

/// A snapshot that can stand in the document and come back unchanged.
pub open spec fn wf_snap(s: SnapV) -> bool {
    wf_snap_side(s.buys) && wf_snap_side(s.sells)
}

/// The snapshot of a well-formed live book is itself well formed: its keys
/// are encodings of delimiter-free identities, its levels are untouched.
pub proof fn lemma_wf_snap_of_book(b: crate::book::BookV)
    requires
        crate::book::wf_book(b),
    ensures
        wf_snap(crate::book::spec_to_snapshot(b)),
{
    lemma_wf_snap_side(b.buys);
    lemma_wf_snap_side(b.sells);
}

proof fn lemma_wf_snap_side(side: crate::book::BookSideV)
    requires
        crate::book::wf_book_side(side),
    ensures
        wf_snap_side(crate::book::spec_snap_of_side(side)),
{
    let snap = crate::book::spec_snap_of_side(side);
    assert forall|a: int, b: int| 0 <= a < b < snap.len() implies (#[trigger] snap[a]).0 != (
    #[trigger] snap[b]).0 by {
        assert(crate::book::wf_book_level(side[a]));
        assert(crate::book::wf_book_level(side[b]));
        assert(side[a].0 != side[b].0);
        if snap[a].0 == snap[b].0 {
            crate::key::lemma_key_round_trip(side[a].0);
            crate::key::lemma_key_round_trip(side[b].0);
            assert(crate::key::spec_decode_key(snap[a].0) == Some(side[a].0));
            assert(crate::key::spec_decode_key(snap[b].0) == Some(side[b].0));
            assert(false);
        }
    }
    assert forall|i: int| 0 <= i < snap.len() implies wf_snap_level(#[trigger] snap[i]) by {
        assert(crate::book::wf_book_level(side[i]));
        let id = side[i].0;
        let k = crate::key::spec_encode_key(id);
        crate::key::lemma_price_text_free(id.price);
        let pt = crate::key::spec_price_text(id.price);
        assert forall|j: int| 0 <= j < k.len() implies #[trigger] k[j] != COMMA && k[j] != BAR
            && k[j] != NL by {
            if j < id.symbol.len() {
                assert(k[j] == id.symbol[j]);
            } else if j == id.symbol.len() {
                assert(k[j] == crate::bytes::SEP);
            } else {
                assert(k[j] == pt[j - id.symbol.len() - 1]);
            }
        }
        assert(snap[i] == (k, side[i].1));
    }
}

/// The four side and kind words hold no delimiter.
pub proof fn lemma_words_free()
    ensures
        text_free(buy_word()),
        text_free(sell_word()),
        text_free(limit_word()),
        text_free(market_word()),
{
    assert forall|j: int| 0 <= j < buy_word().len() implies #[trigger] buy_word()[j] != COMMA
        && buy_word()[j] != BAR && buy_word()[j] != NL by {
        assert(buy_word()[0] == 66 && buy_word()[1] == 117 && buy_word()[2] == 121);
    }
    assert forall|j: int| 0 <= j < sell_word().len() implies #[trigger] sell_word()[j] != COMMA
        && sell_word()[j] != BAR && sell_word()[j] != NL by {
        assert(sell_word()[0] == 83 && sell_word()[1] == 101 && sell_word()[2] == 108
            && sell_word()[3] == 108);
    }
    assert forall|j: int| 0 <= j < limit_word().len() implies #[trigger] limit_word()[j] != COMMA
        && limit_word()[j] != BAR && limit_word()[j] != NL by {
        assert(limit_word()[0] == 76 && limit_word()[1] == 105 && limit_word()[2] == 109
            && limit_word()[3] == 105 && limit_word()[4] == 116);
    }
    assert forall|j: int| 0 <= j < market_word().len() implies #[trigger] market_word()[j] != COMMA
        && market_word()[j] != BAR && market_word()[j] != NL by {
        assert(market_word()[0] == 77 && market_word()[1] == 97 && market_word()[2] == 114
            && market_word()[3] == 107 && market_word()[4] == 101 && market_word()[5] == 116);
    }
}

/// A record's rendering holds no bar and no terminator.
pub proof fn lemma_order_text_free(o: OrderV)
    requires
        wf_order(o),
    ensures
        forall|j: int|
            0 <= j < spec_order_text(o).len() ==> #[trigger] spec_order_text(o)[j] != BAR
                && spec_order_text(o)[j] != NL,
{
    lemma_words_free();
    crate::num::lemma_digits_shape(o.qty as nat);
    crate::num::lemma_digits_shape(o.price as nat);
    lemma_digits_text_free(spec_digits(o.qty as nat));
    lemma_digits_text_free(spec_digits(o.price as nat));
    let t = spec_order_text(o);
    let qd = spec_digits(o.qty as nat);
    let pd = spec_digits(o.price as nat);
    let sw = o.side.spec_word();
    let kw = o.order_type.spec_word();
    assert forall|j: int| 0 <= j < t.len() implies #[trigger] t[j] != BAR && t[j] != NL by {
        let a = qd.len() as int;
        let b = a + 1 + o.symbol.len();
        let c = b + 1 + pd.len();
        let d = c + 1 + sw.len();
        let e = d + 1 + kw.len();
        if j < a {
            assert(t[j] == qd[j]);
        } else if j == a {
            assert(t[j] == COMMA);
        } else if j < b {
            assert(t[j] == o.symbol[j - a - 1]);
        } else if j == b {
            assert(t[j] == COMMA);
        } else if j < c {
            assert(t[j] == pd[j - b - 1]);
        } else if j == c {
            assert(t[j] == COMMA);
        } else if j < d {
            assert(t[j] == sw[j - c - 1]);
        } else if j == d {
            assert(t[j] == COMMA);
        } else if j < e {
            assert(t[j] == kw[j - d - 1]);
        } else if j == e {
            assert(t[j] == COMMA);
        } else {
            assert(t[j] == o.cl_ord_id[j - e - 1]);
        }
    }
}

/// Splitting a comma-joined pair recovers both parts.
pub proof fn lemma_field_split(a: Seq<u8>, b: Seq<u8>)
    requires
        forall|j: int| 0 <= j < a.len() ==> a[j] != COMMA,
    ensures
        spec_find(a + seq![COMMA] + b, COMMA) == Some(a.len() as int),
        (a + seq![COMMA] + b).subrange(0, a.len() as int) == a,
        (a + seq![COMMA] + b).subrange(a.len() as int + 1, (a + seq![COMMA] + b).len() as int)
            == b,
{
    let t = a + seq![COMMA] + b;
    lemma_find_concat(a, b, COMMA);
    assert(t.subrange(0, a.len() as int) =~= a);
    assert(t.subrange(a.len() as int + 1, t.len() as int) =~= b);
}

/// A record parses back from its rendering.
#[verifier::rlimit(100)]
#[verifier::spinoff_prover]
pub proof fn lemma_order_round_trip(o: OrderV)
    requires
        wf_order(o),
    ensures
        spec_parse_order(spec_order_text(o)) == Some(o),
{
    lemma_words_free();
    lemma_u64_digits_fit(o.qty as nat);
    lemma_u64_digits_fit(o.price as nat);
    let qd = spec_digits(o.qty as nat);
    let pd = spec_digits(o.price as nat);
    let sw = o.side.spec_word();
    let kw = o.order_type.spec_word();
    lemma_digits_text_free(qd);
    lemma_digits_text_free(pd);
    let t = spec_order_text(o);
    let r4v = kw + seq![COMMA] + o.cl_ord_id;
    let r3v = sw + seq![COMMA] + r4v;
    let r2v = pd + seq![COMMA] + r3v;
    let r1v = o.symbol + seq![COMMA] + r2v;
    assert(t =~= qd + seq![COMMA] + r1v);
    lemma_field_split(qd, r1v);
    lemma_field_split(o.symbol, r2v);
    lemma_field_split(pd, r3v);
    lemma_field_split(sw, r4v);
    lemma_field_split(kw, o.cl_ord_id);
    assert(spec_read_side(sw) == Some(o.side)) by {
        if o.side == Side::Sell {
            assert(sw != buy_word());
        }
    }
    assert(spec_read_kind(kw) == Some(o.order_type)) by {
        if o.order_type == OrderType::Market {
            assert(kw != limit_word());
        }
    }
    assert(spec_parse_order(t).unwrap() =~= o);
}

/// A level's records parse back from their joined rendering, which holds
/// no terminator.
pub proof fn lemma_orders_round_trip(os: Seq<OrderV>)
    requires
        os.len() >= 1,
        forall|j: int| 0 <= j < os.len() ==> wf_order(#[trigger] os[j]),
    ensures
        spec_parse_orders(spec_orders_text(os)) == Some(os),
        forall|j: int|
            0 <= j < spec_orders_text(os).len() ==> #[trigger] spec_orders_text(os)[j] != NL,
    decreases os.len(),
{
    lemma_order_text_free(os[0]);
    let t = spec_orders_text(os);
    if os.len() == 1 {
        lemma_find_absent(t, BAR);
        lemma_order_round_trip(os[0]);
        assert(Some(seq![os[0]]) is Some);
        assert(seq![os[0]] =~= os);
    } else {
        let ot0 = spec_order_text(os[0]);
        let restv = spec_orders_text(os.drop_first());
        assert(t =~= ot0 + seq![BAR] + restv);
        lemma_find_concat(ot0, restv, BAR);
        let i = ot0.len() as int;
        assert(t.subrange(0, i) =~= ot0);
        assert(t.subrange(i + 1, t.len() as int) =~= restv);
        lemma_order_round_trip(os[0]);
        assert forall|j: int| 0 <= j < os.drop_first().len() implies wf_order(
            #[trigger] os.drop_first()[j],
        ) by {
            assert(os.drop_first()[j] == os[j + 1]);
        }
        lemma_orders_round_trip(os.drop_first());
        assert(seq![os[0]] + os.drop_first() =~= os);
        assert forall|j: int| 0 <= j < t.len() implies #[trigger] t[j] != NL by {
            if j < i {
                assert(t[j] == ot0[j]);
            } else if j > i {
                assert(t[j] == restv[j - i - 1]);
            }
        }
    }
}

/// The lines of both sides parse back to the snapshot they render.
#[verifier::rlimit(100)]
pub proof fn lemma_sides_round_trip(marker: u8, side: SnapSideV, tail: Seq<u8>, tailsnap: SnapV)
    requires
        marker == BUY_MARK || marker == SELL_MARK,
        wf_snap_side(side),
        spec_parse_doc(tail) == Some(tailsnap),
        marker == BUY_MARK ==> tailsnap.buys.len() == 0,
        marker == SELL_MARK ==> tailsnap.sells.len() == 0,
    ensures
        marker == BUY_MARK ==> spec_parse_doc(spec_side_lines(marker, side) + tail) == Some(
            SnapV { buys: side + tailsnap.buys, sells: tailsnap.sells },
        ),
        marker == SELL_MARK ==> spec_parse_doc(spec_side_lines(marker, side) + tail) == Some(
            SnapV { buys: tailsnap.buys, sells: side + tailsnap.sells },
        ),
    decreases side.len(),
{
    if side.len() == 0 {
        assert(spec_side_lines(marker, side) + tail =~= tail);
        assert(Seq::<(Seq<u8>, Seq<OrderV>)>::empty() + tailsnap.buys =~= tailsnap.buys);
        assert(Seq::<(Seq<u8>, Seq<OrderV>)>::empty() + tailsnap.sells =~= tailsnap.sells);
        assert(SnapV { buys: side + tailsnap.buys, sells: tailsnap.sells } =~= tailsnap);
        assert(SnapV { buys: tailsnap.buys, sells: side + tailsnap.sells } =~= tailsnap);
    } else {
        let key = side[0].0;
        let os = side[0].1;
        assert(wf_snap_level(side[0]));
        let lb = spec_line_body(marker, key, os);
        let ot = spec_orders_text(os);
        lemma_orders_round_trip(os);
        let rest_lines = spec_side_lines(marker, side.drop_first());
        let c = spec_side_lines(marker, side) + tail;
        assert(c =~= lb + seq![NL] + (rest_lines + tail));
        assert forall|j: int| 0 <= j < lb.len() implies lb[j] != NL by {
            if j >= 2 + key.len() + 1 {
                assert(lb[j] == ot[j - 2 - key.len() - 1]);
            } else if j >= 2 && j < 2 + key.len() {
                assert(lb[j] == key[j - 2]);
            }
        }
        lemma_find_concat(lb, rest_lines + tail, NL);
        let i = lb.len() as int;
        assert(c.subrange(0, i) =~= lb);
        assert(c.subrange(i + 1, c.len() as int) =~= rest_lines + tail);
        // the line body parses to this level
        assert(lb[0] == marker && lb[1] == BAR);
        let lrest = lb.subrange(2, lb.len() as int);
        assert(lrest =~= key + seq![BAR] + ot);
        lemma_find_concat(key, ot, BAR);
        assert(lrest.subrange(0, key.len() as int) =~= key);
        assert(lrest.subrange(key.len() as int + 1, lrest.len() as int) =~= ot);
        assert(spec_parse_line(lb) == Some((marker == BUY_MARK, key, os)));
        assert forall|j: int| 0 <= j < side.drop_first().len() implies wf_snap_level(
            #[trigger] side.drop_first()[j],
        ) by {
            assert(side.drop_first()[j] == side[j + 1]);
        }
        assert forall|a: int, b: int|
            0 <= a < b < side.drop_first().len() implies (#[trigger] side.drop_first()[a]).0 != (
        #[trigger] side.drop_first()[b]).0 by {
            assert(side.drop_first()[a] == side[a + 1]);
            assert(side.drop_first()[b] == side[b + 1]);
        }
        assert forall|j: int|
            0 <= j < side.drop_first().len() && 0 <= j implies (#[trigger] side.drop_first()[
            j
        ]).0 != key by {
            assert(side.drop_first()[j] == side[j + 1]);
            assert(side[0].0 != side[j + 1].0);
        }
        lemma_sides_round_trip(marker, side.drop_first(), tail, tailsnap);
        if marker == BUY_MARK {
            let restbuys = side.drop_first() + tailsnap.buys;
            assert(!key_taken(restbuys, key)) by {
                if key_taken(restbuys, key) {
                    let k = choose|k: int| 0 <= k < restbuys.len() && restbuys[k].0 == key;
                    assert(restbuys[k] == side.drop_first()[k]);
                }
            }
            assert(seq![(key, os)] + (side.drop_first() + tailsnap.buys) =~= side
                + tailsnap.buys);
        } else {
            let restsells = side.drop_first() + tailsnap.sells;
            assert(!key_taken(restsells, key)) by {
                if key_taken(restsells, key) {
                    let k = choose|k: int| 0 <= k < restsells.len() && restsells[k].0 == key;
                    assert(restsells[k] == side.drop_first()[k]);
                }
            }
            assert(seq![(key, os)] + (side.drop_first() + tailsnap.sells) =~= side
                + tailsnap.sells);
        }
    }
}

/// The textual rendering of a side.
fn side_word(s: Side) -> (r: Vec<u8>)
    ensures
        r@ == s.spec_word(),
{
    let mut r: Vec<u8> = Vec::new();
    match s {
        Side::Buy => {
            r.push(66);
            r.push(117);
            r.push(121);
            proof {
                assert(r@ =~= buy_word());
            }
        },
        Side::Sell => {
            r.push(83);
            r.push(101);
            r.push(108);
            r.push(108);
            proof {
                assert(r@ =~= sell_word());
            }
        },
    }
    r
}

/// The textual rendering of an order kind.
fn kind_word(k: OrderType) -> (r: Vec<u8>)
    ensures
        r@ == k.spec_word(),
{
    let mut r: Vec<u8> = Vec::new();
    match k {
        OrderType::Limit => {
            r.push(76);
            r.push(105);
            r.push(109);
            r.push(105);
            r.push(116);
            proof {
                assert(r@ =~= limit_word());
            }
        },
        OrderType::Market => {
            r.push(77);
            r.push(97);
            r.push(114);
            r.push(107);
            r.push(101);
            r.push(116);
            proof {
                assert(r@ =~= market_word());
            }
        },
    }
    r
}

/// Appends one record's rendering.
fn write_order(dst: &mut Vec<u8>, o: &RestingOrder)
    ensures
        final(dst)@ == old(dst)@ + spec_order_text(o@),
{
    let qd = u64_to_digits(o.qty as u64);
    push_bytes(dst, &qd);
    dst.push(COMMA);
    push_bytes(dst, &o.symbol);
    dst.push(COMMA);
    let pd = u64_to_digits(o.price);
    push_bytes(dst, &pd);
    dst.push(COMMA);
    let sw = side_word(o.side);
    push_bytes(dst, &sw);
    dst.push(COMMA);
    let kw = kind_word(o.order_type);
    push_bytes(dst, &kw);
    dst.push(COMMA);
    push_bytes(dst, &o.cl_ord_id);
    proof {
        assert(dst@ =~= old(dst)@ + spec_order_text(o@));
    }
}

/// Appends the bar-joined records of one level, from `from` on.
fn write_orders(dst: &mut Vec<u8>, lev: &Vec<RestingOrder>, from: usize)
    requires
        from <= lev.len(),
    ensures
        final(dst)@ == old(dst)@ + spec_orders_text(
            orders_view(lev@).subrange(from as int, lev@.len() as int),
        ),
    decreases lev.len() - from,
{
    let ghost ov = orders_view(lev@);
    let ghost w = ov.subrange(from as int, lev@.len() as int);
    if from >= lev.len() {
        proof {
            assert(w =~= Seq::<OrderV>::empty());
            assert(dst@ =~= dst@ + spec_orders_text(w));
        }
        return ;
    }
    write_order(dst, &lev[from]);
    proof {
        assert(w[0] == ov[from as int]);
        assert(ov[from as int] == lev@[from as int]@);
    }
    if from + 1 < lev.len() {
        dst.push(BAR);
        write_orders(dst, lev, from + 1);
        proof {
            assert(w.drop_first() =~= ov.subrange(from + 1 as int, lev@.len() as int));
            assert(dst@ =~= old(dst)@ + spec_orders_text(w));
        }
    } else {
        proof {
            assert(w.len() == 1);
            assert(dst@ =~= old(dst)@ + spec_orders_text(w));
        }
    }
}

/// Appends the lines of one side, from `from` on.
fn write_side(dst: &mut Vec<u8>, marker: u8, side: &Vec<(Vec<u8>, Vec<RestingOrder>)>, from: usize)
    requires
        from <= side.len(),
    ensures
        final(dst)@ == old(dst)@ + spec_side_lines(
            marker,
            snap_side_view(side@).subrange(from as int, side@.len() as int),
        ),
    decreases side.len() - from,
{
    let ghost sv = snap_side_view(side@);
    let ghost w = sv.subrange(from as int, side@.len() as int);
    if from >= side.len() {
        proof {
            assert(w =~= Seq::<(Seq<u8>, Seq<OrderV>)>::empty());
            assert(dst@ =~= dst@ + spec_side_lines(marker, w));
        }
        return ;
    }
    dst.push(marker);
    dst.push(BAR);
    push_bytes(dst, &side[from].0);
    dst.push(BAR);
    write_orders(dst, &side[from].1, 0);
    dst.push(NL);
    write_side(dst, marker, side, from + 1);
    proof {
        assert(w[0] == sv[from as int]);
        assert(sv[from as int] == (side@[from as int].0@, orders_view(side@[from as int].1@)));
        assert(orders_view(side@[from as int].1@).subrange(
            0,
            side@[from as int].1@.len() as int,
        ) =~= orders_view(side@[from as int].1@));
        assert(w.drop_first() =~= sv.subrange(from + 1 as int, side@.len() as int));
        assert(dst@ =~= old(dst)@ + spec_side_lines(marker, w));
    }
}

/// The full document rendering of a snapshot.
pub fn doc_bytes(ob: &OB) -> (r: Vec<u8>)
    ensures
        r@ == spec_doc_text(ob@),
{
    let mut r: Vec<u8> = Vec::new();
    write_side(&mut r, BUY_MARK, &ob.buy_orders, 0);
    write_side(&mut r, SELL_MARK, &ob.sell_orders, 0);
    proof {
        assert(snap_side_view(ob.buy_orders@).subrange(
            0,
            ob.buy_orders@.len() as int,
        ) =~= snap_side_view(ob.buy_orders@));
        assert(snap_side_view(ob.sell_orders@).subrange(
            0,
            ob.sell_orders@.len() as int,
        ) =~= snap_side_view(ob.sell_orders@));
        assert(r@ =~= spec_doc_text(ob@));
    }
    r
}

/// Reads a record's side field.
fn read_side_word(s: &Vec<u8>, from: usize, to: usize) -> (r: Option<Side>)
    requires
        from <= to <= s.len(),
    ensures
        r == spec_read_side(s@.subrange(from as int, to as int)),
{
    let ghost w = s@.subrange(from as int, to as int);
    if to - from == 3 && s[from] == 66 && s[from + 1] == 117 && s[from + 2] == 121 {
        proof {
            assert(w =~= buy_word());
        }
        Some(Side::Buy)
    } else if to - from == 4 && s[from] == 83 && s[from + 1] == 101 && s[from + 2] == 108 && s[from
        + 3] == 108 {
        proof {
            assert(w =~= sell_word());
            assert(w != buy_word());
        }
        Some(Side::Sell)
    } else {
        proof {
            if w == buy_word() {
                assert(w.len() == 3 && w[0] == 66 && w[1] == 117 && w[2] == 121);
                assert(false);
            }
            if w == sell_word() {
                assert(w.len() == 4 && w[0] == 83 && w[1] == 101 && w[2] == 108 && w[3] == 108);
                assert(false);
            }
        }
        None
    }
}

/// Reads a record's kind field.
fn read_kind_word(s: &Vec<u8>, from: usize, to: usize) -> (r: Option<OrderType>)
    requires
        from <= to <= s.len(),
    ensures
        r == spec_read_kind(s@.subrange(from as int, to as int)),
{
    let ghost w = s@.subrange(from as int, to as int);
    if to - from == 5 && s[from] == 76 && s[from + 1] == 105 && s[from + 2] == 109 && s[from + 3]
        == 105 && s[from + 4] == 116 {
        proof {
            assert(w =~= limit_word());
        }
        Some(OrderType::Limit)
    } else if to - from == 6 && s[from] == 77 && s[from + 1] == 97 && s[from + 2] == 114 && s[from
        + 3] == 107 && s[from + 4] == 101 && s[from + 5] == 116 {
        proof {
            assert(w =~= market_word());
            assert(w != limit_word());
        }
        Some(OrderType::Market)
    } else {
        proof {
            if w == limit_word() {
                assert(w.len() == 5 && w[0] == 76 && w[1] == 105 && w[2] == 109 && w[3] == 105
                    && w[4] == 116);
                assert(false);
            }
            if w == market_word() {
                assert(w.len() == 6 && w[0] == 77 && w[1] == 97 && w[2] == 114 && w[3] == 107
                    && w[4] == 101 && w[5] == 116);
                assert(false);
            }
        }
        None
    }
}

/// Parses one record standing in `s[from..to]`.
#[verifier::rlimit(100)]
fn parse_order_range(s: &Vec<u8>, from: usize, to: usize) -> (r: Option<RestingOrder>)
    requires
        from <= to <= s.len(),
    ensures
        match r {
            Some(o) => spec_parse_order(s@.subrange(from as int, to as int)) == Some(o@),
            None => spec_parse_order(s@.subrange(from as int, to as int)) is None,
        },
{
    let ghost t = s@.subrange(from as int, to as int);
    let c1 = match find_byte(s, from, to, COMMA) {
        None => {
            return None;
        },
        Some(x) => x,
    };
    proof {
        lemma_find_char(t, COMMA);
        assert(t.subrange(0, c1 - from) =~= s@.subrange(from as int, c1 as int));
        assert(t.subrange(c1 - from + 1, t.len() as int) =~= s@.subrange(c1 + 1 as int, to as int));
    }
    let ghost r1 = t.subrange(c1 - from + 1, t.len() as int);
    let q = match parse_u32_digits(s, from, c1) {
        None => {
            return None;
        },
        Some(x) => x,
    };
    let c2 = match find_byte(s, c1 + 1, to, COMMA) {
        None => {
            return None;
        },
        Some(x) => x,
    };
    proof {
        lemma_find_char(r1, COMMA);
        assert(r1.subrange(0, c2 - c1 - 1) =~= s@.subrange(c1 + 1 as int, c2 as int));
        assert(r1.subrange(c2 - c1, r1.len() as int) =~= s@.subrange(c2 + 1 as int, to as int));
    }
    let ghost r2 = r1.subrange(c2 - c1, r1.len() as int);
    let c3 = match find_byte(s, c2 + 1, to, COMMA) {
        None => {
            return None;
        },
        Some(x) => x,
    };
    proof {
        lemma_find_char(r2, COMMA);
        assert(r2.subrange(0, c3 - c2 - 1) =~= s@.subrange(c2 + 1 as int, c3 as int));
        assert(r2.subrange(c3 - c2, r2.len() as int) =~= s@.subrange(c3 + 1 as int, to as int));
    }
    let ghost r3 = r2.subrange(c3 - c2, r2.len() as int);
    let p = match parse_u64_digits(s, c2 + 1, c3) {
        None => {
            return None;
        },
        Some(x) => x,
    };
    let c4 = match find_byte(s, c3 + 1, to, COMMA) {
        None => {
            return None;
        },
        Some(x) => x,
    };
    proof {
        lemma_find_char(r3, COMMA);
        assert(r3.subrange(0, c4 - c3 - 1) =~= s@.subrange(c3 + 1 as int, c4 as int));
        assert(r3.subrange(c4 - c3, r3.len() as int) =~= s@.subrange(c4 + 1 as int, to as int));
    }
    let ghost r4 = r3.subrange(c4 - c3, r3.len() as int);
    let sd = match read_side_word(s, c3 + 1, c4) {
        None => {
            return None;
        },
        Some(x) => x,
    };
    let c5 = match find_byte(s, c4 + 1, to, COMMA) {
        None => {
            return None;
        },
        Some(x) => x,
    };
    proof {
        lemma_find_char(r4, COMMA);
        assert(r4.subrange(0, c5 - c4 - 1) =~= s@.subrange(c4 + 1 as int, c5 as int));
        assert(r4.subrange(c5 - c4, r4.len() as int) =~= s@.subrange(c5 + 1 as int, to as int));
    }
    let kd = match read_kind_word(s, c4 + 1, c5) {
        None => {
            return None;
        },
        Some(x) => x,
    };
    let o = RestingOrder {
        qty: q,
        symbol: copy_range(s, c1 + 1, c2),
        price: p,
        side: sd,
        order_type: kd,
        cl_ord_id: copy_range(s, c5 + 1, to),
    };
    proof {
        assert(spec_parse_order(t).unwrap() =~= o@);
    }
    Some(o)
}

/// Parses the records of one level standing in `s[from..to]`.
fn parse_orders_range(s: &Vec<u8>, from: usize, to: usize) -> (r: Option<Vec<RestingOrder>>)
    requires
        from <= to <= s.len(),
    ensures
        match r {
            Some(v) => spec_parse_orders(s@.subrange(from as int, to as int)) == Some(
                orders_view(v@),
            ),
            None => spec_parse_orders(s@.subrange(from as int, to as int)) is None,
        },
    decreases to - from,
{
    let ghost t = s@.subrange(from as int, to as int);
    match find_byte(s, from, to, BAR) {
        None => {
            match parse_order_range(s, from, to) {
                None => None,
                Some(o) => {
                    let ghost ov = o@;
                    let mut v: Vec<RestingOrder> = Vec::new();
                    v.push(o);
                    proof {
                        assert(orders_view(v@) =~= seq![ov]);
                    }
                    Some(v)
                },
            }
        },
        Some(b) => {
            proof {
                lemma_find_char(t, BAR);
                assert(t.subrange(0, b - from) =~= s@.subrange(from as int, b as int));
                assert(t.subrange(b - from + 1, t.len() as int) =~= s@.subrange(
                    b + 1 as int,
                    to as int,
                ));
            }
            let o = match parse_order_range(s, from, b) {
                None => {
                    return None;
                },
                Some(x) => x,
            };
            let mut rest = match parse_orders_range(s, b + 1, to) {
                None => {
                    return None;
                },
                Some(x) => x,
            };
            let ghost ov = o@;
            let ghost rv = orders_view(rest@);
            rest.insert(0, o);
            proof {
                assert(orders_view(rest@) =~= seq![ov] + rv);
            }
            Some(rest)
        },
    }
}

/// Parses one line body standing in `s[from..to]`.
fn parse_line_range(s: &Vec<u8>, from: usize, to: usize) -> (r: Option<
    (bool, Vec<u8>, Vec<RestingOrder>),
>)
    requires
        from <= to <= s.len(),
    ensures
        match r {
            Some(lv) => spec_parse_line(s@.subrange(from as int, to as int)) == Some(
                (lv.0, lv.1@, orders_view(lv.2@)),
            ),
            None => spec_parse_line(s@.subrange(from as int, to as int)) is None,
        },
{
    let ghost l = s@.subrange(from as int, to as int);
    if to - from < 2 {
        return None;
    }
    let m = s[from];
    if !(m == BUY_MARK || m == SELL_MARK) || s[from + 1] != BAR {
        return None;
    }
    proof {
        assert(l[0] == m && l[1] == BAR);
        assert(l.subrange(2, l.len() as int) =~= s@.subrange(from + 2 as int, to as int));
    }
    let ghost rest = l.subrange(2, l.len() as int);
    let b = match find_byte(s, from + 2, to, BAR) {
        None => {
            return None;
        },
        Some(x) => x,
    };
    proof {
        lemma_find_char(rest, BAR);
        assert(rest.subrange(0, b - from - 2) =~= s@.subrange(from + 2 as int, b as int));
        assert(rest.subrange(b - from - 1, rest.len() as int) =~= s@.subrange(
            b + 1 as int,
            to as int,
        ));
    }
    let os = match parse_orders_range(s, b + 1, to) {
        None => {
            return None;
        },
        Some(x) => x,
    };
    let key = copy_range(s, from + 2, b);
    Some((m == BUY_MARK, key, os))
}

/// Parses the document standing in `s[from..]`.
fn parse_doc_from(s: &Vec<u8>, from: usize) -> (r: Option<OB>)
    requires
        from <= s.len(),
    ensures
        match r {
            Some(ob) => spec_parse_doc(s@.subrange(from as int, s@.len() as int)) == Some(ob@),
            None => spec_parse_doc(s@.subrange(from as int, s@.len() as int)) is None,
        },
    decreases s.len() - from,
{
    let ghost c = s@.subrange(from as int, s@.len() as int);
    if from == s.len() {
        proof {
            assert(c =~= Seq::<u8>::empty());
        }
        let ob = OB::empty();
        proof {
            assert(ob@ =~= SnapV { buys: Seq::empty(), sells: Seq::empty() });
        }
        return Some(ob);
    }
    let i = match find_byte(s, from, s.len(), NL) {
        None => {
            return None;
        },
        Some(x) => x,
    };
    proof {
        lemma_find_char(c, NL);
        assert(c.subrange(0, i - from) =~= s@.subrange(from as int, i as int));
        assert(c.subrange(i - from + 1, c.len() as int) =~= s@.subrange(
            i + 1 as int,
            s@.len() as int,
        ));
    }
    let lv = match parse_line_range(s, from, i) {
        None => {
            return None;
        },
        Some(x) => x,
    };
    let mut rest = match parse_doc_from(s, i + 1) {
        None => {
            return None;
        },
        Some(x) => x,
    };
    let (is_buy, key, lev) = lv;
    let ghost kv = key@;
    let ghost lvv = orders_view(lev@);
    let ghost rv = rest@;
    if is_buy {
        if side_has_key(&rest.buy_orders, &key) {
            return None;
        }
        rest.buy_orders.insert(0, (key, lev));
        proof {
            assert(snap_side_view(rest.buy_orders@) =~= seq![(kv, lvv)] + rv.buys);
            assert(rest@ =~= SnapV { buys: seq![(kv, lvv)] + rv.buys, sells: rv.sells });
        }
    } else {
        if side_has_key(&rest.sell_orders, &key) {
            return None;
        }
        rest.sell_orders.insert(0, (key, lev));
        proof {
            assert(snap_side_view(rest.sell_orders@) =~= seq![(kv, lvv)] + rv.sells);
            assert(rest@ =~= SnapV { buys: rv.buys, sells: seq![(kv, lvv)] + rv.sells });
        }
    }
    Some(rest)
}

/// Whether some level of this side already stands under the key.
fn side_has_key(side: &Vec<(Vec<u8>, Vec<RestingOrder>)>, key: &Vec<u8>) -> (r: bool)
    ensures
        r == key_taken(snap_side_view(side@), key@),
{
    let ghost sv = snap_side_view(side@);
    let mut i: usize = 0;
    while i < side.len()
        invariant
            i <= side.len(),
            sv == snap_side_view(side@),
            forall|j: int| 0 <= j < i ==> (#[trigger] sv[j]).0 != key@,
        decreases side.len() - i,
    {
        proof {
            assert(sv[i as int] == (side@[i as int].0@, orders_view(side@[i as int].1@)));
        }
        if crate::bytes::bytes_eq(&side[i].0, key) {
            proof {
                assert(sv[i as int].0 == key@);
            }
            return true;
        }
        i += 1;
    }
    proof {
        if key_taken(sv, key@) {
            let k = choose|k: int| 0 <= k < sv.len() && sv[k].0 == key@;
            assert(sv[k].0 != key@);
        }
    }
    false
}

/// Parses a whole snapshot document; the empty text is the empty snapshot.
pub fn parse_doc(content: &Vec<u8>) -> (r: Option<OB>)
    ensures
        match r {
            Some(ob) => spec_parse_doc(content@) == Some(ob@),
            None => spec_parse_doc(content@) is None,
        },
{
    proof {
        assert(content@.subrange(0, content@.len() as int) =~= content@);
    }
    parse_doc_from(content, 0)
}

/// Document round trip: a well-formed snapshot parses back unchanged from
/// its rendering.
pub proof fn lemma_doc_round_trip(s: SnapV)
    requires
        wf_snap(s),
    ensures
        spec_parse_doc(spec_doc_text(s)) == Some(s),
{
    let empty = SnapV { buys: Seq::empty(), sells: Seq::empty() };
    assert(spec_parse_doc(Seq::empty()) == Some(empty));
    lemma_sides_round_trip(SELL_MARK, s.sells, Seq::empty(), empty);
    let stext = spec_side_lines(SELL_MARK, s.sells);
    let after_sells = SnapV { buys: empty.buys, sells: s.sells + empty.sells };
    assert(stext + Seq::<u8>::empty() =~= stext);
    assert(after_sells.sells =~= s.sells);
    lemma_sides_round_trip(BUY_MARK, s.buys, stext, after_sells);
    assert(s.buys + after_sells.buys =~= s.buys);
    assert(spec_parse_doc(spec_doc_text(s)).unwrap() =~= s);
}

} // verus!
