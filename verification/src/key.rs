//! The key codec: a (symbol, price) identity rendered as one string token,
//! symbol and price joined by a separator the symbol itself must not hold,
//! and the reverse decoding, exact about every failure.

use vstd::prelude::*;

use crate::bytes::{DOT, SEP, copy_range, find_byte, lemma_find_absent, lemma_find_concat,
    spec_find};
use crate::errors::RequestError;
use crate::num::{all_digits, digits_val, is_digit, lemma_digits_text_free, lemma_u64_digits_fit,
    parse_u64_digits, spec_digits, spec_parse_u64, u64_to_digits};

verus! {

/// Mathematical model of a price-level identity.
#[verifier::ext_equal]
pub ghost struct IdV {
    pub symbol: Seq<u8>,
    pub price: u64,
}

/// Composite identity of a price level within one side of the book. The
/// price counts cents.
#[derive(Debug)]
pub struct OrderIdentity {
    pub symbol: Vec<u8>,
    pub price: u64,
}

impl View for OrderIdentity {
    type V = IdV;

    open spec fn view(&self) -> IdV {
        IdV { symbol: self.symbol@, price: self.price }
    }
}

impl OrderIdentity {
    /// A fresh identity with the same contents.
    pub fn dup(&self) -> (r: OrderIdentity)
        ensures
            r@ == self@,
    {
        OrderIdentity { symbol: crate::bytes::copy_bytes(&self.symbol), price: self.price }
    }
}

/// Textual rendering of a cent count: whole part always, then the shortest
/// fraction that loses nothing ("10", "10.5", "10.25").
pub open spec fn spec_price_text(cents: u64) -> Seq<u8> {
    let fr = cents % 100;
    if fr == 0 {
        spec_digits((cents / 100) as nat)
    } else if fr % 10 == 0 {
        spec_digits((cents / 100) as nat) + seq![DOT, (48 + fr / 10) as u8]
    } else {
        spec_digits((cents / 100) as nat) + seq![DOT, (48 + fr / 10) as u8, (48 + fr % 10) as u8]
    }
}

/// The cent count a price text stands for: a whole part, optionally a dot
/// and one or two fraction digits, rejected when the count would not fit.
pub open spec fn spec_parse_price(s: Seq<u8>) -> Option<u64> {
    match spec_find(s, DOT) {
        None => match spec_parse_u64(s) {
            Some(v) => if v * 100 <= u64::MAX {
                Some((v * 100) as u64)
            } else {
                None
            },
            None => None,
        },
        Some(i) => {
            let ip = s.subrange(0, i);
            let fp = s.subrange(i + 1, s.len() as int);
            match spec_parse_u64(ip) {
                Some(v) => if 1 <= fp.len() <= 2 && all_digits(fp) {
                    let fval = if fp.len() == 1 {
                        digits_val(fp) * 10
                    } else {
                        digits_val(fp)
                    };
                    if v * 100 + fval <= u64::MAX {
                        Some((v * 100 + fval) as u64)
                    } else {
                        None
                    }
                } else {
                    None
                },
                None => None,
            }
        },
    }
}

/// The one string token an identity encodes to.
pub open spec fn spec_encode_key(id: IdV) -> Seq<u8> {
    id.symbol + seq![SEP] + spec_price_text(id.price)
}

/// The identity an encoded key decodes to: exactly one separator, and a
/// parsable price after it.
pub open spec fn spec_decode_key(k: Seq<u8>) -> Option<IdV> {
    match spec_find(k, SEP) {
        None => None,
        Some(i) => {
            let sym = k.subrange(0, i);
            let rest = k.subrange(i + 1, k.len() as int);
            if spec_find(rest, SEP) is Some {
                None
            } else {
                match spec_parse_price(rest) {
                    Some(c) => Some(IdV { symbol: sym, price: c }),
                    None => None,
                }
            }
        },
    }
}

/// Price texts hold only digits and at most one dot: no separator, and none
/// of the document delimiters.
pub proof fn lemma_price_text_free(cents: u64)
    ensures
        forall|j: int|
            0 <= j < spec_price_text(cents).len() ==> #[trigger] spec_price_text(cents)[j] != SEP
                && spec_price_text(cents)[j] != crate::bytes::COMMA && spec_price_text(cents)[j]
                != crate::bytes::BAR && spec_price_text(cents)[j] != crate::bytes::NL,
{
    let ip = spec_digits((cents / 100) as nat);
    crate::num::lemma_digits_shape((cents / 100) as nat);
    lemma_digits_text_free(ip);
    let t = spec_price_text(cents);
    assert forall|j: int| 0 <= j < t.len() implies #[trigger] t[j] != SEP && t[j]
        != crate::bytes::COMMA && t[j] != crate::bytes::BAR && t[j] != crate::bytes::NL by {
        if j < ip.len() {
            assert(t[j] == ip[j]);
            assert(is_digit(ip[j]));
        } else if j == ip.len() {
            assert(t[j] == DOT);
        } else {
            assert(48 <= t[j] <= 57);
        }
    }
}

/// Price codec round trip: every cent count decodes back from its rendering.
pub proof fn lemma_price_round_trip(cents: u64)
    ensures
        spec_parse_price(spec_price_text(cents)) == Some(cents),
{
    let w = cents / 100;
    let fr = cents % 100;
    let ip = spec_digits(w as nat);
    lemma_u64_digits_fit(w as nat);
    lemma_digits_text_free(ip);
    if fr == 0 {
        lemma_find_absent(ip, DOT);
        assert(cents == w * 100);
    } else if fr % 10 == 0 {
        let d1 = (48 + fr / 10) as u8;
        let t = spec_price_text(cents);
        assert(t =~= ip + seq![DOT] + seq![d1]);
        lemma_find_concat(ip, seq![d1], DOT);
        let i = ip.len() as int;
        assert(t.subrange(0, i) =~= ip);
        let fp = t.subrange(i + 1, t.len() as int);
        assert(fp =~= seq![d1]);
        crate::num::lemma_digits_val_single(d1);
        assert(digits_val(fp) == fr / 10);
        assert(all_digits(fp));
        assert(w * 100 + (fr / 10) * 10 == cents);
    } else {
        let d1 = (48 + fr / 10) as u8;
        let d2 = (48 + fr % 10) as u8;
        let t = spec_price_text(cents);
        assert(t =~= ip + seq![DOT] + seq![d1, d2]);
        lemma_find_concat(ip, seq![d1, d2], DOT);
        let i = ip.len() as int;
        assert(t.subrange(0, i) =~= ip);
        let fp = t.subrange(i + 1, t.len() as int);
        assert(fp =~= seq![d1, d2]);
        crate::num::lemma_digits_val_pair(d1, d2);
        assert(digits_val(fp) == (fr / 10) * 10 + fr % 10);
        assert(all_digits(fp)) by {
            assert(fp[0] == d1 && fp[1] == d2);
        }
        assert(w * 100 + ((fr / 10) * 10 + fr % 10) == cents);
    }
}

/// The price rendering is injective: equal texts come from equal counts.
pub proof fn lemma_price_text_injective(a: u64, b: u64)
    requires
        spec_price_text(a) == spec_price_text(b),
    ensures
        a == b,
{
    lemma_price_round_trip(a);
    lemma_price_round_trip(b);
}

/// Key codec round trip: an identity whose symbol avoids the separator
/// decodes back from its encoded key.
pub proof fn lemma_key_round_trip(id: IdV)
    requires
        forall|j: int| 0 <= j < id.symbol.len() ==> id.symbol[j] != SEP,
    ensures
        spec_decode_key(spec_encode_key(id)) == Some(id),
{
    let pt = spec_price_text(id.price);
    let k = spec_encode_key(id);
    lemma_find_concat(id.symbol, pt, SEP);
    let i = id.symbol.len() as int;
    assert(k.subrange(0, i) =~= id.symbol);
    let rest = k.subrange(i + 1, k.len() as int);
    assert(rest =~= pt);
    lemma_price_text_free(id.price);
    lemma_find_absent(pt, SEP);
    lemma_price_round_trip(id.price);
    assert(spec_decode_key(k) == Some(IdV { symbol: k.subrange(0, i), price: id.price }));
    assert(IdV { symbol: k.subrange(0, i), price: id.price } =~= id);
}

/// Textual rendering of a cent count.
pub fn price_to_text(cents: u64) -> (r: Vec<u8>)
    ensures
        r@ == spec_price_text(cents),
{
    let fr = cents % 100;
    let mut r = u64_to_digits(cents / 100);
    let ghost ip = spec_digits((cents / 100) as nat);
    if fr == 0 {
    } else if fr % 10 == 0 {
        r.push(DOT);
        r.push(48 + (fr / 10) as u8);
        proof {
            assert(r@ =~= ip + seq![DOT, (48 + fr / 10) as u8]);
        }
    } else {
        r.push(DOT);
        r.push(48 + (fr / 10) as u8);
        r.push(48 + (fr % 10) as u8);
        proof {
            assert(r@ =~= ip + seq![DOT, (48 + fr / 10) as u8, (48 + fr % 10) as u8]);
        }
    }
    r
}

/// Parses `s[from..to]` as a price text.
pub fn parse_price(s: &Vec<u8>, from: usize, to: usize) -> (r: Option<u64>)
    requires
        from <= to <= s.len(),
    ensures
        r == spec_parse_price(s@.subrange(from as int, to as int)),
{
    let ghost w = s@.subrange(from as int, to as int);
    match find_byte(s, from, to, DOT) {
        None => {
            match parse_u64_digits(s, from, to) {
                Some(v) => {
                    if v <= u64::MAX / 100 {
                        proof {
                            assert(v * 100 <= u64::MAX);
                        }
                        Some(v * 100)
                    } else {
                        proof {
                            assert(v * 100 > u64::MAX);
                        }
                        None
                    }
                },
                None => None,
            }
        },
        Some(d) => {
            let ghost i = (d - from) as int;
            proof {
                crate::bytes::lemma_find_char(w, DOT);
                assert(spec_find(w, DOT) == Some(i));
                assert(0 <= i < w.len());
                assert(w.subrange(0, i) =~= s@.subrange(from as int, d as int));
                assert(w.subrange(i + 1, w.len() as int) =~= s@.subrange(d + 1 as int, to as int));
            }
            let ip = parse_u64_digits(s, from, d);
            match ip {
                Some(v) => {
                    let flen = to - (d + 1);
                    if flen < 1 || flen > 2 {
                        return None;
                    }
                    let ghost fp = w.subrange(i + 1, w.len() as int);
                    let f1 = s[d + 1];
                    if f1 < 48 || f1 > 57 {
                        proof {
                            assert(fp[0] == f1);
                        }
                        return None;
                    }
                    let mut fval: u64 = (f1 - 48) as u64;
                    if flen == 2 {
                        let f2 = s[d + 2];
                        if f2 < 48 || f2 > 57 {
                            proof {
                                assert(fp[1] == f2);
                            }
                            return None;
                        }
                        fval = fval * 10 + (f2 - 48) as u64;
                        proof {
                            assert(fp =~= seq![f1, f2]);
                            crate::num::lemma_digits_val_pair(f1, f2);
                            assert(all_digits(fp)) by {
                                assert(fp[0] == f1 && fp[1] == f2);
                            }
                            assert(digits_val(fp) == fval);
                        }
                    } else {
                        fval = fval * 10;
                        proof {
                            assert(fp =~= seq![f1]);
                            crate::num::lemma_digits_val_single(f1);
                            assert(all_digits(fp)) by {
                                assert(fp[0] == f1);
                            }
                            assert(digits_val(fp) * 10 == fval);
                        }
                    }
                    if v <= u64::MAX / 100 && fval <= u64::MAX - v * 100 {
                        proof {
                            assert(v * 100 + fval <= u64::MAX);
                        }
                        Some(v * 100 + fval)
                    } else {
                        proof {
                            assert(v * 100 + fval > u64::MAX);
                        }
                        None
                    }
                },
                None => None,
            }
        },
    }
}

/// Encodes an identity as its one string token.
pub fn encode(id: &OrderIdentity) -> (r: Vec<u8>)
    ensures
        r@ == spec_encode_key(id@),
{
    let mut r = crate::bytes::copy_bytes(&id.symbol);
    r.push(SEP);
    let pt = price_to_text(id.price);
    crate::bytes::push_bytes(&mut r, &pt);
    proof {
        assert(r@ =~= id@.symbol + seq![SEP] + spec_price_text(id.price));
    }
    r
}

/// Decodes a key token back to its identity, or reports exactly why not:
/// no separator at all, more than one separator-delimited suffix, or a
/// price that does not parse.
pub fn decode(k: &Vec<u8>) -> (r: Result<OrderIdentity, RequestError>)
    ensures
        match r {
            Ok(id) => spec_decode_key(k@) == Some(id@),
            Err(e) => e == RequestError::MalformedKey && spec_decode_key(k@) is None,
        },
{
    proof {
        assert(k@.subrange(0, k@.len() as int) =~= k@);
    }
    match find_byte(k, 0, k.len(), SEP) {
        None => Err(RequestError::MalformedKey),
        Some(i) => {
            proof {
                crate::bytes::lemma_find_char(k@, SEP);
            }
            match find_byte(k, i + 1, k.len(), SEP) {
                Some(_) => Err(RequestError::MalformedKey),
                None => {
                    match parse_price(k, i + 1, k.len()) {
                        Some(c) => Ok(
                            OrderIdentity { symbol: copy_range(k, 0, i), price: c },
                        ),
                        None => Err(RequestError::MalformedKey),
                    }
                },
            }
        },
    }
}

} // verus!
