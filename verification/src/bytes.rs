//! Byte-level helpers shared by the codecs: delimiter constants, a first
//! occurrence search, and small verified building blocks for byte vectors.

use vstd::prelude::*;

verus! {

/// Field separator inside one serialized resting-order record.
pub const COMMA: u8 = 44;

/// Separator between the records of one price level line.
pub const BAR: u8 = 124;

/// Line terminator of the snapshot document.
pub const NL: u8 = 10;

/// Separator between symbol and price inside an encoded key.
pub const SEP: u8 = 95;

/// Decimal point inside a textual price rendering.
pub const DOT: u8 = 46;

/// Text that may be embedded verbatim in the snapshot document: free of the
/// three document delimiters.
pub open spec fn text_free(s: Seq<u8>) -> bool {
    forall|i: int| 0 <= i < s.len() ==> #[trigger] s[i] != COMMA && s[i] != BAR && s[i] != NL
}

/// Text within the seven-bit range. Such bytes pass through a UTF-8 string
/// conversion unchanged, one byte one character, so two distinct texts stay
/// distinct on the far side of it.
pub open spec fn ascii_text(s: Seq<u8>) -> bool {
    forall|i: int| 0 <= i < s.len() ==> (#[trigger] s[i]) < 128
}

/// Index of the first occurrence of `d` in `s`, if any.
pub open spec fn spec_find(s: Seq<u8>, d: u8) -> Option<int>
    decreases s.len(),
{
    if s.len() == 0 {
        None
    } else if s[0] == d {
        Some(0)
    } else {
        match spec_find(s.drop_first(), d) {
            Some(i) => Some(i + 1),
            None => None,
        }
    }
}

pub proof fn lemma_find_char(s: Seq<u8>, d: u8)
    ensures
        match spec_find(s, d) {
            None => forall|j: int| 0 <= j < s.len() ==> s[j] != d,
            Some(i) => 0 <= i < s.len() && s[i] == d && (forall|j: int| 0 <= j < i ==> s[j] != d),
        },
    decreases s.len(),
{
    if s.len() != 0 && s[0] != d {
        let t = s.drop_first();
        lemma_find_char(t, d);
        match spec_find(t, d) {
            None => {
                assert forall|j: int| 0 <= j < s.len() implies s[j] != d by {
                    if j > 0 {
                        assert(t[j - 1] == s[j]);
                    }
                }
            },
            Some(i) => {
                assert(s[i + 1] == t[i]);
                assert forall|j: int| 0 <= j < i + 1 implies s[j] != d by {
                    if j > 0 {
                        assert(t[j - 1] == s[j]);
                    }
                }
            },
        }
    }
}

pub proof fn lemma_find_at(s: Seq<u8>, d: u8, i: int)
    requires
        0 <= i < s.len(),
        s[i] == d,
        forall|j: int| 0 <= j < i ==> s[j] != d,
    ensures
        spec_find(s, d) == Some(i),
{
    lemma_find_char(s, d);
    match spec_find(s, d) {
        None => {
            assert(false);
        },
        Some(k) => {
            if k < i {
                assert(s[k] != d);
            } else if k > i {
                assert(s[i] != d);
            }
        },
    }
}

pub proof fn lemma_find_concat(a: Seq<u8>, b: Seq<u8>, d: u8)
    requires
        forall|j: int| 0 <= j < a.len() ==> a[j] != d,
    ensures
        spec_find(a + seq![d] + b, d) == Some(a.len() as int),
{
    let s = a + seq![d] + b;
    assert(s[a.len() as int] == d);
    assert forall|j: int| 0 <= j < a.len() as int implies s[j] != d by {
        assert(s[j] == a[j]);
    }
    lemma_find_at(s, d, a.len() as int);
}

pub proof fn lemma_find_absent(s: Seq<u8>, d: u8)
    requires
        forall|j: int| 0 <= j < s.len() ==> s[j] != d,
    ensures
        spec_find(s, d) is None,
{
    lemma_find_char(s, d);
    match spec_find(s, d) {
        None => {},
        Some(i) => {
            assert(s[i] != d);
        },
    }
}

/// First occurrence of `d` within `s[from..to]`, reported as an absolute index.
pub fn find_byte(s: &Vec<u8>, from: usize, to: usize, d: u8) -> (r: Option<usize>)
    requires
        from <= to <= s.len(),
    ensures
        match spec_find(s@.subrange(from as int, to as int), d) {
            None => r is None,
            Some(i) => r == Some((from + i) as usize),
        },
{
    let ghost w = s@.subrange(from as int, to as int);
    let mut i: usize = from;
    while i < to
        invariant
            from <= i <= to <= s.len(),
            w == s@.subrange(from as int, to as int),
            forall|j: int| from <= j < i ==> s@[j] != d,
        decreases to - i,
    {
        if s[i] == d {
            proof {
                assert(w[i - from] == d);
                assert(forall|j: int| 0 <= j < i - from ==> w[j] == s@[j + from] && w[j] != d);
                lemma_find_at(w, d, i - from);
            }
            return Some(i);
        }
        i += 1;
    }
    proof {
        assert(forall|j: int| 0 <= j < w.len() ==> w[j] == s@[j + from] && w[j] != d);
        lemma_find_absent(w, d);
    }
    None
}

/// A fresh byte vector with the same contents.
pub fn copy_bytes(v: &Vec<u8>) -> (r: Vec<u8>)
    ensures
        r@ == v@,
{
    let mut r: Vec<u8> = Vec::new();
    let mut i: usize = 0;
    while i < v.len()
        invariant
            i <= v.len(),
            r@ == v@.subrange(0, i as int),
        decreases v.len() - i,
    {
        r.push(v[i]);
        proof {
            assert(v@.subrange(0, i + 1 as int) =~= v@.subrange(0, i as int).push(v@[i as int]));
        }
        i += 1;
    }
    proof {
        assert(r@ =~= v@);
    }
    r
}

/// A fresh byte vector holding `v[from..to]`.
pub fn copy_range(v: &Vec<u8>, from: usize, to: usize) -> (r: Vec<u8>)
    requires
        from <= to <= v.len(),
    ensures
        r@ == v@.subrange(from as int, to as int),
{
    let mut r: Vec<u8> = Vec::new();
    let mut i: usize = from;
    while i < to
        invariant
            from <= i <= to <= v.len(),
            r@ == v@.subrange(from as int, i as int),
        decreases to - i,
    {
        r.push(v[i]);
        proof {
            assert(v@.subrange(from as int, i + 1 as int) =~= v@.subrange(
                from as int,
                i as int,
            ).push(v@[i as int]));
        }
        i += 1;
    }
    r
}

/// Byte-wise equality of two vectors.
pub fn bytes_eq(a: &Vec<u8>, b: &Vec<u8>) -> (r: bool)
    ensures
        r == (a@ == b@),
{
    if a.len() != b.len() {
        return false;
    }
    let mut i: usize = 0;
    while i < a.len()
        invariant
            i <= a.len(),
            a.len() == b.len(),
            forall|j: int| 0 <= j < i ==> a@[j] == b@[j],
        decreases a.len() - i,
    {
        if a[i] != b[i] {
            return false;
        }
        i += 1;
    }
    proof {
        assert(a@ =~= b@);
    }
    true
}

/// Appends all of `src` to `dst`.
pub fn push_bytes(dst: &mut Vec<u8>, src: &Vec<u8>)
    ensures
        final(dst)@ == old(dst)@ + src@,
{
    let ghost base = dst@;
    let mut i: usize = 0;
    while i < src.len()
        invariant
            i <= src.len(),
            dst@ == base + src@.subrange(0, i as int),
        decreases src.len() - i,
    {
        dst.push(src[i]);
        proof {
            assert(base + src@.subrange(0, i + 1 as int) =~= (base + src@.subrange(
                0,
                i as int,
            )).push(src@[i as int]));
        }
        i += 1;
    }
    proof {
        assert(base + src@.subrange(0, src@.len() as int) =~= base + src@);
    }
}

} // verus!
