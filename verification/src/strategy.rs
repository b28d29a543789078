//! The matching strategy selector: a closed set of recognized names, with
//! FIFO as the documented default for an absent or unrecognized name.

use vstd::prelude::*;

verus! {

/// The closed set of matching strategies the outside engine offers.
#[derive(Clone, Copy, PartialEq, Eq, Structural, Debug)]
pub enum Strategy {
    Fifo,
    Prorata,
}

/// The word "FIFO".
pub open spec fn fifo_word() -> Seq<u8> {
    seq![70, 73, 70, 79]
}

/// The word "PRORATA".
pub open spec fn prorata_word() -> Seq<u8> {
    seq![80, 82, 79, 82, 65, 84, 65]
}

/// The strategy a configured name selects: "FIFO" and "PRORATA" name their
/// matchers, any other or absent name falls back to the FIFO default.
pub open spec fn spec_select(algo: Option<Seq<u8>>) -> Strategy {
    match algo {
        None => Strategy::Fifo,
        Some(a) => if a == prorata_word() {
            Strategy::Prorata
        } else {
            Strategy::Fifo
        },
    }
}

/// Resolves the configured strategy name, read once per request by the
/// caller, to the matcher to run.
pub fn get_matcher(algo: Option<&Vec<u8>>) -> (r: Strategy)
    ensures
        r == spec_select(
            match algo {
                Some(a) => Some(a@),
                None => None::<Seq<u8>>,
            },
        ),
{
    match algo {
        None => Strategy::Fifo,
        Some(a) => {
            if a.len() == 7 && a[0] == 80 && a[1] == 82 && a[2] == 79 && a[3] == 82 && a[4] == 65
                && a[5] == 84 && a[6] == 65 {
                proof {
                    assert(a@ =~= prorata_word());
                }
                Strategy::Prorata
            } else {
                proof {
                    if a@ == prorata_word() {
                        assert(a@.len() == 7 && a@[0] == 80 && a@[1] == 82 && a@[2] == 79 && a@[3]
                            == 82 && a@[4] == 65 && a@[5] == 84 && a@[6] == 65);
                        assert(false);
                    }
                }
                Strategy::Fifo
            }
        },
    }
}

} // verus!
