//! The bid amount: a value type representationally identical to
//! `Amount` but kept nominally distinct, from which an `Amount` is made
//! by copying the count of cents verbatim.

use vstd::prelude::*;

verus! {

use vstd::std_specs::convert::FromSpec;
use crate::amount::Amount;

/// A bid, held as a signed count of hundredths (cents).
#[derive(Copy, Clone, Debug, Eq, Hash, PartialEq, Structural)]
pub struct BidAmount {
    pub as_int: i64,
}

impl BidAmount {
    /// The zero bid.
    pub fn new() -> (r: Self)
        ensures
            r.as_int == 0,
    {
        BidAmount { as_int: 0 }
    }
}

impl From<BidAmount> for Amount {
    fn from(item: BidAmount) -> (r: Amount) {
        Amount { as_int: item.as_int }
    }
}

impl vstd::std_specs::convert::FromSpecImpl<BidAmount> for Amount {
    open spec fn obeys_from_spec() -> bool {
        true
    }

    open spec fn from_spec(v: BidAmount) -> Amount {
        Amount { as_int: v.as_int }
    }
}

impl<'a> From<&'a BidAmount> for Amount {
    fn from(item: &'a BidAmount) -> (r: Amount) {
        Amount { as_int: item.as_int }
    }
}

impl<'a> vstd::std_specs::convert::FromSpecImpl<&'a BidAmount> for Amount {
    open spec fn obeys_from_spec() -> bool {
        true
    }

    open spec fn from_spec(v: &'a BidAmount) -> Amount {
        Amount { as_int: v.as_int }
    }
}

/// Converting a bid, by value or by reference, copies its count of
/// cents exactly; in particular a zero bid converts to the zero amount.
pub proof fn lemma_bid_conversion(b: BidAmount)
    ensures
        <Amount as FromSpec<BidAmount>>::from_spec(b) == (Amount { as_int: b.as_int }),
        <Amount as FromSpec<&BidAmount>>::from_spec(&b) == (Amount { as_int: b.as_int }),
        b.as_int == 0 ==> <Amount as FromSpec<BidAmount>>::from_spec(b) == (Amount {
            as_int: 0,
        }),
{
}

} // verus!
