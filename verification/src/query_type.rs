//! The DNS record types the resolver understands.

use vstd::prelude::*;

verus! {

/// A record type, round-tripping through its 16-bit wire code; any code
/// without a named variant is carried as `UNKNOWN`.
#[derive(Clone, Copy, Debug, PartialEq, Eq, Hash, Structural)]
pub enum QueryType {
    UNKNOWN(u16),
    A,
    NS,
    CNAME,
    MX,
    AAAA,
}

/// The wire code of a query type.
pub open spec fn qtype_num(q: QueryType) -> u16 {
    match q {
        QueryType::UNKNOWN(x) => x,
        QueryType::A => 1,
        QueryType::NS => 2,
        QueryType::CNAME => 5,
        QueryType::MX => 15,
        QueryType::AAAA => 28,
    }
}

/// The query type a wire code stands for.
pub open spec fn qtype_of_num(num: u16) -> QueryType {
    if num == 1 {
        QueryType::A
    } else if num == 2 {
        QueryType::NS
    } else if num == 5 {
        QueryType::CNAME
    } else if num == 15 {
        QueryType::MX
    } else if num == 28 {
        QueryType::AAAA
    } else {
        QueryType::UNKNOWN(num)
    }
}

/// Every wire code decodes to a type that encodes back to the same code.
pub proof fn lemma_qtype_num_round_trip(num: u16)
    ensures
        qtype_num(qtype_of_num(num)) == num,
{
}

impl QueryType {
    /// The 16-bit code of this type on the wire.
    pub fn to_num(&self) -> (r: u16)
        ensures
            r == qtype_num(*self),
    {
        match self {
            QueryType::UNKNOWN(x) => *x,
            QueryType::A => 1,
            QueryType::NS => 2,
            QueryType::CNAME => 5,
            QueryType::MX => 15,
            QueryType::AAAA => 28,
        }
    }

    /// The type a 16-bit wire code stands for.
    pub fn from_num(num: u16) -> (r: QueryType)
        ensures
            r == qtype_of_num(num),
    {
        match num {
            1 => QueryType::A,
            2 => QueryType::NS,
            5 => QueryType::CNAME,
            15 => QueryType::MX,
            28 => QueryType::AAAA,
            _ => QueryType::UNKNOWN(num),
        }
    }
}

} // verus!
