//! The 16-bit record/query-type wire enumeration, with an opaque fallback
//! variant that preserves unrecognized type codes verbatim for a faithful
//! round trip.

use vstd::prelude::*;

verus! {

#[derive(Clone, Copy, Debug, PartialEq, Eq, Structural)]
pub enum QueryType {
    UNKNOWN(u16),
    A,
    NS,
    CNAME,
    MX,
    AAAA,
}

impl QueryType {
    /// The wire code the variant stands for.
    pub open spec fn spec_to_num(self) -> u16 {
        match self {
            QueryType::UNKNOWN(x) => x,
            QueryType::A => 1,
            QueryType::NS => 2,
            QueryType::CNAME => 5,
            QueryType::MX => 15,
            QueryType::AAAA => 28,
        }
    }

    /// The variant a wire code decodes to.
    pub open spec fn spec_from_num(num: u16) -> QueryType {
        if num == 1 {
            QueryType::A
        } else if num == 2 {
            QueryType::NS
        } else if num == 5 {
            QueryType::CNAME
        } else if num == 15 {
            QueryType::MX
        } else if num == 28 {
            QueryType::AAAA
        } else {
            QueryType::UNKNOWN(num)
        }
    }

    /// Canonical form: the fallback variant only carries codes that have no
    /// named variant.
    pub open spec fn wf(self) -> bool {
        match self {
            QueryType::UNKNOWN(x) => x != 1 && x != 2 && x != 5 && x != 15 && x != 28,
            _ => true,
        }
    }

    pub fn from_num(num: u16) -> (r: QueryType)
        ensures
            r == QueryType::spec_from_num(num),
            r.wf(),
            r.spec_to_num() == num,
    {
        match num {
            1 => QueryType::A,
            2 => QueryType::NS,
            5 => QueryType::CNAME,
            15 => QueryType::MX,
            28 => QueryType::AAAA,
            _ => QueryType::UNKNOWN(num),
        }
    }

    pub fn to_num(self) -> (r: u16)
        ensures
            r == self.spec_to_num(),
    {
        match self {
            QueryType::UNKNOWN(x) => x,
            QueryType::A => 1,
            QueryType::NS => 2,
            QueryType::CNAME => 5,
            QueryType::MX => 15,
            QueryType::AAAA => 28,
        }
    }
}

/// A canonical query type survives the trip through its wire number.
pub proof fn lemma_querytype_roundtrip(t: QueryType)
    requires
        t.wf(),
    ensures
        QueryType::spec_from_num(t.spec_to_num()) == t,
{
}

} // verus!
