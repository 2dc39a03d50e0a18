use vstd::prelude::*;

verus! {

/// Mapping between a symbolic record type and its 16-bit wire code.
///
/// Any code outside the known set is preserved as an `UNKNOWN` variant
/// carrying that code, so parsing loses no information on read.
#[derive(Clone, Copy, Debug, PartialEq, Eq, Structural)]
pub enum QueryType {
    UNKNOWN(u16),
    A,
    NS,
    CNAME,
    MX,
    AAAA,
}

impl QueryType {
    /// The 16-bit wire code of this type.
    pub open spec fn spec_to_num(self) -> u16 {
        match self {
            QueryType::UNKNOWN(code) => code,
            QueryType::A => 1,
            QueryType::NS => 2,
            QueryType::CNAME => 5,
            QueryType::MX => 15,
            QueryType::AAAA => 28,
        }
    }

    /// The type denoted by a 16-bit wire code.
    pub open spec fn spec_from_num(num: u16) -> QueryType {
        match num {
            1u16 => QueryType::A,
            2u16 => QueryType::NS,
            5u16 => QueryType::CNAME,
            15u16 => QueryType::MX,
            28u16 => QueryType::AAAA,
            _ => QueryType::UNKNOWN(num),
        }
    }

    pub fn from_num(num: u16) -> (r: QueryType)
        ensures
            r == QueryType::spec_from_num(num),
    {
        match num {
            1 => QueryType::A,
            2 => QueryType::NS,
            5 => QueryType::CNAME,
            15 => QueryType::MX,
            28 => QueryType::AAAA,
            _ => QueryType::UNKNOWN(num),
        }
    }

    pub fn to_num(self) -> (r: u16)
        ensures
            r == self.spec_to_num(),
    {
        match self {
            QueryType::UNKNOWN(code) => code,
            QueryType::A => 1,
            QueryType::NS => 2,
            QueryType::CNAME => 5,
            QueryType::MX => 15,
            QueryType::AAAA => 28,
        }
    }
}

/// Decoding the wire code of any type gives back that type, except that an
/// `UNKNOWN` carrying a known code decodes to the known type.
pub proof fn lemma_query_type_round_trip(qtype: QueryType)
    requires
        !(qtype is UNKNOWN),
    ensures
        QueryType::spec_from_num(qtype.spec_to_num()) == qtype,
{
}

} // verus!
