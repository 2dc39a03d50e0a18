use vstd::prelude::*;

verus! {

/// Response status carried in the low four bits of the header's second
/// flag byte, mapped one-to-one to its wire value.
#[derive(Clone, Copy, Debug, PartialEq, Eq, Structural)]
pub enum ResultCode {
    NOERROR,
    FORMERR,
    SERVFAIL,
    NXDOMAIN,
    NOTIMP,
    REFUSED,
}

impl ResultCode {
    /// The wire value of this code.
    pub open spec fn spec_to_num(self) -> u8 {
        match self {
            ResultCode::NOERROR => 0,
            ResultCode::FORMERR => 1,
            ResultCode::SERVFAIL => 2,
            ResultCode::NXDOMAIN => 3,
            ResultCode::NOTIMP => 4,
            ResultCode::REFUSED => 5,
        }
    }

    /// The code denoted by a wire value; unrecognized values decode to
    /// `NOERROR`.
    pub open spec fn spec_from_num(num: u8) -> ResultCode {
        match num {
            1u8 => ResultCode::FORMERR,
            2u8 => ResultCode::SERVFAIL,
            3u8 => ResultCode::NXDOMAIN,
            4u8 => ResultCode::NOTIMP,
            5u8 => ResultCode::REFUSED,
            _ => ResultCode::NOERROR,
        }
    }

    pub fn from_num(num: u8) -> (r: ResultCode)
        ensures
            r == ResultCode::spec_from_num(num),
    {
        match num {
            1 => ResultCode::FORMERR,
            2 => ResultCode::SERVFAIL,
            3 => ResultCode::NXDOMAIN,
            4 => ResultCode::NOTIMP,
            5 => ResultCode::REFUSED,
            _ => ResultCode::NOERROR,
        }
    }

    pub fn to_num(self) -> (r: u8)
        ensures
            r == self.spec_to_num(),
    {
        match self {
            ResultCode::NOERROR => 0,
            ResultCode::FORMERR => 1,
            ResultCode::SERVFAIL => 2,
            ResultCode::NXDOMAIN => 3,
            ResultCode::NOTIMP => 4,
            ResultCode::REFUSED => 5,
        }
    }
}

/// Decoding the wire value of any code gives back that code.
pub proof fn lemma_result_code_round_trip(code: ResultCode)
    ensures
        ResultCode::spec_from_num(code.spec_to_num()) == code,
{
}

} // verus!
