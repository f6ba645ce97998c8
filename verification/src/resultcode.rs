//! The four-bit response-code wire enumeration. Codes the resolver does not
//! interpret are preserved verbatim in an opaque fallback variant, never
//! rejected, so every header round-trips faithfully.

use vstd::prelude::*;

verus! {

#[derive(Clone, Copy, Debug, PartialEq, Eq, Structural)]
pub enum ResultCode {
    NOERROR,
    FORMERR,
    SERVFAIL,
    NXDOMAIN,
    NOTIMP,
    REFUSED,
    UNKNOWN(u8),
}

impl ResultCode {
    /// The code the wire enumeration stands for.
    pub open spec fn spec_to_num(self) -> u8 {
        match self {
            ResultCode::NOERROR => 0,
            ResultCode::FORMERR => 1,
            ResultCode::SERVFAIL => 2,
            ResultCode::NXDOMAIN => 3,
            ResultCode::NOTIMP => 4,
            ResultCode::REFUSED => 5,
            ResultCode::UNKNOWN(x) => x,
        }
    }

    /// The variant a wire code decodes to.
    pub open spec fn spec_from_num(num: u8) -> ResultCode {
        if num == 0 {
            ResultCode::NOERROR
        } else if num == 1 {
            ResultCode::FORMERR
        } else if num == 2 {
            ResultCode::SERVFAIL
        } else if num == 3 {
            ResultCode::NXDOMAIN
        } else if num == 4 {
            ResultCode::NOTIMP
        } else if num == 5 {
            ResultCode::REFUSED
        } else {
            ResultCode::UNKNOWN(num)
        }
    }

    /// Canonical form: the fallback variant only carries codes that have no
    /// named variant, and only ones that fit the four-bit wire field.
    pub open spec fn wf(self) -> bool {
        match self {
            ResultCode::UNKNOWN(x) => 6 <= x < 16,
            _ => true,
        }
    }

    pub fn from_num(num: u8) -> (r: ResultCode)
        ensures
            r == ResultCode::spec_from_num(num),
            num < 16 ==> r.wf(),
            r.spec_to_num() == num,
    {
        match num {
            0 => ResultCode::NOERROR,
            1 => ResultCode::FORMERR,
            2 => ResultCode::SERVFAIL,
            3 => ResultCode::NXDOMAIN,
            4 => ResultCode::NOTIMP,
            5 => ResultCode::REFUSED,
            _ => ResultCode::UNKNOWN(num),
        }
    }

    pub fn to_num(self) -> (r: u8)
        ensures
            r == self.spec_to_num(),
    {
        match self {
            ResultCode::NOERROR => 0,
            ResultCode::FORMERR => 1,
            ResultCode::SERVFAIL => 2,
            ResultCode::NXDOMAIN => 3,
            ResultCode::NOTIMP => 4,
            ResultCode::REFUSED => 5,
            ResultCode::UNKNOWN(x) => x,
        }
    }
}

/// A canonical result code survives the trip through its wire number.
pub proof fn lemma_resultcode_roundtrip(c: ResultCode)
    requires
        c.wf(),
    ensures
        ResultCode::spec_from_num(c.spec_to_num()) == c,
        c.spec_to_num() < 16,
{
}

} // verus!
