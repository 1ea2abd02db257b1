//! Strictly positive sequence numbers.
//!
//! Per-entity sequence numbers are dense: the first event has sequence
//! number 1 and each further event the successor of the previous one. The
//! largest representable value is capped at `i64::MAX` so that the
//! relational backend, which stores sequence numbers in a signed 64-bit
//! column, agrees with the broker backend on the value space.

use vstd::prelude::*;

verus! {

/// The largest sequence number either persistence backend can represent.
pub const MAX_SEQ_NO: u64 = 0x7fff_ffff_ffff_ffff;

/// A strictly positive sequence number, at most [`MAX_SEQ_NO`].
#[derive(Clone, Copy, Debug, PartialEq, Eq, PartialOrd, Ord, Hash, Structural)]
pub struct SeqNo {
    n: u64,
}

/// A raw integer that does not denote a valid sequence number.
#[derive(Clone, Copy, Debug, PartialEq, Eq, Structural)]
pub enum SeqNoError {
    /// Sequence numbers are strictly positive; zero is refused.
    Zero,
    /// The value exceeds [`MAX_SEQ_NO`].
    TooLarge,
}

impl SeqNo {
    /// The numeric value, for use in specifications.
    pub closed spec fn as_int(self) -> int {
        self.n as int
    }

    /// Every value of this type lies in `1 ..= MAX_SEQ_NO`.
    #[verifier::type_invariant]
    pub open spec fn inv(self) -> bool {
        1 <= self.as_int() <= MAX_SEQ_NO
    }

    /// The smallest sequence number, 1.
    pub fn min() -> (r: SeqNo)
        ensures
            r.as_int() == 1,
    {
        SeqNo { n: 1 }
    }

    /// Construction from a raw integer; zero and values above
    /// [`MAX_SEQ_NO`] are refused.
    pub fn try_from_u64(n: u64) -> (r: Result<SeqNo, SeqNoError>)
        ensures
            match r {
                Ok(s) => s.as_int() == n && 1 <= n <= MAX_SEQ_NO,
                Err(SeqNoError::Zero) => n == 0,
                Err(SeqNoError::TooLarge) => n > MAX_SEQ_NO,
            },
    {
        if n == 0 {
            Err(SeqNoError::Zero)
        } else if n > MAX_SEQ_NO {
            Err(SeqNoError::TooLarge)
        } else {
            Ok(SeqNo { n })
        }
    }

    /// The raw integer value.
    pub fn as_u64(self) -> (r: u64)
        ensures
            r == self.as_int(),
            1 <= r <= MAX_SEQ_NO,
    {
        proof {
            use_type_invariant(self);
        }
        self.n
    }

    /// The successor, or `None` at [`MAX_SEQ_NO`]: arithmetic never
    /// silently overflows.
    pub fn next(self) -> (r: Option<SeqNo>)
        ensures
            match r {
                Some(s) => s.as_int() == self.as_int() + 1 && self.as_int() < MAX_SEQ_NO,
                None => self.as_int() == MAX_SEQ_NO,
            },
    {
        proof {
            use_type_invariant(self);
        }
        if self.n < MAX_SEQ_NO {
            Some(SeqNo { n: self.n + 1 })
        } else {
            None
        }
    }

    /// The successor, staying put at [`MAX_SEQ_NO`].
    pub fn saturating_next(self) -> (r: SeqNo)
        ensures
            r.as_int() == if self.as_int() < MAX_SEQ_NO {
                self.as_int() + 1
            } else {
                MAX_SEQ_NO as int
            },
    {
        proof {
            use_type_invariant(self);
        }
        if self.n < MAX_SEQ_NO {
            SeqNo { n: self.n + 1 }
        } else {
            self
        }
    }

    /// `true` iff `self` is strictly below `other`.
    pub fn lt(self, other: SeqNo) -> (r: bool)
        ensures
            r == (self.as_int() < other.as_int()),
    {
        self.n < other.n
    }
}

} // verus!
