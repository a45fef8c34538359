//! Finding the first distinguished byte of a buffer.
//!
//! Both the codec (field separators, the dot of a fractional numeral) and the
//! framing layer (start marker, terminator) delimit their data by scanning for
//! a distinguished byte; this module gives that scan a single specification.

use vstd::prelude::*;

verus! {

/// The kinds of byte that end a scan.
#[derive(Copy, Clone, Debug, PartialEq, Eq, Structural)]
pub enum Stop {
    /// End of an encoded field: the separator `/` or a stray zero byte.
    FieldEnd,
    /// Start of a frame: the marker byte `1`.
    Marker,
    /// End of a frame body: the terminator byte `0`.
    Terminator,
    /// The decimal point of a fractional numeral.
    Dot,
}

pub open spec fn stops(k: Stop, b: u8) -> bool {
    match k {
        Stop::FieldEnd => b == 47 || b == 0,
        Stop::Marker => b == 1,
        Stop::Terminator => b == 0,
        Stop::Dot => b == 46,
    }
}

/// Index of the first byte of `s` at which `k` stops, or `s.len()` if none.
pub open spec fn first_stop(k: Stop, s: Seq<u8>) -> int
    decreases s.len(),
{
    if s.len() == 0 {
        0
    } else if stops(k, s[0]) {
        0
    } else {
        1 + first_stop(k, s.skip(1))
    }
}

/// `first_stop` lies within `0 .. s.len()`, nothing before it stops the scan,
/// and if it is not `s.len()` then the byte there does.
pub proof fn lemma_first_stop(k: Stop, s: Seq<u8>)
    ensures
        0 <= first_stop(k, s) <= s.len(),
        forall|j: int| 0 <= j < first_stop(k, s) ==> !stops(k, s[j]),
        first_stop(k, s) < s.len() ==> stops(k, s[first_stop(k, s)]),
    decreases s.len(),
{
    if s.len() == 0 {
    } else if stops(k, s[0]) {
    } else {
        lemma_first_stop(k, s.skip(1));
        assert forall|j: int| 0 <= j < first_stop(k, s) implies !stops(k, s[j]) by {
            if j > 0 {
                assert(s[j] == s.skip(1)[j - 1]);
            }
        }
        if first_stop(k, s) < s.len() {
            assert(s[first_stop(k, s)] == s.skip(1)[first_stop(k, s) - 1]);
        }
    }
}

/// If the byte at `i` stops the scan and no earlier byte does, then `i` is
/// exactly `first_stop(k, s)`.
pub proof fn lemma_first_stop_is(k: Stop, s: Seq<u8>, i: int)
    requires
        0 <= i < s.len(),
        stops(k, s[i]),
        forall|j: int| 0 <= j < i ==> !stops(k, s[j]),
    ensures
        first_stop(k, s) == i,
{
    lemma_first_stop(k, s);
    let f = first_stop(k, s);
    if f < i {
        assert(!stops(k, s[f]));
    }
    if f > i {
        assert(!stops(k, s[i]));
    }
}

/// If no byte of `s` stops the scan, `first_stop(k, s)` is `s.len()`.
pub proof fn lemma_first_stop_none(k: Stop, s: Seq<u8>)
    requires
        forall|j: int| 0 <= j < s.len() ==> !stops(k, s[j]),
    ensures
        first_stop(k, s) == s.len(),
{
    lemma_first_stop(k, s);
    if first_stop(k, s) < s.len() {
        assert(!stops(k, s[first_stop(k, s)]));
    }
}

} // verus!
