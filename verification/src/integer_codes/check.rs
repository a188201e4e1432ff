//! Checking a bit vector against the posting lists that it should hold.

use crate::integer_codes::decompress::decompress;
use crate::integer_codes::lists::{lists_view, stream_decodable, stream_decoded};
use crate::integer_codes::IntegerCode;
use crate::introduction::bit_vector::BitVector;
use vstd::prelude::*;

verus! {

/// `a` and `b` hold the same values.
fn same_list(a: &Vec<u64>, b: &Vec<u64>) -> (same: bool)
    ensures
        same == (a@ == b@),
{
    if a.len() != b.len() {
        return false;
    }
    let mut i: usize = 0;
    while i < a.len()
        invariant
            i <= a.len() == b.len(),
            forall|k: int| 0 <= k < i ==> a@[k] == b@[k],
        decreases a.len() - i,
    {
        if a[i] != b[i] {
            return false;
        }
        i += 1;
    }
    assert(a@ =~= b@);
    true
}

/// Whether `bits`, read in the code `C`, holds exactly the posting lists `expected`.
pub fn check<C: IntegerCode<u64>>(bits: &BitVector, expected: &Vec<Vec<u64>>) -> (ok: bool)
    requires
        bits.wf(),
    ensures
        ok == (stream_decodable::<C>(bits@) && stream_decoded::<C>(bits@) == lists_view(expected)),
{
    let lists = match decompress::<C>(bits) {
        Some(lists) => lists,
        None => {
            return false;
        },
    };
    assert(lists_view(&lists).len() == lists.len() && lists_view(expected).len()
        == expected.len());
    if lists.len() != expected.len() {
        return false;
    }
    let mut i: usize = 0;
    while i < lists.len()
        invariant
            i <= lists.len() == expected.len(),
            stream_decodable::<C>(bits@),
            lists_view(&lists) == stream_decoded::<C>(bits@),
            forall|k: int| 0 <= k < i ==> lists_view(&lists)[k] == lists_view(expected)[k],
        decreases lists.len() - i,
    {
        if !same_list(&lists[i], &expected[i]) {
            assert(lists_view(&lists)[i as int] != lists_view(expected)[i as int]);
            return false;
        }
        i += 1;
    }
    assert(lists_view(&lists) =~= lists_view(expected));
    true
}

} // verus!
