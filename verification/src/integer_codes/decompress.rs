//! Reading posting lists back from a bit vector.

use crate::integer_codes::bit_vector_iterator::BitVectorIterator;
use crate::integer_codes::lists::{gaps_decodable, gaps_decoded, gaps_end};
use crate::integer_codes::lists::{list_decoded, list_end, lists_decodable};
use crate::integer_codes::lists::{lists_decoded, lists_view, stream_decodable, stream_decoded};
use crate::integer_codes::lists::FIELD_BITS;
use crate::integer_codes::IntegerCode;
use crate::introduction::bit_vector::BitVector;
use vstd::prelude::*;

verus! {

/// Reads the posting lists that `bits` holds in the code `C`: each value is the sum of
/// the gaps of its list up to it. Returns `None` if `bits` does not hold posting lists:
/// a count or a codeword is cut off or cannot be read, or a sum leaves `u64`.
pub fn decompress<C: IntegerCode<u64>>(bits: &BitVector) -> (lists: Option<Vec<Vec<u64>>>)
    requires
        bits.wf(),
    ensures
        match lists {
            Some(lists) => stream_decodable::<C>(bits@) && lists_view(&lists) == stream_decoded::<
                C,
            >(bits@),
            None => !stream_decodable::<C>(bits@),
        },
{
    let len: usize = bits.num_bits();
    if len < FIELD_BITS {
        return None;
    }
    let mut it = BitVectorIterator::new(bits, 0);
    let num_lists: u64 = it.take(FIELD_BITS);
    let mut lists: Vec<Vec<u64>> = Vec::new();
    let mut i: u64 = 0;
    assert(lists_view(&lists) =~= Seq::<Seq<u64>>::empty());
    while i < num_lists
        invariant
            i <= num_lists,
            it.wf(),
            it.bits() == bits@,
            len == bits@.len(),
            stream_decodable::<C>(bits@) == lists_decodable::<C>(
                bits@,
                it.position() as nat,
                (num_lists - i) as nat,
            ),
            stream_decoded::<C>(bits@) == lists_view(&lists) + lists_decoded::<C>(
                bits@,
                it.position() as nat,
                (num_lists - i) as nat,
            ),
        decreases num_lists - i,
    {
        let ghost start = it.position() as nat;
        let ghost more = (num_lists - i - 1) as nat;
        if it.position() > len || len - it.position() < FIELD_BITS {
            return None;
        }
        let list_size: u64 = it.take(FIELD_BITS);
        let mut list: Vec<u64> = Vec::new();
        let mut prev: u64 = 0;
        let mut j: u64 = 0;
        while j < list_size
            invariant
                j <= list_size,
                it.wf(),
                it.bits() == bits@,
                stream_decodable::<C>(bits@) == (gaps_decodable::<C>(
                    bits@,
                    it.position() as nat,
                    (list_size - j) as nat,
                    prev,
                ) && lists_decodable::<C>(
                    bits@,
                    gaps_end::<C>(bits@, it.position() as nat, (list_size - j) as nat),
                    more,
                )),
                list_decoded::<C>(bits@, start) == list@ + gaps_decoded::<C>(
                    bits@,
                    it.position() as nat,
                    (list_size - j) as nat,
                    prev,
                ),
                list_end::<C>(bits@, start) == gaps_end::<C>(
                    bits@,
                    it.position() as nat,
                    (list_size - j) as nat,
                ),
            decreases list_size - j,
        {
            let ghost before = list@;
            let ghost pos = it.position() as nat;
            if !C::can_read(&it) {
                return None;
            }
            let gap: u64 = C::read(&mut it);
            if gap > u64::MAX - prev {
                return None;
            }
            let x: u64 = gap + prev;
            list.push(x);
            proof {
                assert(list@ + gaps_decoded::<C>(
                    bits@,
                    it.position() as nat,
                    (list_size - j - 1) as nat,
                    x,
                ) =~= before + gaps_decoded::<C>(bits@, pos, (list_size - j) as nat, prev));
            }
            prev = x;
            j += 1;
        }
        let ghost before = lists_view(&lists);
        proof {
            assert(list@ =~= list_decoded::<C>(bits@, start));
        }
        lists.push(list);
        proof {
            assert(lists_view(&lists) =~= before.push(list_decoded::<C>(bits@, start)));
            assert(lists_view(&lists) + lists_decoded::<C>(bits@, it.position() as nat, more)
                =~= before + lists_decoded::<C>(bits@, start, (num_lists - i) as nat));
        }
        i += 1;
    }
    assert(lists_view(&lists) =~= stream_decoded::<C>(bits@));
    Some(lists)
}

} // verus!
