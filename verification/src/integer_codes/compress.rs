//! Writing posting lists into a bit vector.

use crate::bits::bits_of;
use crate::integer_codes::lists::{compressible, gap, gaps_code, lemma_count_fits, list_code};
use crate::integer_codes::lists::{list_encodable, lists_body, lists_code, lists_view};
use crate::integer_codes::lists::{FIELD_BITS, FIELD_LIMIT};
use crate::integer_codes::IntegerCode;
use crate::introduction::bit_vector::{BitVector, BitVectorBuilder};
use vstd::prelude::*;

verus! {

/// Writes `lists` with the code `C`: the number of lists, and for each list its length
/// and the codewords of its gaps. Returns `None` if `lists` cannot be written: a count
/// does not fit in its field, the values of a list decrease, `C` cannot write a gap, or
/// the bits would be more than a `usize` can count.
pub fn compress<C: IntegerCode<u64>>(lists: &Vec<Vec<u64>>) -> (bits: Option<BitVector>)
    ensures
        match bits {
            Some(bv) => compressible::<C>(lists_view(lists)) && bv.wf() && bv@ == lists_code::<C>(
                lists_view(lists),
            ),
            None => !compressible::<C>(lists_view(lists)),
        },
{
    let ghost all = lists_view(lists);
    let ghost body = lists_body::<C>(all, 0);
    let ghost blank = bits_of(0, FIELD_BITS as nat);
    if lists.len() as u64 >= FIELD_LIMIT {
        return None;
    }
    let mut builder = BitVectorBuilder::new();
    proof {
        lemma_count_fits(0);
    }
    // The number of lists is written last, into the field reserved here.
    builder.append_bits(0, FIELD_BITS);
    let mut i: usize = 0;
    while i < lists.len()
        invariant
            i <= lists.len() < FIELD_LIMIT,
            all == lists_view(lists),
            body == lists_body::<C>(all, 0),
            blank.len() == FIELD_BITS,
            forall|k: int| 0 <= k < i ==> list_encodable::<C>(#[trigger] all[k]),
            builder.wf(),
            builder@ + lists_body::<C>(all, i as nat) == blank + body,
        decreases lists.len() - i,
    {
        let list = &lists[i];
        let ghost values = list@;
        let ghost rest = lists_body::<C>(all, (i + 1) as nat);
        proof {
            assert(all[i as int] == values);
            assert((builder@ + (list_code::<C>(values) + rest)).len() == (blank + body).len());
        }
        if list.len() as u64 >= FIELD_LIMIT || builder.num_bits() > usize::MAX - FIELD_BITS {
            return None;
        }
        let ghost before_list = builder@;
        proof {
            lemma_count_fits(list.len() as u64);
        }
        builder.append_bits(list.len() as u64, FIELD_BITS);
        proof {
            assert(builder@ + gaps_code::<C>(values, 0) + rest =~= before_list + (list_code::<C>(
                values,
            ) + rest));
        }
        let mut prev: u64 = 0;
        let mut j: usize = 0;
        while j < list.len()
            invariant
                j <= list.len() < FIELD_LIMIT,
                i < lists.len(),
                all == lists_view(lists),
                all[i as int] == values,
                values == list@,
                body == lists_body::<C>(all, 0),
                blank.len() == FIELD_BITS,
                forall|m: int| 0 < m < j ==> values[m - 1] <= #[trigger] values[m],
                forall|m: int| 0 <= m < j ==> C::encodable(#[trigger] gap(values, m)),
                prev == (if j == 0 { 0 } else { values[j - 1] }),
                builder.wf(),
                builder@ + gaps_code::<C>(values, j as nat) + rest == blank + body,
            decreases list.len() - j,
        {
            let x: u64 = list[j];
            let ghost before = builder@;
            let ghost code = C::code(gap(values, j as int));
            proof {
                assert((before + (code + gaps_code::<C>(values, (j + 1) as nat)) + rest).len() == (
                blank + body).len());
            }
            if x < prev {
                proof {
                    assert(!(values[j - 1] <= values[j as int]));
                }
                return None;
            }
            match C::code_len(x - prev) {
                None => {
                    return None;
                },
                Some(n) => {
                    if builder.num_bits() > usize::MAX - n {
                        return None;
                    }
                },
            }
            C::write(&mut builder, x - prev);
            proof {
                assert(builder@ + gaps_code::<C>(values, (j + 1) as nat) + rest =~= before
                    + gaps_code::<C>(values, j as nat) + rest);
            }
            prev = x;
            j += 1;
        }
        proof {
            assert(builder@ + rest =~= builder@ + gaps_code::<C>(values, j as nat) + rest);
        }
        i += 1;
    }
    proof {
        lemma_count_fits(lists.len() as u64);
        assert(builder@ =~= builder@ + lists_body::<C>(all, i as nat));
    }
    let ghost written = builder@;
    builder.set_bits(0, lists.len() as u64, FIELD_BITS);
    proof {
        assert(builder@ =~= lists_code::<C>(all)) by {
            assert(written.subrange(FIELD_BITS as int, written.len() as int) =~= body);
        }
    }
    let mut bits = BitVector::new();
    builder.build(&mut bits);
    proof {
        bits.lemma_len_bounded();
    }
    Some(bits)
}

} // verus!
