//! The layout of a sequence of posting lists in a bit vector.
//!
//! A 32-bit count of lists comes first. Each list is a 32-bit count of its values and
//! then one codeword for each value: the first value itself, and for every later value
//! its difference from the value before it. The values of a list do not decrease.

use crate::bits::{bits_of, bits_value, holds_at, window};
use crate::bits::{lemma_holds_at_concat, lemma_holds_at_window, lemma_value_of_bits};
use vstd::arithmetic::div_mod::lemma_mod_adds;
use crate::integer_codes::IntegerCode;
use vstd::prelude::*;

verus! {

/// The width of a count in the layout.
pub const FIELD_BITS: usize = 32;

/// The first number that a count cannot hold.
pub const FIELD_LIMIT: u64 = 0x1_0000_0000;

/// The posting lists that `lists` holds, as sequences.
pub open spec fn lists_view(lists: &Vec<Vec<u64>>) -> Seq<Seq<u64>> {
    lists@.map_values(|list: Vec<u64>| list@)
}

/// What is written for the value at index `i` of `list`: its difference from the value
/// before it, or the value itself if it is the first.
pub open spec fn gap(list: Seq<u64>, i: int) -> u64 {
    if i == 0 {
        list[0]
    } else {
        (list[i] - list[i - 1]) as u64
    }
}

/// `list` can be written with the code `C`: its length fits in a count, its values do
/// not decrease, and `C` can write every gap.
pub open spec fn list_encodable<C: IntegerCode<u64>>(list: Seq<u64>) -> bool {
    &&& list.len() < FIELD_LIMIT
    &&& forall|i: int| 0 < i < list.len() ==> list[i - 1] <= #[trigger] list[i]
    &&& forall|i: int| 0 <= i < list.len() ==> C::encodable(#[trigger] gap(list, i))
}

/// `lists` can be written with the code `C`.
pub open spec fn lists_encodable<C: IntegerCode<u64>>(lists: Seq<Seq<u64>>) -> bool {
    &&& lists.len() < FIELD_LIMIT
    &&& forall|i: int| 0 <= i < lists.len() ==> list_encodable::<C>(#[trigger] lists[i])
}

/// The codewords of the values of `list` from index `k` on.
pub open spec fn gaps_code<C: IntegerCode<u64>>(list: Seq<u64>, k: nat) -> Seq<bool>
    decreases list.len() - k,
{
    if k >= list.len() {
        Seq::empty()
    } else {
        C::code(gap(list, k as int)) + gaps_code::<C>(list, k + 1)
    }
}

/// The bits of one list: its length and the codewords of its values.
pub open spec fn list_code<C: IntegerCode<u64>>(list: Seq<u64>) -> Seq<bool> {
    bits_of(list.len() as u64, FIELD_BITS as nat) + gaps_code::<C>(list, 0)
}

/// The bits of the lists of `lists` from index `i` on.
pub open spec fn lists_body<C: IntegerCode<u64>>(lists: Seq<Seq<u64>>, i: nat) -> Seq<bool>
    decreases lists.len() - i,
{
    if i >= lists.len() {
        Seq::empty()
    } else {
        list_code::<C>(lists[i as int]) + lists_body::<C>(lists, i + 1)
    }
}

/// The bits of a sequence of posting lists: the number of lists, and then the lists.
pub open spec fn lists_code<C: IntegerCode<u64>>(lists: Seq<Seq<u64>>) -> Seq<bool> {
    bits_of(lists.len() as u64, FIELD_BITS as nat) + lists_body::<C>(lists, 0)
}

/// `lists` can be written with the code `C` into a bit vector: every part of it can
/// be written, and the bits are no more than a `usize` can count.
pub open spec fn compressible<C: IntegerCode<u64>>(lists: Seq<Seq<u64>>) -> bool {
    lists_encodable::<C>(lists) && lists_code::<C>(lists).len() <= usize::MAX
}

/// The count that stands in `bits` at `pos`.
pub open spec fn field_at(bits: Seq<bool>, pos: nat) -> u64 {
    bits_value(window(bits, pos, FIELD_BITS as nat)) as u64
}

/// `n` codewords can be read from `bits` at `pos`, one behind the other, and the
/// running sum of their values, which starts at `prev`, stays within `u64`.
pub open spec fn gaps_decodable<C: IntegerCode<u64>>(
    bits: Seq<bool>,
    pos: nat,
    n: nat,
    prev: u64,
) -> bool
    decreases n,
{
    n == 0 || {
        &&& C::decodable(bits, pos)
        &&& prev + C::value(bits, pos) <= u64::MAX
        &&& gaps_decodable::<C>(
            bits,
            C::end(bits, pos),
            (n - 1) as nat,
            (prev + C::value(bits, pos)) as u64,
        )
    }
}

/// The running sums of the values of the `n` codewords at `pos`, starting at `prev`.
pub open spec fn gaps_decoded<C: IntegerCode<u64>>(
    bits: Seq<bool>,
    pos: nat,
    n: nat,
    prev: u64,
) -> Seq<u64>
    decreases n,
{
    if n == 0 {
        Seq::empty()
    } else {
        let x = (prev + C::value(bits, pos)) as u64;
        seq![x] + gaps_decoded::<C>(bits, C::end(bits, pos), (n - 1) as nat, x)
    }
}

/// The position behind the `n` codewords at `pos`.
pub open spec fn gaps_end<C: IntegerCode<u64>>(bits: Seq<bool>, pos: nat, n: nat) -> nat
    decreases n,
{
    if n == 0 {
        pos
    } else {
        gaps_end::<C>(bits, C::end(bits, pos), (n - 1) as nat)
    }
}

/// A list can be read from `bits` at `pos`.
pub open spec fn list_decodable<C: IntegerCode<u64>>(bits: Seq<bool>, pos: nat) -> bool {
    &&& pos + FIELD_BITS <= bits.len()
    &&& gaps_decodable::<C>(bits, pos + FIELD_BITS as nat, field_at(bits, pos) as nat, 0)
}

/// The list that stands in `bits` at `pos`.
pub open spec fn list_decoded<C: IntegerCode<u64>>(bits: Seq<bool>, pos: nat) -> Seq<u64> {
    gaps_decoded::<C>(bits, pos + FIELD_BITS as nat, field_at(bits, pos) as nat, 0)
}

/// The position behind the list that stands in `bits` at `pos`.
pub open spec fn list_end<C: IntegerCode<u64>>(bits: Seq<bool>, pos: nat) -> nat {
    gaps_end::<C>(bits, pos + FIELD_BITS as nat, field_at(bits, pos) as nat)
}

/// `n` lists can be read from `bits` at `pos`, one behind the other.
pub open spec fn lists_decodable<C: IntegerCode<u64>>(bits: Seq<bool>, pos: nat, n: nat) -> bool
    decreases n,
{
    n == 0 || {
        &&& list_decodable::<C>(bits, pos)
        &&& lists_decodable::<C>(bits, list_end::<C>(bits, pos), (n - 1) as nat)
    }
}

/// The `n` lists that stand in `bits` at `pos`.
pub open spec fn lists_decoded<C: IntegerCode<u64>>(bits: Seq<bool>, pos: nat, n: nat) -> Seq<
    Seq<u64>,
>
    decreases n,
{
    if n == 0 {
        Seq::empty()
    } else {
        seq![list_decoded::<C>(bits, pos)] + lists_decoded::<C>(
            bits,
            list_end::<C>(bits, pos),
            (n - 1) as nat,
        )
    }
}

/// `bits` can be read as a sequence of posting lists.
pub open spec fn stream_decodable<C: IntegerCode<u64>>(bits: Seq<bool>) -> bool {
    &&& FIELD_BITS <= bits.len()
    &&& lists_decodable::<C>(bits, FIELD_BITS as nat, field_at(bits, 0) as nat)
}

/// The posting lists that `bits` holds.
pub open spec fn stream_decoded<C: IntegerCode<u64>>(bits: Seq<bool>) -> Seq<Seq<u64>> {
    lists_decoded::<C>(bits, FIELD_BITS as nat, field_at(bits, 0) as nat)
}

/// A number below `2^32` fits in a count.
pub proof fn lemma_count_fits(n: u64)
    by (bit_vector)
    requires
        n < 0x1_0000_0000,
    ensures
        n >> 32 == 0,
{
}

/// The value before index `k` of `list`, from which the gap at `k` is counted.
pub open spec fn value_before(list: Seq<u64>, k: nat) -> u64 {
    if k == 0 {
        0
    } else {
        list[k - 1]
    }
}

/// Where the codewords of `list` from index `k` on stand at `pos`, they decode to the
/// values of `list` from index `k` on.
pub proof fn lemma_gaps_round_trip<C: IntegerCode<u64>>(
    list: Seq<u64>,
    k: nat,
    bits: Seq<bool>,
    pos: nat,
)
    requires
        list_encodable::<C>(list),
        k <= list.len(),
        pos % C::unit() == 0,
        holds_at(bits, pos, gaps_code::<C>(list, k)),
    ensures
        gaps_decodable::<C>(bits, pos, (list.len() - k) as nat, value_before(list, k)),
        gaps_decoded::<C>(bits, pos, (list.len() - k) as nat, value_before(list, k))
            == list.subrange(k as int, list.len() as int),
        gaps_end::<C>(bits, pos, (list.len() - k) as nat) == pos + gaps_code::<C>(list, k).len(),
        (pos + gaps_code::<C>(list, k).len()) % C::unit() == 0,
    decreases list.len() - k,
{
    C::lemma_unit();
    let n = (list.len() - k) as nat;
    let prev = value_before(list, k);
    if k < list.len() {
        let g = gap(list, k as int);
        let code = C::code(g);
        assert(C::encodable(g));
        assert(k > 0 ==> list[k - 1] <= list[k as int]);
        assert(prev + g == list[k as int]);
        lemma_holds_at_concat(bits, pos, code, gaps_code::<C>(list, k + 1));
        C::lemma_whole_units(g);
        C::lemma_round_trip(g, bits, pos);
        lemma_mod_adds(pos as int, code.len() as int, C::unit() as int);
        lemma_gaps_round_trip::<C>(list, k + 1, bits, pos + code.len());
        assert(gaps_decoded::<C>(bits, pos, n, prev) =~= list.subrange(
            k as int,
            list.len() as int,
        ));
    } else {
        assert(gaps_decoded::<C>(bits, pos, n, prev) =~= list.subrange(
            k as int,
            list.len() as int,
        ));
    }
}

/// Where the bits of `list` stand at `pos`, they decode to `list`.
pub proof fn lemma_list_round_trip<C: IntegerCode<u64>>(list: Seq<u64>, bits: Seq<bool>, pos: nat)
    requires
        list_encodable::<C>(list),
        pos % C::unit() == 0,
        holds_at(bits, pos, list_code::<C>(list)),
    ensures
        list_decodable::<C>(bits, pos),
        list_decoded::<C>(bits, pos) == list,
        list_end::<C>(bits, pos) == pos + list_code::<C>(list).len(),
        (pos + list_code::<C>(list).len()) % C::unit() == 0,
{
    C::lemma_unit();
    let count = bits_of(list.len() as u64, FIELD_BITS as nat);
    lemma_holds_at_concat(bits, pos, count, gaps_code::<C>(list, 0));
    lemma_holds_at_window(bits, pos, count);
    lemma_count_fits(list.len() as u64);
    lemma_value_of_bits(list.len() as u64, FIELD_BITS as nat);
    lemma_mod_adds(pos as int, FIELD_BITS as int, C::unit() as int);
    lemma_gaps_round_trip::<C>(list, 0, bits, pos + FIELD_BITS as nat);
    assert(list.subrange(0, list.len() as int) =~= list);
}

/// Where the bits of the lists of `lists` from index `i` on stand at `pos`, they decode
/// to those lists.
pub proof fn lemma_lists_round_trip_from<C: IntegerCode<u64>>(
    lists: Seq<Seq<u64>>,
    i: nat,
    bits: Seq<bool>,
    pos: nat,
)
    requires
        lists_encodable::<C>(lists),
        i <= lists.len(),
        pos % C::unit() == 0,
        holds_at(bits, pos, lists_body::<C>(lists, i)),
    ensures
        lists_decodable::<C>(bits, pos, (lists.len() - i) as nat),
        lists_decoded::<C>(bits, pos, (lists.len() - i) as nat) == lists.subrange(
            i as int,
            lists.len() as int,
        ),
    decreases lists.len() - i,
{
    let n = (lists.len() - i) as nat;
    if i < lists.len() {
        let list = lists[i as int];
        lemma_holds_at_concat(bits, pos, list_code::<C>(list), lists_body::<C>(lists, i + 1));
        lemma_list_round_trip::<C>(list, bits, pos);
        lemma_lists_round_trip_from::<C>(lists, i + 1, bits, pos + list_code::<C>(list).len());
    }
    assert(lists_decoded::<C>(bits, pos, n) =~= lists.subrange(i as int, lists.len() as int));
}

/// Whatever bit sequence starts with the bits of `lists` decodes to `lists`: reading
/// undoes writing.
pub proof fn lemma_lists_round_trip<C: IntegerCode<u64>>(lists: Seq<Seq<u64>>, bits: Seq<bool>)
    requires
        lists_encodable::<C>(lists),
        holds_at(bits, 0, lists_code::<C>(lists)),
    ensures
        stream_decodable::<C>(bits),
        stream_decoded::<C>(bits) == lists,
{
    C::lemma_unit();
    let count = bits_of(lists.len() as u64, FIELD_BITS as nat);
    lemma_holds_at_concat(bits, 0, count, lists_body::<C>(lists, 0));
    lemma_holds_at_window(bits, 0, count);
    lemma_count_fits(lists.len() as u64);
    lemma_value_of_bits(lists.len() as u64, FIELD_BITS as nat);
    lemma_lists_round_trip_from::<C>(lists, 0, bits, FIELD_BITS as nat);
    assert(lists.subrange(0, lists.len() as int) =~= lists);
}

/// The bits of `lists`, filled up with zero bits to any length, as a saved bit vector
/// is filled up to whole words, still decode to `lists`.
pub proof fn lemma_padded_lists_round_trip<C: IntegerCode<u64>>(lists: Seq<Seq<u64>>, n: nat)
    requires
        lists_encodable::<C>(lists),
        n >= lists_code::<C>(lists).len(),
    ensures
        stream_decodable::<C>(window(lists_code::<C>(lists), 0, n)),
        stream_decoded::<C>(window(lists_code::<C>(lists), 0, n)) == lists,
{
    let code = lists_code::<C>(lists);
    let padded = window(code, 0, n);
    assert(padded.subrange(0, code.len() as int) =~= code);
    lemma_lists_round_trip::<C>(lists, padded);
}

/// The numbers of a file of posting lists: for each list from index `i` on, its
/// length and then its values.
pub open spec fn flat_lists(lists: Seq<Seq<u64>>, i: nat) -> Seq<u64>
    decreases lists.len() - i,
{
    if i >= lists.len() {
        Seq::empty()
    } else {
        seq![lists[i as int].len() as u64] + lists[i as int] + flat_lists(lists, i + 1)
    }
}

/// The posting lists that the numbers of `values` from `pos` on are made of, if they
/// are made of lists: at `pos` stands a length, behind it as many values, and so on
/// to the end.
pub open spec fn grouped(values: Seq<u64>, pos: nat) -> Option<Seq<Seq<u64>>>
    decreases values.len() - pos,
{
    if pos >= values.len() {
        Some(Seq::empty())
    } else if pos + 1 + values[pos as int] > values.len() {
        None
    } else {
        let behind = pos + 1 + values[pos as int] as nat;
        match grouped(values, behind) {
            Some(rest) => Some(seq![values.subrange(pos as int + 1, behind as int)] + rest),
            None => None,
        }
    }
}

/// Splits the numbers of a file of posting lists into the lists. Returns `None` if the
/// last list is shorter than its length says.
pub fn group_lists(values: &Vec<u64>) -> (lists: Option<Vec<Vec<u64>>>)
    ensures
        match lists {
            Some(lists) => grouped(values@, 0) == Some(lists_view(&lists)),
            None => grouped(values@, 0).is_none(),
        },
{
    let mut lists: Vec<Vec<u64>> = Vec::new();
    let mut pos: usize = 0;
    assert(lists_view(&lists) =~= Seq::<Seq<u64>>::empty());
    while pos < values.len()
        invariant
            pos <= values.len(),
            grouped(values@, 0) == match grouped(values@, pos as nat) {
                Some(rest) => Some(lists_view(&lists) + rest),
                None => None,
            },
        decreases values.len() - pos,
    {
        let size: u64 = values[pos];
        if size > (values.len() - pos - 1) as u64 {
            return None;
        }
        let behind: usize = pos + 1 + size as usize;
        let mut list: Vec<u64> = Vec::new();
        let mut k: usize = pos + 1;
        while k < behind
            invariant
                pos + 1 <= k <= behind <= values.len(),
                list@ == values@.subrange(pos + 1, k as int),
            decreases behind - k,
        {
            list.push(values[k]);
            k += 1;
            assert(list@ =~= values@.subrange(pos + 1, k as int));
        }
        let ghost before = lists_view(&lists);
        lists.push(list);
        proof {
            assert(lists_view(&lists) =~= before.push(values@.subrange(pos + 1, behind as int)));
            match grouped(values@, behind as nat) {
                Some(rest) => {
                    assert(lists_view(&lists) + rest =~= before + (seq![
                        values@.subrange(pos + 1, behind as int),
                    ] + rest));
                },
                None => {},
            }
        }
        pos = behind;
    }
    assert(lists_view(&lists) + Seq::<Seq<u64>>::empty() =~= lists_view(&lists));
    Some(lists)
}

/// The numbers that lists are written as split into those lists again.
pub proof fn lemma_grouped_flat(lists: Seq<Seq<u64>>, i: nat)
    requires
        i <= lists.len(),
        forall|k: int| 0 <= k < lists.len() ==> (#[trigger] lists[k]).len() <= u64::MAX,
    ensures
        grouped(flat_lists(lists, i), 0) == Some(lists.subrange(i as int, lists.len() as int)),
    decreases lists.len() - i,
{
    let flat = flat_lists(lists, i);
    if i < lists.len() {
        let list = lists[i as int];
        let rest = flat_lists(lists, i + 1);
        let behind = 1 + list.len();
        lemma_grouped_flat(lists, i + 1);
        assert(flat.subrange(behind as int, flat.len() as int) =~= rest);
        lemma_grouped_behind(flat, behind, rest);
        assert(flat.subrange(1, behind as int) =~= list);
        assert(seq![list] + lists.subrange(i as int + 1, lists.len() as int) =~= lists.subrange(
            i as int,
            lists.len() as int,
        ));
    } else {
        assert(lists.subrange(i as int, lists.len() as int) =~= Seq::<Seq<u64>>::empty());
    }
}

/// Grouping looks only at what lies behind the position it starts at.
proof fn lemma_grouped_behind(values: Seq<u64>, pos: nat, tail: Seq<u64>)
    requires
        pos <= values.len(),
        values.subrange(pos as int, values.len() as int) == tail,
    ensures
        grouped(values, pos) == grouped(tail, 0),
    decreases values.len() - pos,
{
    assert(tail.subrange(0, tail.len() as int) =~= tail);
    lemma_grouped_shift(values, pos, tail, 0);
}

/// Two texts that agree from one position each on group alike from there on.
proof fn lemma_grouped_shift(values: Seq<u64>, pos: nat, tail: Seq<u64>, at: nat)
    requires
        pos <= values.len(),
        at <= tail.len(),
        values.len() - pos == tail.len() - at,
        values.subrange(pos as int, values.len() as int) == tail.subrange(
            at as int,
            tail.len() as int,
        ),
    ensures
        grouped(values, pos) == grouped(tail, at),
    decreases values.len() - pos,
{
    let a = values.subrange(pos as int, values.len() as int);
    let b = tail.subrange(at as int, tail.len() as int);
    if pos < values.len() {
        assert(values[pos as int] == a[0] && tail[at as int] == b[0]);
        let size = values[pos as int] as nat;
        if pos + 1 + size <= values.len() {
            let x = values.subrange(pos as int + 1, (pos + 1 + size) as int);
            let y = tail.subrange(at as int + 1, (at + 1 + size) as int);
            assert(x =~= y) by {
                assert forall|j: int| 0 <= j < size implies x[j] == y[j] by {
                    assert(a[1 + j] == values[pos + 1 + j]);
                    assert(b[1 + j] == tail[at + 1 + j]);
                    assert(x[j] == values[pos + 1 + j]);
                    assert(y[j] == tail[at + 1 + j]);
                }
            }
            let u = values.subrange((pos + 1 + size) as int, values.len() as int);
            let v = tail.subrange((at + 1 + size) as int, tail.len() as int);
            assert(u =~= v) by {
                assert forall|j: int| 0 <= j < u.len() implies u[j] == v[j] by {
                    assert(a[1 + size + j] == values[pos + 1 + size + j]);
                    assert(b[1 + size + j] == tail[at + 1 + size + j]);
                }
            }
            lemma_grouped_shift(values, pos + 1 + size, tail, at + 1 + size);
        }
    }
}

/// The lists that numbers split into are written as those numbers.
pub proof fn lemma_flat_grouped(values: Seq<u64>, pos: nat)
    requires
        pos <= values.len(),
        grouped(values, pos).is_some(),
    ensures
        flat_lists(grouped(values, pos).unwrap(), 0) == values.subrange(
            pos as int,
            values.len() as int,
        ),
    decreases values.len() - pos,
{
    let lists = grouped(values, pos).unwrap();
    if pos < values.len() {
        let behind = pos + 1 + values[pos as int] as nat;
        let rest = grouped(values, behind).unwrap();
        lemma_flat_grouped(values, behind);
        assert(lists.subrange(1, lists.len() as int) =~= rest.subrange(0, rest.len() as int));
        lemma_flat_behind(lists, 1, rest, 0);
        assert(flat_lists(lists, 0) =~= values.subrange(pos as int, values.len() as int));
    } else {
        assert(flat_lists(lists, 0) =~= values.subrange(pos as int, values.len() as int));
    }
}

/// Two sequences of lists that agree from one index each on are written alike from
/// there on.
proof fn lemma_flat_behind(lists: Seq<Seq<u64>>, i: nat, tail: Seq<Seq<u64>>, at: nat)
    requires
        i <= lists.len(),
        at <= tail.len(),
        lists.subrange(i as int, lists.len() as int) == tail.subrange(at as int, tail.len() as int),
    ensures
        flat_lists(lists, i) == flat_lists(tail, at),
    decreases lists.len() - i,
{
    let a = lists.subrange(i as int, lists.len() as int);
    let b = tail.subrange(at as int, tail.len() as int);
    assert(a.len() == b.len());
    if i < lists.len() {
        assert(lists[i as int] == a[0] && tail[at as int] == b[0]);
        let u = lists.subrange(i as int + 1, lists.len() as int);
        let v = tail.subrange(at as int + 1, tail.len() as int);
        assert(u =~= v) by {
            assert forall|j: int| 0 <= j < u.len() implies u[j] == v[j] by {
                assert(a[1 + j] == lists[i + 1 + j]);
                assert(b[1 + j] == tail[at + 1 + j]);
            }
        }
        lemma_flat_behind(lists, i + 1, tail, at + 1);
    }
}

} // verus!
