//! Git's variable-length integers: big-endian base 128 in which every
//! continuation also subtracts one, so each value has exactly one encoding.
use vstd::prelude::*;

verus! {

/// The continuation bytes that stand for `v`.
pub open spec fn varint_prefix(v: nat) -> Seq<u8>
    decreases v,
{
    if v == 0 {
        Seq::empty()
    } else {
        varint_prefix(((v - 1) / 128) as nat).push((128 + (v - 1) % 128) as u8)
    }
}

/// The encoding of `v`.
pub open spec fn varint(v: nat) -> Seq<u8> {
    varint_prefix(v / 128).push((v % 128) as u8)
}

/// What a reader has accumulated after the continuation bytes `s`.
pub open spec fn varint_accumulated(s: Seq<u8>) -> nat
    decreases s.len(),
{
    if s.len() == 0 {
        0
    } else {
        (varint_accumulated(s.drop_last()) * 128 + (s.last() - 128) + 1) as nat
    }
}

/// The value a reader gives an encoding: continuation bytes, then one byte
/// below 128.
pub open spec fn varint_value(s: Seq<u8>) -> nat {
    (varint_accumulated(s.drop_last()) * 128 + s.last()) as nat
}

proof fn lemma_prefix_value(v: nat)
    ensures
        varint_accumulated(varint_prefix(v)) == v,
        forall|i: int| 0 <= i < varint_prefix(v).len() ==> #[trigger] varint_prefix(v)[i] >= 128,
    decreases v,
{
    if v > 0 {
        let w = ((v - 1) / 128) as nat;
        lemma_prefix_value(w);
        let s = varint_prefix(v);
        assert(s.drop_last() =~= varint_prefix(w));
        assert(s.last() == (128 + (v - 1) % 128) as u8);
    }
}

/// Reading an encoding gives back the value, and only the last byte ends it.
pub proof fn law_varint_round_trip(v: nat)
    ensures
        varint(v).len() > 0,
        varint_value(varint(v)) == v,
        varint(v).last() < 128,
        forall|i: int| 0 <= i < varint(v).len() - 1 ==> #[trigger] varint(v)[i] >= 128,
{
    lemma_prefix_value(v / 128);
    assert(varint(v).drop_last() =~= varint_prefix(v / 128));
}

/// Append the continuation bytes of `v`.
fn push_prefix(v: u64, out: &mut Vec<u8>)
    ensures
        final(out)@ == old(out)@ + varint_prefix(v as nat),
    decreases v,
{
    if v > 0 {
        push_prefix((v - 1) / 128, out);
        let low: u64 = (v - 1) % 128;
        out.push(128 + low as u8);
    }
    assert(out@ =~= old(out)@ + varint_prefix(v as nat));
}

/// Append the encoding of `value`.
pub fn encode_varint(value: u64, out: &mut Vec<u8>)
    ensures
        final(out)@ == old(out)@ + varint(value as nat),
{
    push_prefix(value / 128, out);
    out.push((value % 128) as u8);
    assert(out@ =~= old(out)@ + varint(value as nat));
}

} // verus!
