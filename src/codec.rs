use byteorder::{ByteOrder, LittleEndian};
use vstd::prelude::*;

verus! {

/// The unsigned number that the bytes `s` encode, least significant byte first.
pub open spec fn le_value(s: Seq<u8>) -> nat
    decreases s.len(),
{
    if s.len() == 0 {
        0
    } else {
        s[0] as nat + 256 * le_value(s.drop_first())
    }
}

/// `256` to the power `n`.
pub open spec fn pow256(n: nat) -> nat
    decreases n,
{
    if n == 0 {
        1
    } else {
        256 * pow256((n - 1) as nat)
    }
}

/// The `n` low bytes of `v`, least significant first.
pub open spec fn le_bytes(v: nat, n: nat) -> Seq<u8>
    decreases n,
{
    if n == 0 {
        Seq::empty()
    } else {
        seq![(v % 256) as u8] + le_bytes(v / 256, (n - 1) as nat)
    }
}

/// The bytes of a dataset of `n` records where the record at key `k` holds `k`.
pub open spec fn is_dataset(b: Seq<u8>, n: nat) -> bool {
    &&& b.len() == n * 8
    &&& forall|k: int|
        0 <= k < n ==> #[trigger] b.subrange(8 * k, 8 * k + 8) == le_bytes(k as nat, 8)
}

/// Relies on byteorder's `LittleEndian::read_u64`: the value of the first eight
/// bytes of `buf`, least significant first (it panics on fewer).
#[verifier::external_body]
fn read_le_u64(buf: &[u8]) -> (r: u64)
    requires
        buf@.len() >= 8,
    ensures
        r as nat == le_value(buf@.subrange(0, 8)),
{
    LittleEndian::read_u64(buf)
}

/// Relies on byteorder's `LittleEndian::write_u64`: the first eight bytes of
/// `buf` become `n`, least significant first (it panics on fewer).
#[verifier::external_body]
fn write_le_u64(buf: &mut Vec<u8>, n: u64)
    requires
        old(buf)@.len() == 8,
    ensures
        final(buf)@ == le_bytes(n as nat, 8),
{
    LittleEndian::write_u64(buf.as_mut_slice(), n)
}

/// Writing `n` bytes of `v` and reading them back gives `v` modulo `256^n`.
pub proof fn lemma_le_round_trip(v: nat, n: nat)
    ensures
        le_bytes(v, n).len() == n,
        le_value(le_bytes(v, n)) == v % pow256(n),
    decreases n,
{
    if n > 0 {
        let m = (n - 1) as nat;
        lemma_le_round_trip(v / 256, m);
        let s = le_bytes(v, n);
        assert(s.drop_first() =~= le_bytes(v / 256, m));
        lemma_pow256_positive(m);
        vstd::arithmetic::div_mod::lemma_mod_breakdown(v as int, 256, pow256(m) as int);
    }
}

/// Every power of 256 is positive.
pub proof fn lemma_pow256_positive(n: nat)
    ensures
        pow256(n) > 0,
    decreases n,
{
    if n > 0 {
        lemma_pow256_positive((n - 1) as nat);
    }
}

/// Eight bytes hold every `u64` exactly.
pub proof fn lemma_u64_round_trip(v: nat)
    requires
        v <= u64::MAX,
    ensures
        le_bytes(v, 8).len() == 8,
        le_value(le_bytes(v, 8)) == v,
{
    lemma_le_round_trip(v, 8);
    reveal_with_fuel(pow256, 9);
    assert(pow256(8) == 0x1_0000_0000_0000_0000);
    vstd::arithmetic::div_mod::lemma_small_mod(v, pow256(8));
}

/// The record at `start` in `buf`: the eight bytes there, least significant first.
pub fn decode_record(buf: &[u8], start: usize) -> (r: u64)
    requires
        start + 8 <= buf@.len(),
    ensures
        r as nat == le_value(buf@.subrange(start as int, start + 8)),
{
    let n: usize = buf.len();
    let mut rec: Vec<u8> = Vec::with_capacity(8);
    let mut i: usize = 0;
    while i < 8
        invariant
            0 <= i <= 8,
            n == buf@.len(),
            start + 8 <= buf@.len(),
            rec@ == buf@.subrange(start as int, start + i),
        decreases 8 - i,
    {
        rec.push(buf[start + i]);
        i = i + 1;
        assert(rec@ =~= buf@.subrange(start as int, start + i));
    }
    assert(rec@.subrange(0, 8) =~= rec@);
    read_le_u64(rec.as_slice())
}

/// The eight bytes that store `v`, least significant first.
pub fn encode_record(v: u64) -> (r: Vec<u8>)
    ensures
        r@.len() == 8,
        r@ == le_bytes(v as nat, 8),
        le_value(r@) == v,
{
    let mut buf: Vec<u8> = vec![0u8; 8];
    write_le_u64(&mut buf, v);
    proof {
        lemma_u64_round_trip(v as nat);
    }
    buf
}

/// The bytes of a dataset of `count` records whose values are their keys.
pub fn dataset_bytes(count: u64) -> (r: Vec<u8>)
    requires
        count * 8 <= usize::MAX,
    ensures
        is_dataset(r@, count as nat),
{
    let mut out: Vec<u8> = Vec::new();
    let mut k: u64 = 0;
    while k < count
        invariant
            k <= count,
            count * 8 <= usize::MAX,
            is_dataset(out@, k as nat),
        decreases count - k,
    {
        let rec = encode_record(k);
        let ghost before = out@;
        let mut j: usize = 0;
        while j < 8
            invariant
                0 <= j <= 8,
                rec@.len() == 8,
                before.len() == k * 8,
                k < count,
                count * 8 <= usize::MAX,
                out@ == before + rec@.subrange(0, j as int),
            decreases 8 - j,
        {
            out.push(rec[j]);
            j = j + 1;
            assert(out@ =~= before + rec@.subrange(0, j as int));
        }
        assert(out@ =~= before + rec@);
        assert forall|i: int| 0 <= i < k + 1 implies #[trigger] out@.subrange(8 * i, 8 * i + 8)
            == le_bytes(i as nat, 8) by {
            if i < k {
                assert(out@.subrange(8 * i, 8 * i + 8) =~= before.subrange(8 * i, 8 * i + 8));
            } else {
                assert(out@.subrange(8 * i, 8 * i + 8) =~= rec@);
            }
        }
        k = k + 1;
    }
    out
}

/// In a dataset of `n` records, the record at every key `k < n` reads back as `k`.
pub proof fn lemma_dataset_holds_keys(b: Seq<u8>, n: nat, k: nat)
    requires
        is_dataset(b, n),
        n <= u64::MAX,
        k < n,
    ensures
        le_value(b.subrange(8 * k as int, 8 * k as int + 8)) == k,
{
    assert(b.subrange(8 * k as int, 8 * k as int + 8) == le_bytes(k, 8));
    lemma_u64_round_trip(k);
}

} // verus!
