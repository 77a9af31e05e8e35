//! Little-endian integers inside byte sequences.

use vstd::prelude::*;
use vstd::slice::slice_subrange;

verus! {

/// The number that `b` spells with its least significant byte first.
pub open spec fn le_value(b: Seq<u8>) -> nat
    decreases b.len(),
{
    if b.len() == 0 {
        0
    } else {
        b[0] as nat + 256 * le_value(b.drop_first())
    }
}

/// The `n` low bytes of `v`, least significant first.
pub open spec fn le_bytes(v: nat, n: nat) -> Seq<u8>
    decreases n,
{
    if n == 0 {
        Seq::empty()
    } else {
        seq![(v % 256) as u8] + le_bytes(v / 256, (n - 1) as nat)
    }
}

/// `256` raised to `n`.
pub open spec fn pow256(n: nat) -> nat
    decreases n,
{
    if n == 0 {
        1
    } else {
        256 * pow256((n - 1) as nat)
    }
}

/// The number in the `n` bytes of `b` at `at`.
pub open spec fn field(b: Seq<u8>, at: int, n: int) -> nat {
    le_value(b.subrange(at, at + n))
}

/// The signed reading of a 64-bit pattern.
pub open spec fn signed(v: nat) -> int {
    if v < 0x8000_0000_0000_0000 {
        v as int
    } else {
        v - 0x1_0000_0000_0000_0000
    }
}

/// The 64-bit pattern of a signed number.
pub open spec fn unsigned(v: int) -> nat {
    if v >= 0 {
        v as nat
    } else {
        (v + 0x1_0000_0000_0000_0000) as nat
    }
}

/// Reading back what was written gives the number, as long as it fits.
pub proof fn written_number_reads_back(v: nat, n: nat)
    requires
        v < pow256(n),
    ensures
        le_bytes(v, n).len() == n,
        le_value(le_bytes(v, n)) == v,
    decreases n,
{
    if n > 0 {
        let rest = le_bytes(v / 256, (n - 1) as nat);
        assert(pow256(n) == 256 * pow256((n - 1) as nat));
        assert(v / 256 < pow256((n - 1) as nat));
        written_number_reads_back(v / 256, (n - 1) as nat);
        assert(le_bytes(v, n).drop_first() =~= rest);
    }
}

/// Writing the number that some bytes spell gives those bytes.
pub proof fn read_number_writes_back(b: Seq<u8>)
    ensures
        le_bytes(le_value(b), b.len()) == b,
        le_value(b) < pow256(b.len()),
    decreases b.len(),
{
    if b.len() > 0 {
        read_number_writes_back(b.drop_first());
        let v = le_value(b);
        assert(v % 256 == b[0] && v / 256 == le_value(b.drop_first()));
        assert(le_bytes(v, b.len()) =~= b);
    }
}

/// A signed number survives the trip through its bit pattern.
pub proof fn signed_pattern_round_trip(v: i64)
    ensures
        signed(unsigned(v as int)) == v,
        unsigned(v as int) < pow256(8),
{
    pow256_values();
}

pub proof fn pow256_values()
    ensures
        pow256(1) == 0x100,
        pow256(2) == 0x1_0000,
        pow256(4) == 0x1_0000_0000,
        pow256(8) == 0x1_0000_0000_0000_0000,
        pow256(16) == 0x1_0000_0000_0000_0000_0000_0000_0000_0000,
{
    reveal_with_fuel(pow256, 17);
}

/// Length of an encoded number.
pub proof fn le_bytes_len(v: nat, n: nat)
    ensures
        le_bytes(v, n).len() == n,
    decreases n,
{
    if n > 0 {
        le_bytes_len(v / 256, (n - 1) as nat);
    }
}

/// The number in all of `b`.
pub fn le_number(b: &[u8]) -> (v: u64)
    requires
        b@.len() <= 8,
    ensures
        v == le_value(b@),
{
    proof {
        read_number_writes_back(b@);
        pow256_values();
        reveal_with_fuel(pow256, 9);
    }
    let mut i: usize = b.len();
    let mut v: u64 = 0;
    assert(b@.subrange(i as int, b@.len() as int) =~= Seq::<u8>::empty());
    while i > 0
        invariant
            i <= b@.len() <= 8,
            v == le_value(b@.subrange(i as int, b@.len() as int)),
        decreases i,
    {
        let ghost tail = b@.subrange(i as int, b@.len() as int);
        let ghost next = b@.subrange(i - 1, b@.len() as int);
        proof {
            read_number_writes_back(tail);
            reveal_with_fuel(pow256, 9);
            assert(next.drop_first() =~= tail);
            assert(tail.len() <= 7);
            assert(pow256(tail.len()) <= pow256(7)) by {
                reveal_with_fuel(pow256, 9);
            }
        }
        i = i - 1;
        v = b[i] as u64 + 256 * v;
    }
    assert(b@.subrange(0, b@.len() as int) =~= b@);
    v
}

/// The `n` bytes at `at`, if `b` holds them.
fn window(b: &[u8], at: usize, n: usize) -> (w: Option<&[u8]>)
    ensures
        w is Some <==> at + n <= b@.len(),
        w is Some ==> w->0@ == b@.subrange(at as int, at + n),
{
    if n > b.len() || at > b.len() - n {
        None
    } else {
        Some(slice_subrange(b, at, at + n))
    }
}

/// A 16-bit field, or nothing where it reaches past the end.
pub fn read_u16(b: &[u8], at: usize) -> (v: Option<u16>)
    ensures
        v is Some <==> at + 2 <= b@.len(),
        v is Some ==> v->0 == field(b@, at as int, 2),
{
    match window(b, at, 2) {
        None => None,
        Some(w) => {
            proof {
                read_number_writes_back(w@);
                pow256_values();
            }
            Some(le_number(w) as u16)
        },
    }
}

/// A 32-bit field, or nothing where it reaches past the end.
pub fn read_u32(b: &[u8], at: usize) -> (v: Option<u32>)
    ensures
        v is Some <==> at + 4 <= b@.len(),
        v is Some ==> v->0 == field(b@, at as int, 4),
{
    match window(b, at, 4) {
        None => None,
        Some(w) => {
            proof {
                read_number_writes_back(w@);
                pow256_values();
            }
            Some(le_number(w) as u32)
        },
    }
}

/// A 64-bit field, or nothing where it reaches past the end.
pub fn read_u64(b: &[u8], at: usize) -> (v: Option<u64>)
    ensures
        v is Some <==> at + 8 <= b@.len(),
        v is Some ==> v->0 == field(b@, at as int, 8),
{
    match window(b, at, 8) {
        None => None,
        Some(w) => Some(le_number(w)),
    }
}

/// The signed reading of a 64-bit pattern.
pub fn to_signed(v: u64) -> (r: i64)
    ensures
        r == signed(v as nat),
{
    if v < 0x8000_0000_0000_0000u64 {
        v as i64
    } else {
        (v - 0x8000_0000_0000_0000u64) as i64 - 0x7fff_ffff_ffff_ffffi64 - 1
    }
}

/// A signed 64-bit field, or nothing where it reaches past the end.
pub fn read_i64(b: &[u8], at: usize) -> (v: Option<i64>)
    ensures
        v is Some <==> at + 8 <= b@.len(),
        v is Some ==> v->0 == signed(field(b@, at as int, 8)),
{
    match read_u64(b, at) {
        None => None,
        Some(v) => Some(to_signed(v)),
    }
}

/// The sixteen bytes at `at`, or nothing where they reach past the end.
pub fn read_16(b: &[u8], at: usize) -> (v: Option<[u8; 16]>)
    ensures
        v is Some <==> at + 16 <= b@.len(),
        v is Some ==> v->0@ == b@.subrange(at as int, at + 16),
{
    match window(b, at, 16) {
        None => None,
        Some(w) => {
            let mut out: [u8; 16] = [0u8; 16];
            for i in 0..16usize
                invariant
                    w@.len() == 16,
                    forall|j: int| 0 <= j < i ==> out@[j] == w@[j],
            {
                out[i] = w[i];
            }
            assert(out@ =~= w@);
            Some(out)
        },
    }
}

/// Appends the low `n` bytes of `v`.
pub fn push_le(out: &mut Vec<u8>, v: u64, n: usize)
    requires
        n <= 8,
    ensures
        final(out)@ == old(out)@ + le_bytes(v as nat, n as nat),
{
    let ghost start = out@;
    let mut rest: u64 = v;
    let mut left: usize = n;
    assert(out@ + le_bytes(rest as nat, left as nat) =~= start + le_bytes(v as nat, n as nat));
    while left > 0
        invariant
            out@ + le_bytes(rest as nat, left as nat) == start + le_bytes(v as nat, n as nat),
        decreases left,
    {
        let ghost before = out@;
        let ghost whole = le_bytes(rest as nat, left as nat);
        out.push((rest % 256) as u8);
        rest = rest / 256;
        left = left - 1;
        assert(out@ + le_bytes(rest as nat, left as nat) =~= before + whole);
    }
    assert(out@ + le_bytes(rest as nat, 0) =~= out@);
}

/// Appends the bit pattern of `v`.
pub fn push_i64(out: &mut Vec<u8>, v: i64)
    ensures
        final(out)@ == old(out)@ + le_bytes(unsigned(v as int), 8),
{
    let pattern: u64 = if v >= 0 {
        v as u64
    } else {
        (v + 0x7fff_ffff_ffff_ffffi64 + 1) as u64 + 0x8000_0000_0000_0000u64
    };
    push_le(out, pattern, 8);
}

/// Appends all of `more`.
pub fn push_all(out: &mut Vec<u8>, more: &[u8])
    ensures
        final(out)@ == old(out)@ + more@,
{
    let ghost start = out@;
    out.extend_from_slice(more);
    assert(out@ =~= start + more@);
}

/// A number is written with its low byte first, and a byte in front of others
/// counts once while theirs count 256 times as much.
pub proof fn low_byte_stands_first(v: nat, n: nat, first: u8, rest: Seq<u8>)
    requires
        n > 0,
    ensures
        le_bytes(v, n).len() == n,
        le_bytes(v, n)[0] == v % 256,
        le_bytes(v, n).drop_first() == le_bytes(v / 256, (n - 1) as nat),
        le_value(seq![first] + rest) == first + 256 * le_value(rest),
        le_value(Seq::empty()) == 0,
{
    le_bytes_len(v, n);
    assert(le_bytes(v, n).drop_first() =~= le_bytes(v / 256, (n - 1) as nat));
    assert((seq![first] + rest).drop_first() =~= rest);
}

/// The signed reading of a pattern is the number between the least and the
/// greatest signed one that differs from it by nothing or by two to the 64th.
pub proof fn signed_reading_wraps(v: nat)
    requires
        v < 0x1_0000_0000_0000_0000,
    ensures
        i64::MIN <= signed(v) <= i64::MAX,
        signed(v) == v || signed(v) == v - 0x1_0000_0000_0000_0000,
        unsigned(signed(v)) == v,
{
}

} // verus!
