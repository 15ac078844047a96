//! Fixed-size arrays, little-endian integers and byte comparisons.

use vstd::prelude::*;

verus! {

broadcast use vstd::array::group_array_axioms;

/// Copy the `N` bytes of `data` that start at `pos`.
pub fn read_array<const N: usize>(data: &[u8], pos: usize) -> (r: [u8; N])
    requires
        pos + N <= data@.len(),
    ensures
        r@ == data@.subrange(pos as int, pos + N),
{
    let mut out: [u8; N] = vstd::array::array_fill_for_copy_types::<u8, N>(0u8);
    let mut i: usize = 0;
    while i < N
        invariant
            i <= N,
            pos + N <= data@.len() == data.len(),
            forall|j: int| 0 <= j < i ==> out@[j] == data@[pos + j],
        decreases N - i,
    {
        out[i] = data[pos + i];
        i = i + 1;
    }
    assert(out@ =~= data@.subrange(pos as int, pos + N));
    out
}

/// Whether two byte strings are the same.
pub fn bytes_eq(a: &[u8], b: &[u8]) -> (r: bool)
    ensures
        r == (a@ == b@),
{
    if a.len() != b.len() {
        return false;
    }
    let mut i: usize = 0;
    while i < a.len()
        invariant
            a@.len() == b@.len(),
            i <= a@.len(),
            forall|j: int| 0 <= j < i ==> a@[j] == b@[j],
        decreases a@.len() - i,
    {
        if a[i] != b[i] {
            return false;
        }
        i = i + 1;
    }
    assert(a@ =~= b@);
    true
}

/// Whether two 32-byte keys are the same.
pub fn key_eq(a: &[u8; 32], b: &[u8; 32]) -> (r: bool)
    ensures
        r == (a == b),
        r == (a@ == b@),
{
    let r = bytes_eq(a.as_slice(), b.as_slice());
    assert(a@ =~= b@ ==> a =~= b);
    r
}

/// Append `src` to `buf`.
pub fn append(buf: &mut Vec<u8>, src: &[u8])
    ensures
        final(buf)@ == old(buf)@ + src@,
{
    buf.extend_from_slice(src);
    assert(buf@ =~= old(buf)@ + src@);
}

/// The bytes of an ASCII text.
pub open spec fn ascii(s: Seq<char>) -> Seq<u8> {
    Seq::new(s.len(), |i: int| s[i] as u8)
}

/// Append the bytes of `s`.
pub fn append_ascii(buf: &mut Vec<u8>, s: &str)
    requires
        s.is_ascii(),
    ensures
        final(buf)@ == old(buf)@ + ascii(s@),
{
    proof {
        vstd::string::is_ascii_spec_bytes(s);
    }
    append(buf, s.as_bytes());
    assert(buf@ =~= old(buf)@ + ascii(s@));
}

/// The little-endian value of up to eight bytes.
pub open spec fn le_value(s: Seq<u8>) -> nat
    decreases s.len(),
{
    if s.len() == 0 {
        0
    } else {
        s[0] as nat + 256 * le_value(s.skip(1))
    }
}

/// The `n` little-endian bytes of `v`.
pub open spec fn le_bytes(v: nat, n: nat) -> Seq<u8>
    decreases n,
{
    if n == 0 {
        Seq::empty()
    } else {
        seq![(v % 256) as u8] + le_bytes(v / 256, (n - 1) as nat)
    }
}

/// Reading back the little-endian bytes of a value that fits in them gives the
/// value.
pub proof fn le_value_of_le_bytes(v: nat, n: nat)
    ensures
        le_bytes(v, n).len() == n,
        v < pow256(n) ==> le_value(le_bytes(v, n)) == v,
    decreases n,
{
    if n > 0 {
        le_value_of_le_bytes(v / 256, (n - 1) as nat);
        let s = le_bytes(v, n);
        assert(s.skip(1) =~= le_bytes(v / 256, (n - 1) as nat));
        if v < pow256(n) {
            assert(v / 256 < pow256((n - 1) as nat)) by {
                assert(v < 256 * pow256((n - 1) as nat));
            }
        }
    }
}

/// Writing out the little-endian value of a byte string gives the string.
pub proof fn le_bytes_of_le_value(s: Seq<u8>)
    ensures
        le_bytes(le_value(s), s.len()) == s,
        le_value(s) < pow256(s.len()),
    decreases s.len(),
{
    if s.len() > 0 {
        le_bytes_of_le_value(s.skip(1));
        let v = le_value(s);
        assert(v % 256 == s[0] as nat && v / 256 == le_value(s.skip(1)));
        assert(le_bytes(v, s.len()) =~= s);
    } else {
        assert(le_bytes(0, 0) =~= s);
    }
}

/// 256^n.
pub open spec fn pow256(n: nat) -> nat
    decreases n,
{
    if n == 0 {
        1
    } else {
        256 * pow256((n - 1) as nat)
    }
}

/// Append the `n` little-endian bytes of `v`.
pub fn append_le(buf: &mut Vec<u8>, v: u64, n: usize)
    requires
        n <= 8,
    ensures
        final(buf)@ == old(buf)@ + le_bytes(v as nat, n as nat),
{
    let mut rest: u64 = v;
    let mut i: usize = 0;
    let ghost start = buf@;
    assert(start + le_bytes(v as nat, n as nat) =~= buf@ + le_bytes(rest as nat, (n - i) as nat));
    while i < n
        invariant
            i <= n,
            buf@ + le_bytes(rest as nat, (n - i) as nat) == start + le_bytes(v as nat, n as nat),
        decreases n - i,
    {
        let ghost before = buf@;
        let byte: u8 = (rest % 256) as u8;
        buf.push(byte);
        proof {
            assert(buf@ + le_bytes(rest as nat / 256, (n - i - 1) as nat) =~= before + le_bytes(
                rest as nat,
                (n - i) as nat,
            ));
        }
        rest = rest / 256;
        i = i + 1;
    }
    assert(buf@ + le_bytes(rest as nat, 0) =~= buf@);
}

proof fn lemma_le_value_bound(s: Seq<u8>)
    requires
        s.len() <= 8,
    ensures
        le_value(s) <= u64::MAX,
{
    le_bytes_of_le_value(s);
    reveal_with_fuel(pow256, 9);
    assert(pow256(s.len()) <= pow256(8)) by {
        lemma_pow256_mono(s.len(), 8);
    }
}

proof fn lemma_pow256_mono(a: nat, b: nat)
    requires
        a <= b,
    ensures
        0 < pow256(a) <= pow256(b),
    decreases b,
{
    if b > 0 {
        if a < b {
            lemma_pow256_mono(a, (b - 1) as nat);
        } else {
            lemma_pow256_mono((a - 1) as nat, (b - 1) as nat);
        }
    }
}

/// The little-endian value of at most eight bytes.
pub fn read_le(data: &[u8]) -> (v: u64)
    requires
        data@.len() <= 8,
    ensures
        v == le_value(data@),
{
    let mut v: u64 = 0;
    let mut i: usize = data.len();
    proof {
        assert(data@.skip(i as int) =~= Seq::<u8>::empty());
    }
    while i > 0
        invariant
            i <= data@.len() <= 8,
            v == le_value(data@.skip(i as int)),
        decreases i,
    {
        proof {
            assert(data@.skip(i - 1).skip(1) =~= data@.skip(i as int));
            lemma_le_value_bound(data@.skip(i - 1));
        }
        i = i - 1;
        v = data[i] as u64 + 256 * v;
    }
    assert(data@.skip(0) =~= data@);
    v
}

/// The byte with the lowest weight comes first: byte `i` of a number counts
/// 256 to the power of `i`.
pub proof fn low_bytes_come_first(s: Seq<u8>, i: int)
    requires
        0 <= i < s.len(),
    ensures
        (le_value(s) as int / pow256(i as nat) as int) % 256 == s[i],
    decreases s.len(),
{
    let v = le_value(s) as int;
    let rest = le_value(s.skip(1)) as int;
    if i > 0 {
        low_bytes_come_first(s.skip(1), i - 1);
        let p = pow256((i - 1) as nat) as int;
        lemma_pow256_positive((i - 1) as nat);
        assert(v == s[0] + 256 * rest);
        assert(v / 256 == rest);
        assert(s.skip(1)[i - 1] == s[i]);
        vstd::arithmetic::div_mod::lemma_div_denominator(v, 256, p);
        assert(pow256(i as nat) == 256 * pow256((i - 1) as nat));
    } else {
        assert(v == s[0] + 256 * rest);
        assert(pow256(0) == 1);
        assert(v / 1 == v);
        assert(v % 256 == s[0]);
    }
}

proof fn lemma_pow256_positive(n: nat)
    ensures
        pow256(n) > 0,
    decreases n,
{
    if n > 0 {
        lemma_pow256_positive((n - 1) as nat);
    }
}

} // verus!
