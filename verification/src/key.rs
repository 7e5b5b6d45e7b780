//! Binary node keys and the XOR-distance metric.
//!
//! A key is a fixed-width byte string; the distance between two keys is their
//! bytewise XOR read as a big-endian integer, and a peer's bucket index is the
//! position of the most significant set bit of that distance.

use vstd::prelude::*;

use crate::K_ID_LEN_BYTES;

verus! {

/// A fixed-width binary identifier; well-formed when it holds exactly
/// `K_ID_LEN_BYTES` bytes.
pub type BinaryKey = Vec<u8>;

/// A byte string is a well-formed key when it has the fixed key width.
pub open spec fn wf_key(k: Seq<u8>) -> bool {
    k.len() == K_ID_LEN_BYTES
}

/// Position of the most significant set bit of a byte, or -1 for zero.
pub open spec fn spec_byte_msb(x: u8) -> int {
    if x >= 128 { 7 }
    else if x >= 64 { 6 }
    else if x >= 32 { 5 }
    else if x >= 16 { 4 }
    else if x >= 8 { 3 }
    else if x >= 4 { 2 }
    else if x >= 2 { 1 }
    else if x >= 1 { 0 }
    else { -1 }
}

/// The distance between two equally long byte strings is their bytewise XOR;
/// this gives one byte of it.
pub open spec fn spec_xor_byte(a: Seq<u8>, b: Seq<u8>, i: int) -> u8 {
    (a[i] ^ b[i]) as u8
}

/// Bucket index of the distance between `a` and `b`: the bit position of the
/// most significant set bit of the XOR, where byte 0 is most significant.
/// `None` when the keys are equal (distance zero).
pub open spec fn spec_bucket_index(a: Seq<u8>, b: Seq<u8>) -> Option<int>
    decreases a.len(),
{
    if a.len() == 0 || a.len() != b.len() {
        None
    } else if a[0] != b[0] {
        Some((a.len() - 1) * 8 + spec_byte_msb(spec_xor_byte(a, b, 0)))
    } else {
        spec_bucket_index(a.skip(1), b.skip(1))
    }
}

/// Two keys have a bucket index exactly when they differ somewhere.
pub proof fn lemma_bucket_index_some(a: Seq<u8>, b: Seq<u8>)
    requires
        a.len() == b.len(),
    ensures
        (spec_bucket_index(a, b) is Some) <==> (a.len() > 0 && a != b),
    decreases a.len(),
{
    if a.len() == 0 {
        assert(a =~= b);
        assert(spec_bucket_index(a, b) is None);
    } else if a[0] != b[0] {
        let x = a[0];
        let y = b[0];
        assert(x ^ y != 0) by (bit_vector)
            requires x != y;
        assert(spec_byte_msb(spec_xor_byte(a, b, 0)) >= 0);
        assert(spec_bucket_index(a, b) is Some);
        assert(a != b) by {
            if a == b {
                assert(a[0] == b[0]);
            }
        }
    } else {
        lemma_bucket_index_some(a.skip(1), b.skip(1));
        assert(spec_bucket_index(a, b) == spec_bucket_index(a.skip(1), b.skip(1)));
        if a.skip(1) == b.skip(1) {
            assert forall|i: int| 0 <= i < a.len() implies a[i] == b[i] by {
                if i > 0 {
                    assert(a[i] == a.skip(1)[i - 1]);
                    assert(b[i] == b.skip(1)[i - 1]);
                }
            }
            assert(a =~= b);
        } else {
            if a.len() == 1 {
                assert(a.skip(1) =~= b.skip(1));
            }
            assert(a != b) by {
                if a == b {
                    assert(a.skip(1) =~= b.skip(1));
                }
            }
        }
    }
}

/// Exec counterpart of `spec_byte_msb` for nonzero bytes.
fn byte_msb(x: u8) -> (r: usize)
    requires
        x != 0,
    ensures
        r == spec_byte_msb(x),
        r <= 7,
{
    if x >= 128 { 7 }
    else if x >= 64 { 6 }
    else if x >= 32 { 5 }
    else if x >= 16 { 4 }
    else if x >= 8 { 3 }
    else if x >= 4 { 2 }
    else if x >= 2 { 1 }
    else { 0 }
}

/// Compare two byte strings for equality of contents.
pub fn keys_equal(a: &Vec<u8>, b: &Vec<u8>) -> (r: bool)
    ensures
        r <==> a@ == b@,
{
    if a.len() != b.len() {
        return false;
    }
    let mut i: usize = 0;
    while i < a.len()
        invariant
            i <= a.len(),
            a@.len() == b@.len(),
            forall|j: int| 0 <= j < i ==> a@[j] == b@[j],
        decreases a.len() - i,
    {
        if a[i] != b[i] {
            return false;
        }
        i += 1;
    }
    proof {
        assert(a@ =~= b@);
    }
    true
}

/// Copy a byte string.
pub fn clone_bytes(v: &Vec<u8>) -> (r: Vec<u8>)
    ensures
        r@ == v@,
{
    let mut out: Vec<u8> = Vec::new();
    let mut i: usize = 0;
    while i < v.len()
        invariant
            i <= v.len(),
            out@ == v@.take(i as int),
        decreases v.len() - i,
    {
        out.push(v[i]);
        proof {
            assert(out@ =~= v@.take(i + 1));
        }
        i += 1;
    }
    proof {
        assert(v@.take(v@.len() as int) =~= v@);
    }
    out
}

/// When two keys agree before position `j` and differ there, the bucket
/// index is decided by byte `j` alone.
pub proof fn lemma_bucket_index_first_diff(a: Seq<u8>, b: Seq<u8>, j: int)
    requires
        a.len() == b.len(),
        0 <= j < a.len(),
        forall|i: int| 0 <= i < j ==> a[i] == b[i],
        a[j] != b[j],
    ensures
        spec_bucket_index(a, b) == Some(
            (a.len() - 1 - j) * 8 + spec_byte_msb((a[j] ^ b[j]) as u8),
        ),
    decreases j,
{
    if j == 0 {
    } else {
        assert(a[0] == b[0]);
        let sa = a.skip(1);
        let sb = b.skip(1);
        assert forall|i: int| 0 <= i < j - 1 implies sa[i] == sb[i] by {
            assert(sa[i] == a[i + 1]);
            assert(sb[i] == b[i + 1]);
        }
        assert(sa[j - 1] == a[j]);
        assert(sb[j - 1] == b[j]);
        lemma_bucket_index_first_diff(sa, sb, j - 1);
    }
}

/// A key drawn at random from the distance band `index` of `root`: equal in
/// every bit above `index`, different in bit `index`. Idle-bucket refresh
/// probes with such keys so the answers land in the idle bucket.
pub fn random_key_in_bucket(root: &Vec<u8>, index: usize) -> (r: BinaryKey)
    requires
        wf_key(root@),
        index < crate::K_ID_LEN_BITS,
    ensures
        wf_key(r@),
        spec_bucket_index(root@, r@) == Some(index as int),
{
    let byte_i = K_ID_LEN_BYTES - 1 - index / 8;
    let bit: usize = index % 8;
    let mut out: Vec<u8> = Vec::new();
    let mut i: usize = 0;
    while i < byte_i
        invariant
            i <= byte_i < K_ID_LEN_BYTES,
            root@.len() == K_ID_LEN_BYTES,
            out@.len() == i,
            forall|j: int| 0 <= j < i ==> #[trigger] out@[j] == root@[j],
        decreases byte_i - i,
    {
        out.push(root[i]);
        i += 1;
    }
    proof {
        let b8 = bit;
        assert((1u8 << b8) >= 1 && (b8 == 0 ==> (1u8 << b8) == 1) && (b8 == 1 ==> (1u8 << b8)
            == 2) && (b8 == 2 ==> (1u8 << b8) == 4) && (b8 == 3 ==> (1u8 << b8) == 8) && (b8
            == 4 ==> (1u8 << b8) == 16) && (b8 == 5 ==> (1u8 << b8) == 32) && (b8 == 6 ==> (
        1u8 << b8) == 64) && (b8 == 7 ==> (1u8 << b8) == 128)) by (bit_vector)
            requires b8 < 8;
    }
    let pow: u8 = 1u8 << bit;
    let low: u8 = if bit == 0 {
        0
    } else {
        crate::random::random_below(pow as usize) as u8
    };
    let mask: u8 = pow | low;
    proof {
        let b8 = bit;
        let lo = low;
        let pw = pow;
        assert(pw <= (pw | lo) && (pw | lo) < pw + pw) by (bit_vector)
            requires
                pw == 1u8 << b8,
                b8 < 8,
                lo < pw || lo == 0,
        ;
        assert(spec_byte_msb(mask) == bit as int);
    }
    out.push(root[byte_i] ^ mask);
    let mut t: usize = byte_i + 1;
    while t < K_ID_LEN_BYTES
        invariant
            byte_i + 1 <= t <= K_ID_LEN_BYTES,
            byte_i < K_ID_LEN_BYTES,
            root@.len() == K_ID_LEN_BYTES,
            out@.len() == t,
            forall|j: int| 0 <= j < byte_i ==> #[trigger] out@[j] == root@[j],
            out@[byte_i as int] == (root@[byte_i as int] ^ mask),
        decreases K_ID_LEN_BYTES - t,
    {
        out.push(crate::random::random_below(256) as u8);
        t += 1;
    }
    proof {
        let rb = root@[byte_i as int];
        assert(rb ^ (rb ^ mask) == mask) by (bit_vector);
        assert(rb != (rb ^ mask)) by (bit_vector)
            requires mask != 0;
        lemma_bucket_index_first_diff(root@, out@, byte_i as int);
        assert((root@.len() - 1 - byte_i) * 8 + spec_byte_msb(mask) == index as int);
    }
    out
}

/// Bucket index of the XOR distance between two keys of equal length, or
/// `None` when they are equal.
pub fn bucket_index_of(a: &Vec<u8>, b: &Vec<u8>) -> (r: Option<usize>)
    requires
        a@.len() == b@.len(),
        a@.len() <= K_ID_LEN_BYTES,
    ensures
        match r {
            Some(ix) => spec_bucket_index(a@, b@) == Some(ix as int)
                && ix < a@.len() * 8,
            None => spec_bucket_index(a@, b@) is None,
        },
{
    let n = a.len();
    proof {
        assert(a@.skip(0) =~= a@);
        assert(b@.skip(0) =~= b@);
    }
    let mut i: usize = 0;
    while i < n
        invariant
            i <= n,
            n == a@.len(),
            a@.len() == b@.len(),
            a@.len() <= K_ID_LEN_BYTES,
            forall|j: int| 0 <= j < i ==> a@[j] == b@[j],
            spec_bucket_index(a@, b@) == spec_bucket_index(a@.skip(i as int), b@.skip(i as int)),
        decreases n - i,
    {
        if a[i] != b[i] {
            let x = a[i] ^ b[i];
            proof {
                let xa = a@[i as int];
                let xb = b@[i as int];
                assert(xa ^ xb != 0) by (bit_vector)
                    requires xa != xb;
                assert(a@.skip(i as int)[0] == a@[i as int]);
                assert(b@.skip(i as int)[0] == b@[i as int]);
                assert(spec_xor_byte(a@.skip(i as int), b@.skip(i as int), 0) == x);
            }
            let m = byte_msb(x);
            proof {
                assert(spec_bucket_index(a@.skip(i as int), b@.skip(i as int))
                    == Some((a@.len() - i - 1) * 8 + spec_byte_msb(x)));
            }
            return Some((n - i - 1) * 8 + m);
        }
        proof {
            let sa = a@.skip(i as int);
            let sb = b@.skip(i as int);
            assert(sa[0] == sb[0]);
            assert(sa.skip(1) =~= a@.skip(i + 1));
            assert(sb.skip(1) =~= b@.skip(i + 1));
        }
        i += 1;
    }
    proof {
        assert(a@.skip(n as int) =~= Seq::<u8>::empty());
        assert(b@.skip(n as int) =~= Seq::<u8>::empty());
    }
    None
}

} // verus!
