//! Bytes of names: UTF-8, NUL terminators, byte order, little-endian words.

use vstd::prelude::*;
use vstd::string::*;
use vstd::utf8::*;

verus! {

/// No byte of `bytes` is zero.
pub open spec fn no_nul(bytes: Seq<u8>) -> bool {
    forall|i: int| 0 <= i < bytes.len() ==> #[trigger] bytes[i] != 0
}

/// `name` can stand before a NUL terminator: its UTF-8 form holds no zero
/// byte.
pub open spec fn is_c_name(name: Seq<char>) -> bool {
    no_nul(encode_utf8(name))
}

/// The number of bytes of `bytes` before the first one that equals `b`, and
/// the whole length if none does.
pub open spec fn index_of_byte(bytes: Seq<u8>, b: u8) -> int
    decreases bytes.len(),
{
    if bytes.len() == 0 || bytes[0] == b {
        0
    } else {
        1 + index_of_byte(bytes.drop_first(), b)
    }
}

/// `index_of_byte` is the one position `k` such that no byte before `k`
/// equals `b` and `k` is the end or holds `b`.
pub proof fn lemma_index_of_byte(bytes: Seq<u8>, b: u8, k: int)
    requires
        0 <= k <= bytes.len(),
        forall|i: int| 0 <= i < k ==> #[trigger] bytes[i] != b,
        k < bytes.len() ==> bytes[k] == b,
    ensures
        index_of_byte(bytes, b) == k,
    decreases bytes.len(),
{
    if k > 0 {
        assert(bytes[0] != b);
        let tail = bytes.drop_first();
        assert forall|i: int| 0 <= i < k - 1 implies #[trigger] tail[i] != b by {
            assert(bytes[i + 1] != b);
        }
        lemma_index_of_byte(tail, b, k - 1);
    }
}

/// What `index_of_byte` stands for.
pub proof fn lemma_index_of_byte_is_first(bytes: Seq<u8>, b: u8)
    ensures
        0 <= index_of_byte(bytes, b) <= bytes.len(),
        forall|i: int| 0 <= i < index_of_byte(bytes, b) ==> #[trigger] bytes[i] != b,
        index_of_byte(bytes, b) < bytes.len() ==> bytes[index_of_byte(bytes, b)] == b,
    decreases bytes.len(),
{
    if bytes.len() == 0 || bytes[0] == b {
    } else {
        let tail = bytes.drop_first();
        lemma_index_of_byte_is_first(tail, b);
        let k = index_of_byte(tail, b);
        assert forall|i: int| 0 <= i < k + 1 implies #[trigger] bytes[i] != b by {
            if i > 0 {
                assert(tail[i - 1] != b);
            }
        }
    }
}

/// The four bytes of `x`, least significant first.
pub open spec fn le32(x: u32) -> Seq<u8> {
    seq![
        (x % 256) as u8,
        ((x / 256) % 256) as u8,
        ((x / 256 / 256) % 256) as u8,
        (x / 256 / 256 / 256) as u8,
    ]
}

/// The word whose least significant byte comes first in `b0`, `b1`, `b2`, `b3`.
pub open spec fn from_le32(b0: u8, b1: u8, b2: u8, b3: u8) -> u32 {
    (b0 + 256 * b1 + 65536 * b2 + 16777216 * b3) as u32
}

/// The two bytes of `x`, least significant first.
pub open spec fn le16(x: u16) -> Seq<u8> {
    seq![(x % 256) as u8, (x / 256) as u8]
}

/// Reading the four bytes of a word gives the word.
pub proof fn lemma_le32_decode(x: u32)
    ensures
        le32(x).len() == 4,
        from_le32(le32(x)[0], le32(x)[1], le32(x)[2], le32(x)[3]) == x,
{
    let q1 = x / 256;
    let q2 = q1 / 256;
    let q3 = q2 / 256;
    assert(x == 256 * q1 + x % 256);
    assert(q1 == 256 * q2 + q1 % 256);
    assert(q2 == 256 * q3 + q2 % 256);
    assert(q3 < 256);
}

/// The bytes of a word read from four bytes are those bytes.
pub proof fn lemma_le32_encode(b0: u8, b1: u8, b2: u8, b3: u8)
    ensures
        le32(from_le32(b0, b1, b2, b3)) == seq![b0, b1, b2, b3],
{
    let y = from_le32(b0, b1, b2, b3);
    let t1: int = b1 + 256 * b2 + 65536 * b3;
    let t2: int = b2 + 256 * b3;
    assert(y == 256 * t1 + b0);
    assert(y / 256 == t1 && y % 256 == b0);
    assert(t1 == 256 * t2 + b1);
    assert(t1 / 256 == t2 && t1 % 256 == b1);
    assert(t2 / 256 == b3 && t2 % 256 == b2);
    assert(le32(y) =~= seq![b0, b1, b2, b3]);
}

/// `a` comes before `b` in the order of byte strings: at the first place
/// where they differ `a` has the smaller byte, or `a` is a proper prefix of
/// `b`.
pub open spec fn bytes_lt(a: Seq<u8>, b: Seq<u8>) -> bool
    decreases a.len(),
{
    if b.len() == 0 {
        false
    } else if a.len() == 0 {
        true
    } else if a[0] != b[0] {
        a[0] < b[0]
    } else {
        bytes_lt(a.drop_first(), b.drop_first())
    }
}

/// Turns bytes into a `String` with `String::from_utf8`: the result is
/// `Some` exactly when the bytes are valid UTF-8, and then holds the
/// characters that they encode.
#[verifier::external_body]
pub(crate) fn string_from_utf8(bytes: Vec<u8>) -> (r: Option<String>)
    ensures
        r is Some <==> valid_utf8(bytes@),
        r matches Some(s) ==> s@ == decode_utf8(bytes@),
{
    String::from_utf8(bytes).ok()
}

/// Whether two byte strings are equal.
pub fn bytes_eq(a: &[u8], b: &[u8]) -> (r: bool)
    ensures
        r == (a@ == b@),
{
    if a.len() != b.len() {
        return false;
    }
    let mut i: usize = 0;
    while i < a.len()
        invariant
            a.len() == b.len(),
            i <= a.len(),
            forall|j: int| 0 <= j < i ==> a@[j] == b@[j],
        decreases a.len() - i,
    {
        if a[i] != b[i] {
            return false;
        }
        i += 1;
    }
    assert(a@ =~= b@);
    true
}

/// Whether `bytes` begins with `prefix`.
pub fn bytes_start_with(bytes: &[u8], prefix: &[u8]) -> (r: bool)
    ensures
        r == prefix@.is_prefix_of(bytes@),
{
    if prefix.len() > bytes.len() {
        return false;
    }
    let mut i: usize = 0;
    while i < prefix.len()
        invariant
            prefix.len() <= bytes.len(),
            i <= prefix.len(),
            forall|j: int| 0 <= j < i ==> bytes@[j] == prefix@[j],
        decreases prefix.len() - i,
    {
        if bytes[i] != prefix[i] {
            assert(bytes@.subrange(0, prefix@.len() as int)[i as int] != prefix@[i as int]);
            return false;
        }
        i += 1;
    }
    assert(prefix@ =~= bytes@.subrange(0, prefix@.len() as int));
    true
}

/// Whether two strings hold the same characters.
pub fn str_eq(a: &str, b: &str) -> (r: bool)
    ensures
        r == (a@ == b@),
{
    proof {
        encode_utf8_decode_utf8(a@);
        encode_utf8_decode_utf8(b@);
    }
    bytes_eq(a.as_bytes(), b.as_bytes())
}

/// Whether `s` holds no NUL, so that it can be written before a terminator.
pub fn is_c_str(s: &str) -> (r: bool)
    ensures
        r == is_c_name(s@),
{
    let bytes = s.as_bytes();
    let mut i: usize = 0;
    while i < bytes.len()
        invariant
            bytes@ == encode_utf8(s@),
            i <= bytes.len(),
            forall|j: int| 0 <= j < i ==> bytes@[j] != 0,
        decreases bytes.len() - i,
    {
        if bytes[i] == 0 {
            assert(encode_utf8(s@)[i as int] == 0);
            return false;
        }
        i += 1;
    }
    true
}

/// Appends the four bytes of `x`, least significant first.
pub fn push_le32(out: &mut Vec<u8>, x: u32)
    ensures
        final(out)@ == old(out)@ + le32(x),
{
    out.push((x % 256) as u8);
    out.push(((x / 256) % 256) as u8);
    out.push(((x / 256 / 256) % 256) as u8);
    out.push((x / 256 / 256 / 256) as u8);
    assert(out@ =~= old(out)@ + le32(x));
}

/// Appends `bytes`.
pub fn push_bytes(out: &mut Vec<u8>, bytes: &[u8])
    ensures
        final(out)@ == old(out)@ + bytes@,
{
    let mut i: usize = 0;
    while i < bytes.len()
        invariant
            i <= bytes.len(),
            out@ == old(out)@ + bytes@.take(i as int),
        decreases bytes.len() - i,
    {
        out.push(bytes[i]);
        i += 1;
        assert(out@ =~= old(out)@ + bytes@.take(i as int));
    }
    assert(bytes@.take(i as int) =~= bytes@);
}

/// The bytes of `data` from `from` up to `to`.
pub fn copy_range(data: &[u8], from: usize, to: usize) -> (r: Vec<u8>)
    requires
        from <= to <= data.len(),
    ensures
        r@ == data@.subrange(from as int, to as int),
{
    let mut r: Vec<u8> = Vec::new();
    let mut i: usize = from;
    while i < to
        invariant
            from <= i <= to <= data.len(),
            r@ == data@.subrange(from as int, i as int),
        decreases to - i,
    {
        r.push(data[i]);
        i += 1;
        assert(r@ =~= data@.subrange(from as int, i as int));
    }
    r
}

/// The place of the first `b` among the bytes of `data` from `from` up to
/// `to`, or `to` if there is none.
pub fn find_byte(data: &[u8], from: usize, to: usize, b: u8) -> (k: usize)
    requires
        from <= to <= data.len(),
    ensures
        from <= k <= to,
        k - from == index_of_byte(data@.subrange(from as int, to as int), b),
        forall|i: int| from <= i < k ==> data@[i] != b,
        k < to ==> data@[k as int] == b,
{
    let mut k: usize = from;
    while k < to && data[k] != b
        invariant
            from <= k <= to <= data.len(),
            forall|i: int| from <= i < k ==> data@[i] != b,
        decreases to - k,
    {
        k += 1;
    }
    proof {
        let s = data@.subrange(from as int, to as int);
        assert forall|i: int| 0 <= i < k - from implies #[trigger] s[i] != b by {
            assert(s[i] == data@[from + i]);
        }
        if k < to {
            assert(s[k - from] == data@[k as int]);
        }
        lemma_index_of_byte(s, b, k - from);
    }
    k
}

} // verus!
