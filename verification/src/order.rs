//! The order of byte strings and of fixes: what makes it an order.

use crate::format::fix_lt;
use crate::format::FixView;
use crate::text::bytes_lt;
use vstd::prelude::*;
use vstd::utf8::*;

verus! {

/// No byte string comes before itself.
pub proof fn lemma_bytes_lt_irreflexive(a: Seq<u8>)
    ensures
        !bytes_lt(a, a),
    decreases a.len(),
{
    if a.len() > 0 {
        lemma_bytes_lt_irreflexive(a.drop_first());
    }
}

/// Of two byte strings that differ, one comes before the other.
pub proof fn lemma_bytes_lt_total(a: Seq<u8>, b: Seq<u8>)
    ensures
        bytes_lt(a, b) || bytes_lt(b, a) || a == b,
    decreases a.len(),
{
    if a.len() == 0 || b.len() == 0 {
        if a.len() == 0 && b.len() == 0 {
            assert(a =~= b);
        }
    } else if a[0] == b[0] {
        lemma_bytes_lt_total(a.drop_first(), b.drop_first());
        if a.drop_first() == b.drop_first() {
            assert(a =~= seq![a[0]] + a.drop_first());
            assert(b =~= seq![b[0]] + b.drop_first());
        }
    }
}

/// No two byte strings come before each other.
pub proof fn lemma_bytes_lt_asymmetric(a: Seq<u8>, b: Seq<u8>)
    requires
        bytes_lt(a, b),
    ensures
        !bytes_lt(b, a),
    decreases a.len(),
{
    if a.len() > 0 && b.len() > 0 && a[0] == b[0] {
        lemma_bytes_lt_asymmetric(a.drop_first(), b.drop_first());
    }
}

/// What comes before a byte string comes before all that it comes before.
pub proof fn lemma_bytes_lt_transitive(a: Seq<u8>, b: Seq<u8>, c: Seq<u8>)
    requires
        bytes_lt(a, b),
        bytes_lt(b, c),
    ensures
        bytes_lt(a, c),
    decreases a.len(),
{
    if a.len() > 0 && b.len() > 0 && c.len() > 0 && a[0] == b[0] && b[0] == c[0] {
        lemma_bytes_lt_transitive(a.drop_first(), b.drop_first(), c.drop_first());
    }
}

/// Names with the same bytes are the same name.
pub proof fn lemma_encode_injective(a: Seq<char>, b: Seq<char>)
    requires
        encode_utf8(a) == encode_utf8(b),
    ensures
        a == b,
{
    encode_utf8_decode_utf8(a);
    encode_utf8_decode_utf8(b);
}

/// No fix comes before itself.
pub proof fn lemma_fix_lt_irreflexive(a: FixView)
    ensures
        !fix_lt(a, a),
{
    lemma_bytes_lt_irreflexive(encode_utf8(a.name));
}

/// Of two fixes that differ, one comes before the other.
pub proof fn lemma_fix_lt_total(a: FixView, b: FixView)
    ensures
        fix_lt(a, b) || fix_lt(b, a) || a == b,
{
    lemma_bytes_lt_total(encode_utf8(a.name), encode_utf8(b.name));
    if encode_utf8(a.name) == encode_utf8(b.name) {
        lemma_encode_injective(a.name, b.name);
    }
}

/// What comes before a fix comes before all that it comes before.
pub proof fn lemma_fix_lt_transitive(a: FixView, b: FixView, c: FixView)
    requires
        fix_lt(a, b),
        fix_lt(b, c),
    ensures
        fix_lt(a, c),
{
    let x = encode_utf8(a.name);
    let y = encode_utf8(b.name);
    let z = encode_utf8(c.name);
    if bytes_lt(x, y) && bytes_lt(y, z) {
        lemma_bytes_lt_transitive(x, y, z);
    }
}

/// No two fixes come before each other.
pub proof fn lemma_fix_lt_asymmetric(a: FixView, b: FixView)
    requires
        fix_lt(a, b),
    ensures
        !fix_lt(b, a),
{
    let x = encode_utf8(a.name);
    let y = encode_utf8(b.name);
    lemma_bytes_lt_irreflexive(x);
    if bytes_lt(x, y) {
        lemma_bytes_lt_asymmetric(x, y);
    }
    if bytes_lt(y, x) {
        lemma_bytes_lt_asymmetric(y, x);
    }
}

} // verus!
