//! What encodings and their order mean in terms of the values: an encoding determines its value,
//! and encoded keys are ordered as the keys are.

use vstd::bytes::lemma_auto_spec_u64_to_from_le_bytes;
use vstd::bytes::spec_u64_from_le_bytes;
use vstd::bytes::spec_u64_to_le_bytes;
use vstd::prelude::*;
use vstd::utf8::decode_utf8;
use vstd::utf8::decode_utf8_encode_utf8;
use vstd::utf8::encode_utf8;
use vstd::utf8::encode_utf8_decode_utf8;
use vstd::utf8::encode_utf8_valid_utf8;

use crate::order::lemma_lex_irreflexive;
use crate::order::lemma_lex_skip;
use crate::order::lex_less;
use crate::types::byte_values;
use crate::types::same_key;
use crate::types::word_values;
use crate::types::Key;
use crate::types::Value;

verus! {

/// The byte strings agree before position `n`, where `a` ends or has the smaller byte.
pub open spec fn is_smaller_at(a: Seq<u8>, b: Seq<u8>, n: int) -> bool {
    &&& 0 <= n <= a.len()
    &&& n < b.len()
    &&& forall|i: int| 0 <= i < n ==> a[i] == b[i]
    &&& n == a.len() || a[n] < b[n]
}

/// The position at which lexicographically ordered byte strings differ.
proof fn lemma_first_difference(a: Seq<u8>, b: Seq<u8>) -> (n: int)
    requires
        lex_less(byte_values(a), byte_values(b)),
    ensures
        is_smaller_at(a, b, n),
    decreases a.len(),
{
    let x = byte_values(a);
    let y = byte_values(b);
    if a.len() == 0 || x[0] < y[0] {
        0
    } else {
        assert(x.drop_first() =~= byte_values(a.drop_first()));
        assert(y.drop_first() =~= byte_values(b.drop_first()));
        let n = lemma_first_difference(a.drop_first(), b.drop_first());
        assert forall|i: int| 0 <= i < n + 1 implies a[i] == b[i] by {
            if i > 0 {
                assert(a.drop_first()[i - 1] == b.drop_first()[i - 1]);
            }
        }
        n + 1
    }
}

/// Byte strings are ordered by the first position at which they differ.
proof fn lemma_bytes_ordered_at(a: Seq<u8>, b: Seq<u8>, n: int)
    requires
        is_smaller_at(a, b, n),
    ensures
        lex_less(byte_values(a), byte_values(b)),
{
    let x = byte_values(a);
    let y = byte_values(b);
    lemma_lex_skip(x, y, n as nat);
    assert(y.skip(n).len() > 0);
    if n < a.len() {
        assert(x.skip(n)[0] == x[n]);
        assert(y.skip(n)[0] == y[n]);
    }
}

/// Sequences of which neither is smaller are equal.
proof fn lemma_lex_total(a: Seq<int>, b: Seq<int>)
    requires
        !lex_less(a, b),
        !lex_less(b, a),
    ensures
        a == b,
    decreases a.len(),
{
    if a.len() > 0 && b.len() > 0 {
        lemma_lex_total(a.drop_first(), b.drop_first());
        assert forall|i: int| 0 <= i < a.len() implies a[i] == b[i] by {
            if i > 0 {
                assert(a.drop_first()[i - 1] == b.drop_first()[i - 1]);
            }
        }
    }
    assert(a =~= b);
}

/// Byte strings of which neither is smaller are equal.
proof fn lemma_bytes_total(a: Seq<u8>, b: Seq<u8>)
    requires
        !lex_less(byte_values(a), byte_values(b)),
        !lex_less(byte_values(b), byte_values(a)),
    ensures
        a == b,
{
    let x = byte_values(a);
    let y = byte_values(b);
    lemma_lex_total(x, y);
    assert forall|i: int| 0 <= i < a.len() implies a[i] == b[i] by {
        assert(x[i] == a[i] && y[i] == b[i]);
    }
    assert(a =~= b);
}

/// A number is encoded in eight bytes, least significant first, from which it can be read again;
/// and any eight bytes encode a number.
pub proof fn law_number_is_read_back(value: u64, bytes: Seq<u8>)
    ensures
        spec_u64_from_le_bytes(<u64 as Value>::encoding(value)) == value,
        <u64 as Value>::encoding(value).len() == 8,
        <u64 as Value>::is_encoding(<u64 as Value>::encoding(value)),
        <u64 as Value>::width() == Some(8usize),
        <u64 as Value>::is_encoding(bytes) <==> bytes.len() == 8,
        bytes.len() == 8 ==> <u64 as Value>::encoding(spec_u64_from_le_bytes(bytes)) == bytes,
{
    lemma_auto_spec_u64_to_from_le_bytes();
}

/// Different numbers have different encodings.
pub proof fn law_numbers_are_told_apart(a: u64, b: u64)
    requires
        <u64 as Value>::encoding(a) == <u64 as Value>::encoding(b),
    ensures
        a == b,
{
    lemma_auto_spec_u64_to_from_le_bytes();
}

/// Encoded numbers are ordered as the numbers are.
pub proof fn law_numbers_are_ordered_by_value(a: u64, b: u64)
    ensures
        <u64 as Key>::precedes(<u64 as Value>::encoding(a), <u64 as Value>::encoding(b)) <==> a
            < b,
        same_key::<u64>(<u64 as Value>::encoding(a), <u64 as Value>::encoding(b)) <==> a == b,
{
    lemma_auto_spec_u64_to_from_le_bytes();
}

/// Encoded numbers that count as the same key are equal.
pub proof fn law_same_number_keys_are_equal(x: Seq<u8>, y: Seq<u8>)
    requires
        <u64 as Value>::is_encoding(x),
        <u64 as Value>::is_encoding(y),
        same_key::<u64>(x, y),
    ensures
        x == y,
{
    lemma_eight_bytes_are_a_number(x, y);
}

/// Eight bytes are determined by the number that they encode.
proof fn lemma_eight_bytes_are_a_number(x: Seq<u8>, y: Seq<u8>)
    requires
        x.len() == 8,
        y.len() == 8,
        spec_u64_from_le_bytes(x) == spec_u64_from_le_bytes(y),
    ensures
        x == y,
{
    lemma_auto_spec_u64_to_from_le_bytes();
    assert(spec_u64_to_le_bytes(spec_u64_from_le_bytes(x)) == x);
    assert(spec_u64_to_le_bytes(spec_u64_from_le_bytes(y)) == y);
}

/// A pair of numbers is encoded in sixteen bytes, from which both can be read again; and any
/// sixteen bytes encode a pair.
pub proof fn law_number_pair_is_read_back(value: [u64; 2], bytes: Seq<u8>)
    ensures
        ({
            let encoded = <[u64; 2] as Value>::encoding(value);
            &&& encoded.len() == 16
            &&& spec_u64_from_le_bytes(encoded.subrange(0, 8)) == value@[0]
            &&& spec_u64_from_le_bytes(encoded.subrange(8, 16)) == value@[1]
            &&& <[u64; 2] as Value>::is_encoding(encoded)
        }),
        <[u64; 2] as Value>::width() == Some(16usize),
        <[u64; 2] as Value>::is_encoding(bytes) <==> bytes.len() == 16,
{
    lemma_auto_spec_u64_to_from_le_bytes();
    let encoded = <[u64; 2] as Value>::encoding(value);
    assert(encoded.subrange(0, 8) =~= spec_u64_to_le_bytes(value@[0]));
    assert(encoded.subrange(8, 16) =~= spec_u64_to_le_bytes(value@[1]));
}

/// Different pairs of numbers have different encodings.
pub proof fn law_number_pairs_are_told_apart(a: [u64; 2], b: [u64; 2])
    requires
        <[u64; 2] as Value>::encoding(a) == <[u64; 2] as Value>::encoding(b),
    ensures
        a@ == b@,
{
    law_number_pair_is_read_back(a, Seq::empty());
    law_number_pair_is_read_back(b, Seq::empty());
    assert(a@ =~= b@);
}

/// Encoded pairs of numbers are ordered by the first number, and then by the second.
pub proof fn law_number_pairs_are_ordered_by_value(a: [u64; 2], b: [u64; 2])
    ensures
        <[u64; 2] as Key>::precedes(
            <[u64; 2] as Value>::encoding(a),
            <[u64; 2] as Value>::encoding(b),
        ) <==> a@[0] < b@[0] || (a@[0] == b@[0] && a@[1] < b@[1]),
{
    law_number_pair_is_read_back(a, Seq::empty());
    law_number_pair_is_read_back(b, Seq::empty());
    reveal_with_fuel(lex_less, 3);
}

/// Encoded pairs of numbers that count as the same key are equal.
pub proof fn law_same_number_pair_keys_are_equal(x: Seq<u8>, y: Seq<u8>)
    requires
        <[u64; 2] as Value>::is_encoding(x),
        <[u64; 2] as Value>::is_encoding(y),
        same_key::<[u64; 2]>(x, y),
    ensures
        x == y,
{
    let a = word_values(x);
    let b = word_values(y);
    lemma_lex_total(a, b);
    assert(a[0] == b[0] && a[1] == b[1]);
    lemma_eight_bytes_are_a_number(x.subrange(0, 8), y.subrange(0, 8));
    lemma_eight_bytes_are_a_number(x.subrange(8, 16), y.subrange(8, 16));
    assert(x =~= x.subrange(0, 8) + x.subrange(8, 16));
    assert(y =~= y.subrange(0, 8) + y.subrange(8, 16));
}

/// A byte string is encoded as it is.
pub proof fn law_bytes_are_read_back(value: &[u8], bytes: Seq<u8>)
    ensures
        <&[u8] as Value>::encoding(value) == value@,
        <&[u8] as Value>::is_encoding(bytes),
        <&[u8] as Value>::width() is None,
{
}

/// Byte strings are ordered lexicographically, by all of their bytes.
pub proof fn law_bytes_are_ordered_lexicographically(a: Seq<u8>, b: Seq<u8>)
    ensures
        <&[u8] as Key>::precedes(a, b) <==> exists|n: int| is_smaller_at(a, b, n),
        same_key::<&[u8]>(a, b) <==> a == b,
{
    lemma_bytes_order(a, b);
}

/// The lexicographic order of byte strings.
proof fn lemma_bytes_order(a: Seq<u8>, b: Seq<u8>)
    ensures
        lex_less(byte_values(a), byte_values(b)) <==> exists|n: int| is_smaller_at(a, b, n),
        !lex_less(byte_values(a), byte_values(b)) && !lex_less(byte_values(b), byte_values(a))
            <==> a == b,
{
    if lex_less(byte_values(a), byte_values(b)) {
        let n = lemma_first_difference(a, b);
        assert(is_smaller_at(a, b, n));
    }
    if exists|n: int| is_smaller_at(a, b, n) {
        let n = choose|n: int| is_smaller_at(a, b, n);
        lemma_bytes_ordered_at(a, b, n);
    }
    if !lex_less(byte_values(a), byte_values(b)) && !lex_less(byte_values(b), byte_values(a)) {
        lemma_bytes_total(a, b);
    }
    lemma_lex_irreflexive(byte_values(a));
}

/// Text is encoded in UTF-8, from which it can be read again; and any UTF-8 encodes some text.
pub proof fn law_text_is_read_back(value: &str, bytes: Seq<u8>)
    ensures
        decode_utf8(<&str as Value>::encoding(value)) == value@,
        <&str as Value>::encoding(value) == encode_utf8(value@),
        <&str as Value>::is_encoding(<&str as Value>::encoding(value)),
        <&str as Value>::is_encoding(bytes) <==> exists|text: Seq<char>|
            #[trigger] encode_utf8(text) == bytes,
        <&str as Value>::width() is None,
{
    encode_utf8_decode_utf8(value@);
    encode_utf8_valid_utf8(value@);
    if <&str as Value>::is_encoding(bytes) {
        decode_utf8_encode_utf8(bytes);
        assert(encode_utf8(decode_utf8(bytes)) == bytes);
    }
    if exists|text: Seq<char>| #[trigger] encode_utf8(text) == bytes {
        let text = choose|text: Seq<char>| #[trigger] encode_utf8(text) == bytes;
        encode_utf8_valid_utf8(text);
    }
}

/// Different texts have different encodings.
pub proof fn law_texts_are_told_apart(a: &str, b: &str)
    requires
        <&str as Value>::encoding(a) == <&str as Value>::encoding(b),
    ensures
        a@ == b@,
{
    encode_utf8_decode_utf8(a@);
    encode_utf8_decode_utf8(b@);
}

/// Encoded texts are ordered lexicographically, by all of their bytes; only equal texts count as
/// the same key.
pub proof fn law_texts_are_ordered_lexicographically(a: Seq<u8>, b: Seq<u8>)
    ensures
        <&str as Key>::precedes(a, b) <==> exists|n: int| is_smaller_at(a, b, n),
        same_key::<&str>(a, b) <==> a == b,
{
    lemma_bytes_order(a, b);
}

/// Neither of two encoded keys is smaller exactly where they count as the same key.
pub proof fn law_keys_are_ordered_or_the_same<K: Key>(a: Seq<u8>, b: Seq<u8>)
    ensures
        same_key::<K>(a, b) <==> !K::precedes(a, b) && !K::precedes(b, a),
        !(K::precedes(a, b) && K::precedes(b, a)),
        same_key::<K>(a, b) <==> same_key::<K>(b, a),
{
    if K::precedes(a, b) && K::precedes(b, a) {
        K::precedes_transitive(a, b, a);
        K::precedes_irreflexive(a);
    }
}

/// Tables of different types are told apart by the names under which they record their types.
pub proof fn law_types_are_told_apart()
    ensures
        <u64 as Value>::name() != <[u64; 2] as Value>::name(),
        <u64 as Value>::name() != <&str as Value>::name(),
        <u64 as Value>::name() != <&[u8] as Value>::name(),
        <[u64; 2] as Value>::name() != <&str as Value>::name(),
        <[u64; 2] as Value>::name() != <&[u8] as Value>::name(),
        <&str as Value>::name() != <&[u8] as Value>::name(),
        <u64 as Value>::name() == "u64"@,
        <[u64; 2] as Value>::name() == "[u64;2]"@,
        <&str as Value>::name() == "&str"@,
        <&[u8] as Value>::name() == "&[u8]"@,
{
    reveal_strlit("u64");
    reveal_strlit("[u64;2]");
    reveal_strlit("&str");
    reveal_strlit("&[u8]");
    assert("u64"@.len() == 3);
    assert("[u64;2]"@.len() == 7);
    assert("&str"@.len() == 4);
    assert("&[u8]"@.len() == 5);
}

} // verus!
