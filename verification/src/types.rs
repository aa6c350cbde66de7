//! Key and value types of tables.

use std::cmp::Ordering;

use vstd::bytes::spec_u64_from_le_bytes;
use vstd::bytes::spec_u64_to_le_bytes;
use vstd::prelude::*;

use crate::order::lemma_lex_between;
use crate::order::lemma_lex_irreflexive;
use crate::order::lemma_lex_skip;
use crate::order::lemma_lex_transitive;
use crate::order::lex_less;
use crate::page::pairs_view;
use crate::page::Pair;
use crate::text::is_utf8;

verus! {

/// A type whose values a table can store as bytes.
pub trait Value {
    /// The borrowed form in which values are handed over.
    type SelfType<'a>;

    /// Width of every encoding, where all encodings have the same width.
    spec fn width() -> Option<usize>;

    /// The encoding of a value.
    spec fn encoding<'a>(value: Self::SelfType<'a>) -> Seq<u8>;

    /// The byte strings that encode some value.
    spec fn is_encoding(bytes: Seq<u8>) -> bool;

    /// The name under which tables record the type.
    spec fn name() -> Seq<char>;

    /// Width of every encoding, or `None` where encodings vary in width.
    fn fixed_width() -> (width: Option<usize>)
        ensures
            width == Self::width(),
    ;

    /// Encodes a value.
    fn as_bytes<'a>(value: &Self::SelfType<'a>) -> (bytes: Vec<u8>)
        ensures
            bytes@ == Self::encoding(*value),
            Self::is_encoding(bytes@),
    ;

    /// Tells whether the bytes encode some value.
    fn check_encoding(bytes: &[u8]) -> (valid: bool)
        ensures
            valid == Self::is_encoding(bytes@),
    ;

    /// The name under which tables record the type.
    fn stored_name() -> (name: String)
        ensures
            name@ == Self::name(),
    ;
}

/// A type whose values can be the keys of a table: their encodings are ordered.
pub trait Key: Value {
    /// `a` encodes a smaller key than `b`.
    spec fn precedes(a: Seq<u8>, b: Seq<u8>) -> bool;

    /// No key is smaller than itself.
    proof fn precedes_irreflexive(a: Seq<u8>)
        ensures
            !Self::precedes(a, a),
    ;

    /// A key smaller than a smaller key is smaller.
    proof fn precedes_transitive(a: Seq<u8>, b: Seq<u8>, c: Seq<u8>)
        requires
            Self::precedes(a, b),
            Self::precedes(b, c),
        ensures
            Self::precedes(a, c),
    ;

    /// No key compares alike with both of two ordered keys.
    proof fn precedes_between(a: Seq<u8>, b: Seq<u8>, c: Seq<u8>)
        requires
            Self::precedes(a, c),
        ensures
            Self::precedes(a, b) || Self::precedes(b, c),
    ;

    /// Compares two encoded keys.
    fn compare(data1: &[u8], data2: &[u8]) -> (order: Ordering)
        requires
            Self::is_encoding(data1@),
            Self::is_encoding(data2@),
        ensures
            order is Less <==> Self::precedes(data1@, data2@),
            order is Greater <==> Self::precedes(data2@, data1@),
    ;
}

/// Neither of two encoded keys is smaller than the other.
pub open spec fn same_key<K: Key>(a: Seq<u8>, b: Seq<u8>) -> bool {
    !K::precedes(a, b) && !K::precedes(b, a)
}

/// Tells whether `data1` encodes a smaller key than `data2`.
pub fn is_smaller<K: Key>(data1: &Vec<u8>, data2: &Vec<u8>) -> (smaller: bool)
    requires
        K::is_encoding(data1@),
        K::is_encoding(data2@),
    ensures
        smaller == K::precedes(data1@, data2@),
{
    match K::compare(data1.as_slice(), data2.as_slice()) {
        Ordering::Less => true,
        _ => false,
    }
}

/// Tells whether neither of two encoded keys is smaller than the other.
pub fn is_same<K: Key>(data1: &Vec<u8>, data2: &Vec<u8>) -> (same: bool)
    requires
        K::is_encoding(data1@),
        K::is_encoding(data2@),
    ensures
        same == same_key::<K>(data1@, data2@),
{
    match K::compare(data1.as_slice(), data2.as_slice()) {
        Ordering::Equal => true,
        _ => false,
    }
}

/// The keys of the records increase strictly.
pub open spec fn is_sorted<K: Key>(pairs: Seq<Pair>) -> bool {
    forall|i: int, j: int|
        0 <= i < j < pairs.len() ==> K::precedes(#[trigger] pairs[i].0, #[trigger] pairs[j].0)
}

/// The keys of the records encode keys of the given type.
pub open spec fn has_keys_of<K: Key>(pairs: Seq<Pair>) -> bool {
    forall|i: int| 0 <= i < pairs.len() ==> K::is_encoding(#[trigger] pairs[i].0)
}

/// Tells whether the records have keys of the given type that increase strictly.
pub fn has_sorted_keys<K: Key>(pairs: &Vec<(Vec<u8>, Vec<u8>)>) -> (sorted: bool)
    ensures
        sorted == (is_sorted::<K>(pairs_view(pairs@)) && has_keys_of::<K>(pairs_view(pairs@))),
{
    let ghost all = pairs_view(pairs@);
    let mut i: usize = 0;
    while i < pairs.len()
        invariant
            i <= pairs@.len(),
            all == pairs_view(pairs@),
            is_sorted::<K>(all.take(i as int)),
            has_keys_of::<K>(all.take(i as int)),
        decreases pairs@.len() - i,
    {
        let ghost before = all.take(i as int);
        let ghost after = all.take(i + 1);
        assert(all[i as int].0 == pairs@[i as int].0@);
        if !K::check_encoding(pairs[i].0.as_slice()) {
            return false;
        }
        if i > 0 {
            assert(before[i - 1].0 == pairs@[i - 1].0@);
            assert(all[i - 1].0 == pairs@[i - 1].0@);
            if !is_smaller::<K>(&pairs[i - 1].0, &pairs[i].0) {
                return false;
            }
        }
        proof {
            assert forall|j: int, k: int| 0 <= j < k < after.len() implies K::precedes(
                #[trigger] after[j].0,
                #[trigger] after[k].0,
            ) by {
                if k < i {
                    assert(K::precedes(before[j].0, before[k].0));
                } else if j < i - 1 {
                    assert(K::precedes(before[j].0, before[i - 1].0));
                    K::precedes_transitive(after[j].0, after[i - 1].0, after[k].0);
                }
            }
            assert forall|j: int| 0 <= j < after.len() implies K::is_encoding(
                #[trigger] after[j].0,
            ) by {
                if j < i {
                    assert(K::is_encoding(before[j].0));
                }
            }
        }
        i = i + 1;
    }
    assert(all.take(i as int) =~= all);
    true
}

/// The bytes as integers.
pub open spec fn byte_values(bytes: Seq<u8>) -> Seq<int> {
    bytes.map_values(|b: u8| b as int)
}

/// The two integers that the halves of a sixteen-byte string encode, least significant byte first.
pub open spec fn word_values(bytes: Seq<u8>) -> Seq<int> {
    seq![
        spec_u64_from_le_bytes(bytes.subrange(0, 8)) as int,
        spec_u64_from_le_bytes(bytes.subrange(8, 16)) as int,
    ]
}

/// Orders two byte strings lexicographically.
fn compare_bytes(a: &[u8], b: &[u8]) -> (order: Ordering)
    ensures
        order is Less <==> lex_less(byte_values(a@), byte_values(b@)),
        order is Greater <==> lex_less(byte_values(b@), byte_values(a@)),
{
    let ghost x = byte_values(a@);
    let ghost y = byte_values(b@);
    let mut i: usize = 0;
    while i < a.len() && i < b.len() && a[i] == b[i]
        invariant
            i <= a@.len(),
            i <= b@.len(),
            x == byte_values(a@),
            y == byte_values(b@),
            forall|j: int| 0 <= j < i ==> x[j] == y[j],
        decreases a@.len() - i,
    {
        i = i + 1;
    }
    proof {
        lemma_skip_bytes(x, y, i);
        lemma_skip_bytes(y, x, i);
    }
    if i < a.len() && i < b.len() {
        if a[i] < b[i] {
            Ordering::Less
        } else {
            Ordering::Greater
        }
    } else if i < b.len() {
        Ordering::Less
    } else if i < a.len() {
        Ordering::Greater
    } else {
        Ordering::Equal
    }
}

/// Sequences that first differ at position `n` are ordered by their elements there.
proof fn lemma_skip_bytes(x: Seq<int>, y: Seq<int>, n: usize)
    requires
        n <= x.len(),
        n <= y.len(),
        forall|i: int| 0 <= i < n ==> x[i] == y[i],
        n < x.len() && n < y.len() ==> x[n as int] != y[n as int],
    ensures
        lex_less(x, y) <==> n < y.len() && (n == x.len() || x[n as int] < y[n as int]),
{
    lemma_lex_skip(x, y, n as nat);
}

impl Value for u64 {
    type SelfType<'a> = u64;

    open spec fn width() -> Option<usize> {
        Some(8)
    }

    open spec fn encoding<'a>(value: u64) -> Seq<u8> {
        spec_u64_to_le_bytes(value)
    }

    open spec fn is_encoding(bytes: Seq<u8>) -> bool {
        bytes.len() == 8
    }

    open spec fn name() -> Seq<char> {
        "u64"@
    }

    fn fixed_width() -> (width: Option<usize>) {
        Some(8)
    }

    fn as_bytes<'a>(value: &u64) -> (bytes: Vec<u8>) {
        proof {
            vstd::bytes::lemma_auto_spec_u64_to_from_le_bytes();
        }
        vstd::bytes::u64_to_le_bytes(*value)
    }

    fn check_encoding(bytes: &[u8]) -> (valid: bool) {
        bytes.len() == 8
    }

    fn stored_name() -> (name: String) {
        "u64".to_owned()
    }
}

impl Key for u64 {
    open spec fn precedes(a: Seq<u8>, b: Seq<u8>) -> bool {
        spec_u64_from_le_bytes(a) < spec_u64_from_le_bytes(b)
    }

    proof fn precedes_irreflexive(a: Seq<u8>) {
    }

    proof fn precedes_transitive(a: Seq<u8>, b: Seq<u8>, c: Seq<u8>) {
    }

    proof fn precedes_between(a: Seq<u8>, b: Seq<u8>, c: Seq<u8>) {
    }

    fn compare(data1: &[u8], data2: &[u8]) -> (order: Ordering) {
        let x: u64 = vstd::bytes::u64_from_le_bytes(data1);
        let y: u64 = vstd::bytes::u64_from_le_bytes(data2);
        if x < y {
            Ordering::Less
        } else if x == y {
            Ordering::Equal
        } else {
            Ordering::Greater
        }
    }
}

impl Value for &str {
    type SelfType<'a> = &'a str;

    open spec fn width() -> Option<usize> {
        None
    }

    open spec fn encoding<'a>(value: &'a str) -> Seq<u8> {
        vstd::utf8::encode_utf8(value@)
    }

    open spec fn is_encoding(bytes: Seq<u8>) -> bool {
        vstd::utf8::valid_utf8(bytes)
    }

    open spec fn name() -> Seq<char> {
        "&str"@
    }

    fn fixed_width() -> (width: Option<usize>) {
        None
    }

    fn as_bytes<'a>(value: &&'a str) -> (bytes: Vec<u8>) {
        let text: &str = *value;
        proof {
            vstd::utf8::encode_utf8_valid_utf8(text@);
        }
        vstd::slice::slice_to_vec(text.as_bytes())
    }

    fn check_encoding(bytes: &[u8]) -> (valid: bool) {
        is_utf8(bytes)
    }

    fn stored_name() -> (name: String) {
        "&str".to_owned()
    }
}

impl Key for &str {
    open spec fn precedes(a: Seq<u8>, b: Seq<u8>) -> bool {
        lex_less(byte_values(a), byte_values(b))
    }

    proof fn precedes_irreflexive(a: Seq<u8>) {
        lemma_lex_irreflexive(byte_values(a));
    }

    proof fn precedes_transitive(a: Seq<u8>, b: Seq<u8>, c: Seq<u8>) {
        lemma_lex_transitive(byte_values(a), byte_values(b), byte_values(c));
    }

    proof fn precedes_between(a: Seq<u8>, b: Seq<u8>, c: Seq<u8>) {
        lemma_lex_between(byte_values(a), byte_values(b), byte_values(c));
    }

    fn compare(data1: &[u8], data2: &[u8]) -> (order: Ordering) {
        compare_bytes(data1, data2)
    }
}

impl Value for &[u8] {
    type SelfType<'a> = &'a [u8];

    open spec fn width() -> Option<usize> {
        None
    }

    open spec fn encoding<'a>(value: &'a [u8]) -> Seq<u8> {
        value@
    }

    open spec fn is_encoding(bytes: Seq<u8>) -> bool {
        true
    }

    open spec fn name() -> Seq<char> {
        "&[u8]"@
    }

    fn fixed_width() -> (width: Option<usize>) {
        None
    }

    fn as_bytes<'a>(value: &&'a [u8]) -> (bytes: Vec<u8>) {
        vstd::slice::slice_to_vec(*value)
    }

    fn check_encoding(bytes: &[u8]) -> (valid: bool) {
        true
    }

    fn stored_name() -> (name: String) {
        "&[u8]".to_owned()
    }
}

impl Key for &[u8] {
    open spec fn precedes(a: Seq<u8>, b: Seq<u8>) -> bool {
        lex_less(byte_values(a), byte_values(b))
    }

    proof fn precedes_irreflexive(a: Seq<u8>) {
        lemma_lex_irreflexive(byte_values(a));
    }

    proof fn precedes_transitive(a: Seq<u8>, b: Seq<u8>, c: Seq<u8>) {
        lemma_lex_transitive(byte_values(a), byte_values(b), byte_values(c));
    }

    proof fn precedes_between(a: Seq<u8>, b: Seq<u8>, c: Seq<u8>) {
        lemma_lex_between(byte_values(a), byte_values(b), byte_values(c));
    }

    fn compare(data1: &[u8], data2: &[u8]) -> (order: Ordering) {
        compare_bytes(data1, data2)
    }
}

impl Value for [u64; 2] {
    type SelfType<'a> = [u64; 2];

    open spec fn width() -> Option<usize> {
        Some(16)
    }

    open spec fn encoding<'a>(value: [u64; 2]) -> Seq<u8> {
        spec_u64_to_le_bytes(value@[0]) + spec_u64_to_le_bytes(value@[1])
    }

    open spec fn is_encoding(bytes: Seq<u8>) -> bool {
        bytes.len() == 16
    }

    open spec fn name() -> Seq<char> {
        "[u64;2]"@
    }

    fn fixed_width() -> (width: Option<usize>) {
        Some(16)
    }

    fn as_bytes<'a>(value: &[u64; 2]) -> (bytes: Vec<u8>) {
        proof {
            vstd::bytes::lemma_auto_spec_u64_to_from_le_bytes();
        }
        let mut bytes: Vec<u8> = vstd::bytes::u64_to_le_bytes(value[0]);
        let mut low: Vec<u8> = vstd::bytes::u64_to_le_bytes(value[1]);
        bytes.append(&mut low);
        bytes
    }

    fn check_encoding(bytes: &[u8]) -> (valid: bool) {
        bytes.len() == 16
    }

    fn stored_name() -> (name: String) {
        "[u64;2]".to_owned()
    }
}

impl Key for [u64; 2] {
    open spec fn precedes(a: Seq<u8>, b: Seq<u8>) -> bool {
        lex_less(word_values(a), word_values(b))
    }

    proof fn precedes_irreflexive(a: Seq<u8>) {
        lemma_lex_irreflexive(word_values(a));
    }

    proof fn precedes_transitive(a: Seq<u8>, b: Seq<u8>, c: Seq<u8>) {
        lemma_lex_transitive(word_values(a), word_values(b), word_values(c));
    }

    proof fn precedes_between(a: Seq<u8>, b: Seq<u8>, c: Seq<u8>) {
        lemma_lex_between(word_values(a), word_values(b), word_values(c));
    }

    fn compare(data1: &[u8], data2: &[u8]) -> (order: Ordering) {
        let x0: u64 = vstd::bytes::u64_from_le_bytes(vstd::slice::slice_subrange(data1, 0, 8));
        let y0: u64 = vstd::bytes::u64_from_le_bytes(vstd::slice::slice_subrange(data2, 0, 8));
        let x1: u64 = vstd::bytes::u64_from_le_bytes(vstd::slice::slice_subrange(data1, 8, 16));
        let y1: u64 = vstd::bytes::u64_from_le_bytes(vstd::slice::slice_subrange(data2, 8, 16));
        proof {
            reveal_with_fuel(lex_less, 3);
        }
        if x0 < y0 {
            Ordering::Less
        } else if x0 > y0 {
            Ordering::Greater
        } else if x1 < y1 {
            Ordering::Less
        } else if x1 > y1 {
            Ordering::Greater
        } else {
            Ordering::Equal
        }
    }
}

/// Records are sorted if each key is greater than all keys before it.
pub proof fn law_sorted_records_increase<K: Key>(pairs: Seq<Pair>, pair: Pair)
    ensures
        is_sorted::<K>(Seq::empty()),
        is_sorted::<K>(pairs.push(pair)) <==> is_sorted::<K>(pairs) && forall|i: int|
            0 <= i < pairs.len() ==> K::precedes(#[trigger] pairs[i].0, pair.0),
        has_keys_of::<K>(Seq::empty()),
        has_keys_of::<K>(pairs.push(pair)) <==> has_keys_of::<K>(pairs) && K::is_encoding(pair.0),
{
    let longer = pairs.push(pair);
    assert(longer[pairs.len() as int] == pair);
    assert(forall|i: int| 0 <= i < pairs.len() ==> #[trigger] longer[i] == pairs[i]);
    assert(forall|i: int| 0 <= i < pairs.len() ==> #[trigger] pairs[i] == longer[i]);
}

} // verus!
