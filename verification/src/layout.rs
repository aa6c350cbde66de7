//! Sizes of encoded pages.

use vstd::prelude::*;

use crate::error::StorageError;
use crate::error::StorageFault;
use crate::page::PageNumber;

verus! {

/// Longest key or value that a table accepts.
pub const MAX_VALUE_LENGTH: usize = 3 * 1024 * 1024 * 1024;

/// Longest key and value, taken together, that a table accepts.
pub const MAX_PAIR_LENGTH: usize = 3 * 1024 * 1024 * 1024 + 768 * 1024 * 1024;

/// Bytes of an encoded page number.
pub const PAGE_NUMBER_BYTES: usize = 8;

/// Bytes of an encoded page checksum.
pub const CHECKSUM_BYTES: usize = 16;

/// Bytes of one entry of an offset table.
pub const OFFSET_BYTES: usize = 4;

/// Most records in a leaf, and most separators in a branch: both counts are encoded in two bytes.
pub const MAX_PAGE_ENTRIES: usize = 65535;

/// Largest encoded page, in bytes.
///
/// Offsets within a page are 32 bits wide. Where `usize` has no more than 32 bits itself, a page
/// also has to fit in one allocation.
pub open spec fn max_encoded_page() -> nat {
    if usize::BITS <= 32 {
        isize::MAX as nat
    } else {
        u32::MAX as nat
    }
}

/// Bytes of an offset table with `entries` entries. Items of fixed width need none.
pub open spec fn offset_table_bytes(entries: nat, fixed_width: Option<usize>) -> nat {
    if fixed_width is None {
        OFFSET_BYTES as nat * entries
    } else {
        0
    }
}

/// Bytes of a leaf page with `pairs` records whose keys and values take `payload` bytes: a header,
/// an offset table for the keys and one for the values, and the payload.
pub open spec fn leaf_bytes(
    pairs: nat,
    payload: nat,
    key_width: Option<usize>,
    value_width: Option<usize>,
) -> nat {
    4 + offset_table_bytes(pairs, key_width) + offset_table_bytes(pairs, value_width) + payload
}

/// Bytes of a branch page with `keys` separators that take `key_bytes` bytes: a header, a page
/// number and a checksum for each of the `keys + 1` children, an offset table for the separators,
/// and the separators.
pub open spec fn branch_bytes(keys: nat, key_bytes: nat, key_width: Option<usize>) -> nat {
    8 + PAGE_NUMBER_BYTES as nat * (keys + 1) + CHECKSUM_BYTES as nat * (keys + 1)
        + offset_table_bytes(keys, key_width) + key_bytes
}

/// Fewer and shorter separators need a smaller branch page.
pub proof fn lemma_branch_bytes_monotone(
    keys: nat,
    key_bytes: nat,
    more_keys: nat,
    more_bytes: nat,
    key_width: Option<usize>,
)
    requires
        keys <= more_keys,
        key_bytes <= more_bytes,
    ensures
        branch_bytes(keys, key_bytes, key_width) <= branch_bytes(more_keys, more_bytes, key_width),
{
}

/// `bytes` where `usize` can hold it.
pub open spec fn representable(bytes: nat) -> Option<usize> {
    if bytes <= usize::MAX {
        Some(bytes as usize)
    } else {
        None
    }
}

/// The size that an error reports: `usize::MAX` stands for everything that `usize` cannot hold.
pub open spec fn reported_size(bytes: nat) -> usize {
    if bytes <= usize::MAX {
        bytes as usize
    } else {
        usize::MAX
    }
}

/// Largest encoded page, in bytes; see [`max_encoded_page`].
pub fn max_encoded_page_bytes() -> (bytes: usize)
    ensures
        bytes == max_encoded_page(),
{
    if usize::BITS <= 32 {
        isize::MAX as usize
    } else {
        u32::MAX as usize
    }
}

/// Encoded size of a leaf page, or `None` where `usize` cannot hold it.
pub fn leaf_required_bytes(
    pairs: usize,
    payload_bytes: usize,
    fixed_key_size: Option<usize>,
    fixed_value_size: Option<usize>,
) -> (bytes: Option<usize>)
    ensures
        bytes == representable(
            leaf_bytes(pairs as nat, payload_bytes as nat, fixed_key_size, fixed_value_size),
        ),
{
    let mut bytes: usize = 4;
    if fixed_key_size.is_none() {
        bytes = bytes.checked_add(pairs.checked_mul(OFFSET_BYTES)?)?;
    }
    if fixed_value_size.is_none() {
        bytes = bytes.checked_add(pairs.checked_mul(OFFSET_BYTES)?)?;
    }
    bytes.checked_add(payload_bytes)
}

/// Encoded size of a branch page, or `None` where `usize` cannot hold it.
pub fn branch_required_bytes(
    keys: usize,
    key_bytes: usize,
    fixed_key_size: Option<usize>,
) -> (bytes: Option<usize>)
    ensures
        bytes == representable(branch_bytes(keys as nat, key_bytes as nat, fixed_key_size)),
{
    let child_bytes: usize = PageNumber::serialized_size().checked_add(CHECKSUM_BYTES)?;
    let children: usize = keys.checked_add(1)?;
    assert(child_bytes * children == 24 * children) by (nonlinear_arith)
        requires
            child_bytes == 24,
    ;
    let mut bytes: usize = 8usize.checked_add(child_bytes.checked_mul(children)?)?;
    if fixed_key_size.is_none() {
        bytes = bytes.checked_add(keys.checked_mul(OFFSET_BYTES)?)?;
    }
    bytes.checked_add(key_bytes)
}

/// Encoded size of a leaf page with one record. Fails where no page can have that size.
pub fn single_record_bytes(
    key_len: usize,
    value_len: usize,
    fixed_key_size: Option<usize>,
    fixed_value_size: Option<usize>,
) -> (result: Result<usize, StorageError>)
    ensures
        ({
            let size = leaf_bytes(
                1,
                key_len as nat + value_len as nat,
                fixed_key_size,
                fixed_value_size,
            );
            match result {
                Ok(bytes) => size <= max_encoded_page() && bytes == size,
                Err(error) => size > max_encoded_page() && error@ == StorageFault::ValueTooLarge(
                    reported_size(size),
                ),
            }
        }),
{
    let payload: usize = match key_len.checked_add(value_len) {
        Some(bytes) => bytes,
        None => {
            return Err(StorageError::ValueTooLarge(usize::MAX));
        },
    };
    match leaf_required_bytes(1, payload, fixed_key_size, fixed_value_size) {
        Some(bytes) => if bytes > max_encoded_page_bytes() {
            Err(StorageError::ValueTooLarge(bytes))
        } else {
            Ok(bytes)
        },
        None => Err(StorageError::ValueTooLarge(usize::MAX)),
    }
}

/// A leaf page has a header of four bytes. Each record adds its key and its value, and four bytes
/// for the offset of each that varies in width.
pub proof fn law_leaf_grows_by_its_records(
    pairs: nat,
    payload: nat,
    key_len: nat,
    value_len: nat,
    key_width: Option<usize>,
    value_width: Option<usize>,
)
    ensures
        leaf_bytes(0, 0, key_width, value_width) == 4,
        leaf_bytes(pairs + 1, payload + key_len + value_len, key_width, value_width) - leaf_bytes(
            pairs,
            payload,
            key_width,
            value_width,
        ) == key_len + value_len + (if key_width is None {
            4int
        } else {
            0
        }) + (if value_width is None {
            4int
        } else {
            0
        }),
        leaf_bytes(pairs, payload + key_len, key_width, value_width) == leaf_bytes(
            pairs,
            payload,
            key_width,
            value_width,
        ) + key_len,
{
}

/// A branch page has a header of eight bytes and 24 bytes for its first child. Each further child
/// adds 24 bytes and its separator, and four bytes for the offset of a separator that varies in
/// width.
pub proof fn law_branch_grows_by_its_children(
    keys: nat,
    key_bytes: nat,
    key_len: nat,
    key_width: Option<usize>,
)
    ensures
        branch_bytes(0, 0, key_width) == 32,
        branch_bytes(keys + 1, key_bytes + key_len, key_width) - branch_bytes(
            keys,
            key_bytes,
            key_width,
        ) == 24 + key_len + (if key_width is None {
            4int
        } else {
            0
        }),
        branch_bytes(keys, key_bytes + key_len, key_width) == branch_bytes(
            keys,
            key_bytes,
            key_width,
        ) + key_len,
{
}

/// The largest page has the largest size that both a 32-bit offset and an allocation can have.
pub proof fn law_largest_page_is_bounded_twice()
    ensures
        max_encoded_page() <= u32::MAX,
        max_encoded_page() <= isize::MAX,
        max_encoded_page() == u32::MAX || max_encoded_page() == isize::MAX,
{
}

/// A size is told exactly where `usize` can hold it. In an error, the largest `usize` stands for
/// all sizes beyond.
pub proof fn law_sizes_are_told_exactly(bytes: nat)
    ensures
        representable(bytes) matches Some(told) ==> told == bytes,
        representable(bytes) is None <==> bytes > usize::MAX,
        bytes <= usize::MAX ==> reported_size(bytes) == bytes,
        bytes > usize::MAX ==> reported_size(bytes) == usize::MAX,
{
}

/// A key or a value may have three GiB, both together three quarters of a GiB more; and entries of
/// a page are counted in sixteen bits.
pub proof fn law_limits_of_records_and_pages()
    ensures
        MAX_VALUE_LENGTH == 0xc000_0000,
        MAX_PAIR_LENGTH == 0xf000_0000,
        MAX_PAGE_ENTRIES == u16::MAX,
        PAGE_NUMBER_BYTES == 8,
        CHECKSUM_BYTES == 16,
        OFFSET_BYTES == 4,
{
}

} // verus!
