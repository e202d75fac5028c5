//! Reading MAR files.
//!
//! Layout of an archive (all integers are 4-byte big-endian):
//! the magic bytes `MAR1`, the offset of the index, the number of signatures,
//! then from byte 16 the signature block (`tag, length, payload` for each
//! signature), optionally followed by an additional block (`count, ...`).
//! At the index offset stands the byte length of the index region, followed by
//! the entries `offset, length, flags, name, NUL`.
use crate::{items_view, FormatError, ItemModel, MarFileInfo, MarItem, MAX_SIGNATURE_LENGTH,
    MAX_SIZE_OF_MAR_FILE};
use byteorder::ByteOrder;
use vstd::prelude::*;
use vstd::slice::{slice_subrange, slice_to_vec};

verus! {

/// Magic bytes found at the start of a MAR file: `MAR1`.
pub open spec fn mar_id() -> Seq<u8> {
    seq![77u8, 65u8, 82u8, 49u8]
}

/// Position of the signature block within the file, directly after the 16-byte header.
pub const SIGNATURE_BLOCK_OFFSET: usize = 16;

/// In an old-style MAR file with no signature block, the content starts right
/// after the magic bytes and the 4-byte index offset.
pub const OLD_STYLE_CONTENT_OFFSET: u32 = 8;

/// The big-endian integer held by the four bytes of `s` from `p` on.
pub open spec fn be_u32(s: Seq<u8>, p: int) -> u32 {
    (s[p] as int * 0x1000000 + s[p + 1] as int * 0x10000 + s[p + 2] as int * 0x100
        + s[p + 3] as int) as u32
}

/// The four bytes that hold `x` in big-endian order.
pub open spec fn be_bytes(x: u32) -> Seq<u8> {
    seq![(x >> 24) as u8, (x >> 16) as u8, (x >> 8) as u8, x as u8]
}

/// Reading back the bytes of `x` gives `x`.
pub proof fn lemma_be_bytes(s: Seq<u8>, p: int, x: u32)
    requires
        0 <= p,
        p + 4 <= s.len(),
        s.subrange(p, p + 4) == be_bytes(x),
    ensures
        be_u32(s, p) == x,
{
    let a = s[p];
    let b = s[p + 1];
    let c = s[p + 2];
    let d = s[p + 3];
    assert(a == s.subrange(p, p + 4)[0]);
    assert(b == s.subrange(p, p + 4)[1]);
    assert(c == s.subrange(p, p + 4)[2]);
    assert(d == s.subrange(p, p + 4)[3]);
    assert((a as u32) * 0x1000000 + (b as u32) * 0x10000 + (c as u32) * 0x100 + (d as u32) == x)
        by (bit_vector)
        requires
            a == (x >> 24) as u8,
            b == (x >> 16) as u8,
            c == (x >> 8) as u8,
            d == x as u8,
    ;
}

/// The text that the bytes `b` encode in UTF-8, if they are valid UTF-8.
pub uninterp spec fn utf8_text(b: Seq<u8>) -> Option<Seq<char>>;

/// Relies on byteorder's `BigEndian::read_u32`: the first four bytes of the
/// slice it is given, read as a big-endian integer.
#[verifier::external_body]
fn read_be_u32(s: &[u8], pos: usize) -> (r: u32)
    requires
        pos + 4 <= s@.len(),
    ensures
        r == be_u32(s@, pos as int),
{
    byteorder::BigEndian::read_u32(&s[pos..pos + 4])
}

/// Relies on `String::from_utf8`: succeeds exactly on valid UTF-8, with the
/// text it encodes.
#[verifier::external_body]
fn decode_utf8(b: Vec<u8>) -> (r: Option<String>)
    ensures
        r.is_some() == utf8_text(b@).is_some(),
        r.is_some() ==> r.unwrap()@ == utf8_text(b@).unwrap(),
{
    String::from_utf8(b).ok()
}

/// The checks that every reader makes first: the magic bytes, then the size
/// ceiling.
pub open spec fn check_header(s: Seq<u8>) -> Result<(), FormatError> {
    if s.len() < 4 {
        Err(FormatError::Truncated)
    } else if s.subrange(0, 4) != mar_id() {
        Err(FormatError::BadMagic)
    } else if s.len() > MAX_SIZE_OF_MAR_FILE {
        Err(FormatError::Overflow)
    } else {
        Ok(())
    }
}

/// Where the walk over `n` signatures that starts at `pos` ends: each one is
/// a 4-byte tag, a 4-byte length and that many bytes. Positions may run past
/// the end of the stream, as a seek may; reading a length there may not.
pub open spec fn skip_signatures(s: Seq<u8>, pos: int, n: nat) -> Result<int, FormatError>
    decreases n,
{
    if n == 0 {
        Ok(pos)
    } else if pos + 8 > s.len() {
        Err(FormatError::Truncated)
    } else if be_u32(s, pos + 4) > MAX_SIGNATURE_LENGTH {
        Err(FormatError::Overflow)
    } else {
        skip_signatures(s, pos + 8 + be_u32(s, pos + 4), (n - 1) as nat)
    }
}

/// The metadata of the archive `s`, or why it cannot be read.
///
/// A signature block is present when the first entry's content does not
/// start right after the old-style header. An additional block is present
/// when the content starts exactly where the signature block ends.
pub open spec fn info_of(s: Seq<u8>) -> Result<MarFileInfo, FormatError> {
    if let Err(e) = check_header(s) {
        Err(e)
    } else if s.len() < 12 {
        Err(FormatError::Truncated)
    } else {
        let index = be_u32(s, 4) as int;
        let num_signatures = be_u32(s, 8);
        if index + 4 > s.len() {
            Err(FormatError::Truncated)
        } else {
            let content = be_u32(s, index);
            match skip_signatures(s, SIGNATURE_BLOCK_OFFSET as int, num_signatures as nat) {
                Err(e) => Err(e),
                Ok(pos) => if pos > u32::MAX {
                    Err(FormatError::Overflow)
                } else if pos == content && pos + 4 > s.len() {
                    Err(FormatError::Truncated)
                } else {
                    Ok(MarFileInfo {
                        has_signature_block: content != OLD_STYLE_CONTENT_OFFSET,
                        num_signatures,
                        has_additional_blocks: pos == content,
                        offset_additional_blocks: pos as u32,
                        num_additional_blocks: if pos == content { be_u32(s, pos) } else { 0 },
                    })
                },
            }
        }
    }
}


/// `z` is the position of the first NUL byte of `s` in `[from, end)`.
pub open spec fn is_first_nul(s: Seq<u8>, from: int, end: int, z: int) -> bool {
    from <= z < end && s[z] == 0 && forall|k: int| from <= k < z ==> s[k] != 0
}

/// The position of the first NUL byte of `s` in `[from, end)`, or `end` if
/// there is none.
pub open spec fn first_nul(s: Seq<u8>, from: int, end: int) -> int {
    if exists|z: int| is_first_nul(s, from, end, z) {
        choose|z: int| is_first_nul(s, from, end, z)
    } else {
        end
    }
}

/// The entry that starts at `pos` in the index region that ends at `end`,
/// with the position right after it.
pub open spec fn parse_entry(s: Seq<u8>, pos: int, end: int) -> Result<(ItemModel, int), FormatError> {
    if pos + 12 > end {
        Err(FormatError::Truncated)
    } else {
        let z = first_nul(s, pos + 12, end);
        if z >= end {
            Err(FormatError::Truncated)
        } else {
            match utf8_text(s.subrange(pos + 12, z)) {
                None => Err(FormatError::InvalidName),
                Some(name) => Ok(
                    (
                        ItemModel {
                            offset: be_u32(s, pos),
                            length: be_u32(s, pos + 4),
                            flags: be_u32(s, pos + 8),
                            name,
                        },
                        z + 1,
                    ),
                ),
            }
        }
    }
}

/// The entries that fill the index region `[pos, end)` exactly, in order.
pub open spec fn parse_entries(s: Seq<u8>, pos: int, end: int) -> Result<Seq<ItemModel>, FormatError>
    decreases end - pos,
{
    if pos >= end {
        Ok(seq![])
    } else {
        match parse_entry(s, pos, end) {
            Err(e) => Err(e),
            Ok((item, next)) => match parse_entries(s, next, end) {
                Err(e) => Err(e),
                Ok(rest) => Ok(seq![item] + rest),
            },
        }
    }
}

/// The index of the archive `s`, or why it cannot be read.
pub open spec fn index_of(s: Seq<u8>) -> Result<Seq<ItemModel>, FormatError> {
    if let Err(e) = check_header(s) {
        Err(e)
    } else if s.len() < 8 {
        Err(FormatError::Truncated)
    } else {
        let index = be_u32(s, 4) as int;
        if index + 4 > s.len() {
            Err(FormatError::Truncated)
        } else {
            let size = be_u32(s, index) as int;
            if index + 4 + size > s.len() {
                Err(FormatError::Truncated)
            } else {
                parse_entries(s, index + 4, index + 4 + size)
            }
        }
    }
}

pub(crate) proof fn lemma_first_nul_found(s: Seq<u8>, from: int, end: int, z: int)
    requires
        is_first_nul(s, from, end, z),
    ensures
        first_nul(s, from, end) == z,
{
    let c = choose|c: int| is_first_nul(s, from, end, c);
    assert(is_first_nul(s, from, end, c));
    if c < z {
        assert(s[c] != 0);
    } else if c > z {
        assert(s[z] != 0);
    }
}

/// Checks the magic bytes, then the size ceiling.
fn check_magic(s: &[u8]) -> (r: Result<(), FormatError>)
    ensures
        r == check_header(s@),
{
    if s.len() < 4 {
        return Err(FormatError::Truncated);
    }
    if !(s[0] == 77u8 && s[1] == 65u8 && s[2] == 82u8 && s[3] == 49u8) {
        proof {
            if s@.subrange(0, 4) == mar_id() {
                assert(s@.subrange(0, 4)[0] == mar_id()[0]);
                assert(s@.subrange(0, 4)[1] == mar_id()[1]);
                assert(s@.subrange(0, 4)[2] == mar_id()[2]);
                assert(s@.subrange(0, 4)[3] == mar_id()[3]);
            }
        }
        return Err(FormatError::BadMagic);
    }
    assert(s@.subrange(0, 4) =~= mar_id());
    if s.len() > MAX_SIZE_OF_MAR_FILE {
        return Err(FormatError::Overflow);
    }
    Ok(())
}

/// Read metadata from a MAR file.
pub fn get_info(archive: &[u8]) -> (r: Result<MarFileInfo, FormatError>)
    ensures
        r == info_of(archive@),
{
    if let Err(e) = check_magic(archive) {
        return Err(e);
    }
    if archive.len() < 12 {
        return Err(FormatError::Truncated);
    }
    let offset_to_index = read_be_u32(archive, 4);
    let num_signatures = read_be_u32(archive, 8);

    // Read the first entry's offset to content, at the start of the index.
    if offset_to_index as usize > archive.len() - 4 {
        return Err(FormatError::Truncated);
    }
    let offset_to_content = read_be_u32(archive, offset_to_index as usize);
    let has_signature_block = offset_to_content != OLD_STYLE_CONTENT_OFFSET;

    // Skip past all the signatures.
    let mut pos: usize = SIGNATURE_BLOCK_OFFSET;
    let mut i: u32 = 0;
    while i < num_signatures
        invariant
            12 <= archive@.len() <= MAX_SIZE_OF_MAR_FILE,
            check_header(archive@) is Ok,
            num_signatures == be_u32(archive@, 8),
            be_u32(archive@, 4) + 4 <= archive@.len(),
            i <= num_signatures,
            pos <= archive@.len() + 8 + MAX_SIGNATURE_LENGTH,
            skip_signatures(archive@, SIGNATURE_BLOCK_OFFSET as int, num_signatures as nat)
                == skip_signatures(archive@, pos as int, (num_signatures - i) as nat),
        decreases num_signatures - i,
    {
        if pos > archive.len() - 8 {
            return Err(FormatError::Truncated);
        }
        let signature_len = read_be_u32(archive, pos + 4);
        if signature_len > MAX_SIGNATURE_LENGTH {
            return Err(FormatError::Overflow);
        }
        pos = pos + 8 + signature_len as usize;
        i = i + 1;
    }

    // Check for additional blocks.
    if pos > u32::MAX as usize {
        return Err(FormatError::Overflow);
    }
    let offset_additional_blocks = pos as u32;
    let has_additional_blocks = offset_additional_blocks == offset_to_content;
    let num_additional_blocks = if has_additional_blocks {
        if pos > archive.len() - 4 {
            return Err(FormatError::Truncated);
        }
        read_be_u32(archive, pos)
    } else {
        0
    };
    Ok(MarFileInfo {
        has_signature_block,
        num_signatures,
        has_additional_blocks,
        offset_additional_blocks,
        num_additional_blocks,
    })
}


/// Read the index from a MAR file: its entries in on-disk order.
pub fn read_index(archive: &[u8]) -> (r: Result<Vec<MarItem>, FormatError>)
    ensures
        match r {
            Ok(items) => index_of(archive@) == Ok::<Seq<ItemModel>, FormatError>(items_view(items@)),
            Err(e) => index_of(archive@) == Err::<Seq<ItemModel>, FormatError>(e),
        },
{
    if let Err(e) = check_magic(archive) {
        return Err(e);
    }
    if archive.len() < 8 {
        return Err(FormatError::Truncated);
    }
    let offset_to_index = read_be_u32(archive, 4);
    if offset_to_index as usize > archive.len() - 4 {
        return Err(FormatError::Truncated);
    }
    let size_of_index = read_be_u32(archive, offset_to_index as usize);
    let start = offset_to_index as usize + 4;
    if size_of_index as usize > archive.len() - start {
        return Err(FormatError::Truncated);
    }
    let end = start + size_of_index as usize;

    // Read each item from the index.
    let mut items: Vec<MarItem> = Vec::new();
    let mut pos = start;
    while pos < end
        invariant
            start <= pos <= end <= archive@.len(),
            index_of(archive@) == parse_entries(archive@, start as int, end as int),
            parse_entries(archive@, start as int, end as int) == match parse_entries(
                archive@,
                pos as int,
                end as int,
            ) {
                Ok(rest) => Ok(items_view(items@) + rest),
                Err(e) => Err::<Seq<ItemModel>, FormatError>(e),
            },
        decreases end - pos,
    {
        match read_next_item(archive, pos, end) {
            Err(e) => {
                return Err(e);
            },
            Ok((item, next)) => {
                let ghost before = items_view(items@);
                items.push(item);
                proof {
                    assert(items_view(items@) =~= before.push(item@));
                    if let Ok(rest) = parse_entries(archive@, next as int, end as int) {
                        assert(before + (seq![item@] + rest) =~= items_view(items@) + rest);
                    }
                }
                pos = next;
            },
        }
    }
    assert(items_view(items@) + seq![] =~= items_view(items@));
    Ok(items)
}

/// Read a single entry from the index region `[pos, end)`.
fn read_next_item(s: &[u8], pos: usize, end: usize) -> (r: Result<(MarItem, usize), FormatError>)
    requires
        pos < end <= s@.len(),
    ensures
        match r {
            Ok((item, next)) => parse_entry(s@, pos as int, end as int) == Ok::<(ItemModel, int), FormatError>(
                (item@, next as int),
            ),
            Err(e) => parse_entry(s@, pos as int, end as int) == Err::<(ItemModel, int), FormatError>(e),
        },
{
    if end - pos < 12 {
        return Err(FormatError::Truncated);
    }
    let offset = read_be_u32(s, pos);
    let length = read_be_u32(s, pos + 4);
    let flags = read_be_u32(s, pos + 8);

    // The name runs up to the next NUL byte.
    let mut z = pos + 12;
    while z < end && s[z] != 0
        invariant
            pos + 12 <= z <= end <= s@.len(),
            forall|k: int| pos + 12 <= k < z ==> s@[k] != 0,
        decreases end - z,
    {
        z = z + 1;
    }
    if z >= end {
        proof {
            let from = pos + 12;
            if exists|c: int| is_first_nul(s@, from, end as int, c) {
                let c = choose|c: int| is_first_nul(s@, from, end as int, c);
                assert(s@[c] != 0);
            }
        }
        return Err(FormatError::Truncated);
    }
    proof {
        lemma_first_nul_found(s@, pos + 12, end as int, z as int);
    }
    let name = slice_to_vec(slice_subrange(s, pos + 12, z));
    match decode_utf8(name) {
        None => Err(FormatError::InvalidName),
        Some(name) => Ok((MarItem { offset, length, flags, name }, z + 1)),
    }
}


/// A stream whose first four bytes are not `MAR1` is refused with `BadMagic`
/// by both readers, whatever follows.
pub proof fn lemma_bad_magic(s: Seq<u8>)
    requires
        s.len() >= 4,
        s.subrange(0, 4) != mar_id(),
    ensures
        info_of(s) == Err::<MarFileInfo, FormatError>(FormatError::BadMagic),
        index_of(s) == Err::<Seq<ItemModel>, FormatError>(FormatError::BadMagic),
{
}

/// An index region whose declared length exceeds the bytes that follow its
/// length field is refused with `Truncated`.
pub proof fn lemma_index_too_long(s: Seq<u8>)
    requires
        check_header(s) is Ok,
        s.len() >= 8,
        be_u32(s, 4) + 4 <= s.len(),
        be_u32(s, be_u32(s, 4) as int) > s.len() - (be_u32(s, 4) + 4),
    ensures
        index_of(s) == Err::<Seq<ItemModel>, FormatError>(FormatError::Truncated),
{
}

/// An old-style archive, with no signature and whose content starts right
/// after the 8-byte header, has neither a signature block nor an additional
/// block.
pub proof fn lemma_no_optional_blocks(s: Seq<u8>)
    requires
        check_header(s) is Ok,
        s.len() >= 12,
        be_u32(s, 8) == 0,
        be_u32(s, 4) + 4 <= s.len(),
        be_u32(s, be_u32(s, 4) as int) == OLD_STYLE_CONTENT_OFFSET,
    ensures
        info_of(s) == Ok::<MarFileInfo, FormatError>(
            MarFileInfo {
                has_signature_block: false,
                num_signatures: 0,
                has_additional_blocks: false,
                offset_additional_blocks: SIGNATURE_BLOCK_OFFSET as u32,
                num_additional_blocks: 0,
            },
        ),
{
}


/// The sum of the values of `v`.
pub open spec fn total(v: Seq<u32>) -> int
    decreases v.len(),
{
    if v.len() == 0 {
        0
    } else {
        v[0] + total(v.skip(1))
    }
}

/// Where the `k`-th of the signatures with payload lengths `lens`, laid one
/// after the other from `pos`, starts.
pub open spec fn signature_start(pos: int, lens: Seq<u32>, k: int) -> int {
    pos + 8 * k + total(lens.take(k))
}

/// From `pos` on, `s` holds signatures whose declared payload lengths are
/// `lens`, each within the ceiling.
pub open spec fn declares_signatures(s: Seq<u8>, pos: int, lens: Seq<u32>) -> bool {
    forall|k: int|
        0 <= k < lens.len() ==> {
            &&& #[trigger] signature_start(pos, lens, k) + 8 <= s.len()
            &&& be_u32(s, signature_start(pos, lens, k) + 4) == lens[k]
            &&& lens[k] <= MAX_SIGNATURE_LENGTH
        }
}

proof fn lemma_total_nonneg(v: Seq<u32>)
    ensures
        total(v) >= 0,
    decreases v.len(),
{
    if v.len() > 0 {
        lemma_total_nonneg(v.skip(1));
    }
}

proof fn lemma_signatures_from(s: Seq<u8>, pos: int, lens: Seq<u32>)
    requires
        declares_signatures(s, pos, lens),
    ensures
        skip_signatures(s, pos, lens.len()) == Ok::<int, FormatError>(
            pos + 8 * lens.len() + total(lens),
        ),
    decreases lens.len(),
{
    if lens.len() > 0 {
        let rest = lens.skip(1);
        let next = pos + 8 + lens[0];
        assert(signature_start(pos, lens, 0) == pos) by {
            assert(lens.take(0) =~= Seq::<u32>::empty());
        }
        assert forall|k: int| 0 <= k < rest.len() implies #[trigger] signature_start(next, rest, k)
            == signature_start(pos, lens, k + 1) by {
            assert(lens.take(k + 1)[0] == lens[0]);
            assert(lens.take(k + 1).skip(1) =~= rest.take(k));
        }
        assert forall|k: int| 0 <= k < rest.len() implies {
            &&& #[trigger] signature_start(next, rest, k) + 8 <= s.len()
            &&& be_u32(s, signature_start(next, rest, k) + 4) == rest[k]
            &&& rest[k] <= MAX_SIGNATURE_LENGTH
        } by {
            assert(signature_start(pos, lens, k + 1) + 8 <= s.len());
        }
        assert(signature_start(pos, lens, 0) + 8 <= s.len());
        lemma_signatures_from(s, next, rest);
        assert((lens.len() - 1) as nat == rest.len());
    }
}

/// The signature walk skips every signature whatever its declared length
/// within the ceiling, zero included: it ends `8 * N` bytes plus the sum of
/// the payload lengths after the signature block's start, and the metadata
/// reports that position as the additional block's offset.
pub proof fn lemma_skip_all_signatures(s: Seq<u8>, lens: Seq<u32>)
    requires
        declares_signatures(s, SIGNATURE_BLOCK_OFFSET as int, lens),
    ensures
        skip_signatures(s, SIGNATURE_BLOCK_OFFSET as int, lens.len()) == Ok::<int, FormatError>(
            SIGNATURE_BLOCK_OFFSET + 8 * lens.len() + total(lens),
        ),
        info_of(s) is Ok && s.len() >= 12 && be_u32(s, 8) == lens.len()
            ==> info_of(s)->Ok_0.offset_additional_blocks == SIGNATURE_BLOCK_OFFSET + 8
            * lens.len() + total(lens),
{
    lemma_signatures_from(s, SIGNATURE_BLOCK_OFFSET as int, lens);
    lemma_total_nonneg(lens);
    if info_of(s) is Ok && s.len() >= 12 && be_u32(s, 8) == lens.len() {
        assert(be_u32(s, 8) as nat == lens.len());
    }
}

} // verus!
