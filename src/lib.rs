//! Reading and extracting Mozilla Archive (MAR) files, the container format
//! used to deliver automatic updates to Firefox.
//!
//! The decoders work on the whole archive held in memory as bytes. Every
//! public function states, over the spec functions of [`read`] and
//! [`extract`], exactly what it returns for each input.
use vstd::prelude::*;

pub mod extract;
pub mod layout;
pub mod read;

verus! {

/// Archives larger than 500 MiB are refused, to protect against invalid files.
pub const MAX_SIZE_OF_MAR_FILE: usize = 500 * 1024 * 1024;

/// The largest signature that any signing tool produces or will produce.
pub const MAX_SIGNATURE_LENGTH: u32 = 2048;

/// Why a byte stream is not a well-formed archive.
#[derive(Debug, Clone, Copy, PartialEq, Eq, Structural)]
pub enum FormatError {
    /// The stream does not start with the magic bytes `MAR1`.
    BadMagic,
    /// A field or a region reaches past the end of the stream.
    Truncated,
    /// An entry's name is not valid UTF-8.
    InvalidName,
    /// A size or a position exceeds what the format can represent or allows.
    Overflow,
}

/// Metadata about an entire MAR file.
#[derive(Debug, Clone, Copy, PartialEq, Eq, Structural)]
pub struct MarFileInfo {
    pub has_signature_block: bool,
    pub num_signatures: u32,
    pub has_additional_blocks: bool,
    pub offset_additional_blocks: u32,
    pub num_additional_blocks: u32,
}

/// An entry in the MAR index.
#[derive(Debug, Clone)]
pub struct MarItem {
    /// Position of the item within the archive file.
    pub offset: u32,
    /// Length of data in bytes.
    pub length: u32,
    /// File mode bits.
    pub flags: u32,
    /// File path.
    pub name: String,
}

/// The mathematical value of a [`MarItem`]: its name as a sequence of characters.
pub struct ItemModel {
    pub offset: u32,
    pub length: u32,
    pub flags: u32,
    pub name: Seq<char>,
}

impl View for MarItem {
    type V = ItemModel;

    open spec fn view(&self) -> ItemModel {
        ItemModel { offset: self.offset, length: self.length, flags: self.flags, name: self.name@ }
    }
}

/// The values of a sequence of items, in the same order.
pub open spec fn items_view(v: Seq<MarItem>) -> Seq<ItemModel> {
    v.map_values(|m: MarItem| m@)
}

/// Round `n` up to the nearest multiple of `incr`.
pub fn round_up(n: usize, incr: usize) -> (r: usize)
    requires
        incr > 0,
        n + incr <= usize::MAX,
    ensures
        r % incr == 0,
        n <= r < n + incr,
{
    let rem = n % incr;
    if rem == 0 {
        n
    } else {
        let r = n + (incr - rem);
        proof {
            assert(n == incr * (n / incr) + rem) by (nonlinear_arith)
                requires incr > 0, rem == n % incr;
            assert(r == incr * (n / incr + 1)) by (nonlinear_arith)
                requires n == incr * (n / incr) + rem, r == n + (incr - rem);
            vstd::arithmetic::div_mod::lemma_mod_multiples_basic(n / incr + 1, incr as int);
            assert((n / incr + 1) * incr == incr * (n / incr + 1)) by (nonlinear_arith);
        }
        r
    }
}

/// An index entry contains three 4-byte fields, a name, and a 1-byte terminator.
///
/// * 4 bytes : OffsetToContent - Offset in bytes relative to start of the MAR file
/// * 4 bytes : ContentSize - Size in bytes of the content
/// * 4 bytes : Flags - File permission bits (in standard unix-style format).
/// * M bytes : FileName - File name (byte array)
/// * 1 byte  : null terminator
pub fn mar_item_size(name_len: usize) -> (r: usize)
    requires
        name_len + 13 <= usize::MAX,
    ensures
        r == 3 * 4 + name_len + 1,
{
    3 * 4 + name_len + 1
}

} // verus!
