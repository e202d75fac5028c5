//! Checking an archive's entries before anything is written to the filesystem.
//!
//! Extraction writes each entry's bytes to a file named by the entry, relative
//! to the output directory. Before the first write, every entry is checked:
//! its name must stay inside the output directory, and its content must lie
//! wholly inside the archive.
use crate::read::{index_of, read_index};
use crate::{items_view, FormatError, ItemModel, MarItem};
use vstd::prelude::*;

verus! {

/// Why an archive cannot be extracted.
#[derive(Debug, Clone, Copy, PartialEq, Eq, Structural)]
pub enum ExtractError {
    /// The archive is not well formed.
    Format(FormatError),
    /// An entry's content runs past the end of the archive.
    ShortRead,
    /// An entry's name would resolve outside the output directory.
    PathEscape,
}

/// A path separator on any platform.
pub open spec fn is_separator(c: char) -> bool {
    c == '/' || c == '\\'
}

/// The characters at `i` and `i + 1` of `name` form a whole component `..`.
pub open spec fn parent_component_at(name: Seq<char>, i: int) -> bool {
    0 <= i && i + 2 <= name.len() && name[i] == '.' && name[i + 1] == '.' && (i == 0
        || is_separator(name[i - 1])) && (i + 2 == name.len() || is_separator(name[i + 2]))
}

/// `name` has a parent-directory component.
pub open spec fn has_parent_component(name: Seq<char>) -> bool {
    exists|i: int| parent_component_at(name, i)
}

/// `name` is a relative path that stays below the directory it is resolved
/// in: it is not empty, starts with no separator or drive prefix, and has no
/// parent-directory component.
pub open spec fn is_safe_name(name: Seq<char>) -> bool {
    name.len() > 0 && !is_separator(name[0]) && !(name.len() >= 2 && name[1] == ':')
        && !has_parent_component(name)
}

/// What prevents the entry `item` of an archive of `size` bytes from being
/// extracted, if anything.
pub open spec fn entry_error(item: ItemModel, size: int) -> Option<ExtractError> {
    if !is_safe_name(item.name) {
        Some(ExtractError::PathEscape)
    } else if item.offset + item.length > size {
        Some(ExtractError::ShortRead)
    } else {
        None
    }
}

/// The error of the first entry from `i` on that cannot be extracted.
pub open spec fn first_entry_error(items: Seq<ItemModel>, size: int, i: int) -> Option<ExtractError>
    decreases items.len() - i,
{
    if i >= items.len() || i < 0 {
        None
    } else if let Some(e) = entry_error(items[i], size) {
        Some(e)
    } else {
        first_entry_error(items, size, i + 1)
    }
}

/// The entries to write for the archive `s`, in table order, or why nothing
/// may be written.
pub open spec fn extraction_of(s: Seq<u8>) -> Result<Seq<ItemModel>, ExtractError> {
    match index_of(s) {
        Err(e) => Err(ExtractError::Format(e)),
        Ok(items) => match first_entry_error(items, s.len() as int, 0) {
            Some(e) => Err(e),
            None => Ok(items),
        },
    }
}

/// Whether `name` is safe to use as a path below the output directory.
pub fn is_safe_path(name: &str) -> (r: bool)
    ensures
        r == is_safe_name(name@),
{
    let n = name.unicode_len();
    if n == 0 {
        return false;
    }
    let first = name.get_char(0);
    if first == '/' || first == '\\' {
        return false;
    }
    if n >= 2 && name.get_char(1) == ':' {
        return false;
    }
    let mut i: usize = 0;
    while i < n
        invariant
            n == name@.len(),
            i <= n,
            forall|j: int| 0 <= j < i ==> !parent_component_at(name@, j),
        decreases n - i,
    {
        if n - i >= 2 && name.get_char(i) == '.' && name.get_char(i + 1) == '.' {
            let starts = i == 0 || {
                let c = name.get_char(i - 1);
                c == '/' || c == '\\'
            };
            let ends = i + 2 == n || {
                let c = name.get_char(i + 2);
                c == '/' || c == '\\'
            };
            if starts && ends {
                assert(parent_component_at(name@, i as int));
                return false;
            }
        }
        i = i + 1;
    }
    assert(!has_parent_component(name@)) by {
        if exists|j: int| parent_component_at(name@, j) {
            let j = choose|j: int| parent_component_at(name@, j);
            assert(0 <= j < i);
        }
    }
    true
}

/// Decode the index of `archive` and check every entry before extraction:
/// the entries come back, in table order, only if all of them can be
/// extracted; otherwise the error of the first one that cannot.
pub fn plan_extraction(archive: &[u8]) -> (r: Result<Vec<MarItem>, ExtractError>)
    ensures
        match r {
            Ok(items) => extraction_of(archive@) == Ok::<Seq<ItemModel>, ExtractError>(items_view(items@)),
            Err(e) => extraction_of(archive@) == Err::<Seq<ItemModel>, ExtractError>(e),
        },
{
    let items = match read_index(archive) {
        Err(e) => {
            return Err(ExtractError::Format(e));
        },
        Ok(items) => items,
    };
    let ghost view = items_view(items@);
    let mut i: usize = 0;
    while i < items.len()
        invariant
            view == items_view(items@),
            index_of(archive@) == Ok::<Seq<ItemModel>, FormatError>(view),
            i <= items@.len(),
            first_entry_error(view, archive@.len() as int, 0) == first_entry_error(
                view,
                archive@.len() as int,
                i as int,
            ),
        decreases items@.len() - i,
    {
        let item = &items[i];
        assert(view[i as int] == item@);
        if !is_safe_path(item.name.as_str()) {
            return Err(ExtractError::PathEscape);
        }
        if item.offset as u64 + item.length as u64 > archive.len() as u64 {
            return Err(ExtractError::ShortRead);
        }
        i = i + 1;
    }
    Ok(items)
}

/// The content of `item` within `archive`.
pub fn entry_data<'a>(archive: &'a [u8], item: &MarItem) -> (r: &'a [u8])
    requires
        item.offset + item.length <= archive@.len(),
    ensures
        r@ == archive@.subrange(item.offset as int, item.offset + item.length),
{
    let size = archive.len();
    assert(size == archive@.len());
    let start = item.offset as usize;
    vstd::slice::slice_subrange(archive, start, start + item.length as usize)
}


proof fn lemma_first_entry_error_some(items: Seq<ItemModel>, size: int, i: int, k: int)
    requires
        0 <= i <= k < items.len(),
        entry_error(items[k], size) is Some,
    ensures
        first_entry_error(items, size, i) is Some,
        (forall|j: int| i <= j < k ==> entry_error(items[j], size) is None) ==> first_entry_error(
            items,
            size,
            i,
        ) == entry_error(items[k], size),
    decreases k - i,
{
    if i < k {
        lemma_first_entry_error_some(items, size, i + 1, k);
    }
}

/// An archive with an entry whose name has a parent-directory component is
/// refused as a whole, so nothing of it is written; where every entry before
/// it can be extracted, the error is `PathEscape`.
pub proof fn lemma_parent_component_refused(s: Seq<u8>, k: int)
    requires
        index_of(s) is Ok,
        0 <= k < index_of(s)->Ok_0.len(),
        has_parent_component(index_of(s)->Ok_0[k].name),
    ensures
        extraction_of(s) is Err,
        (forall|j: int|
            0 <= j < k ==> entry_error(#[trigger] index_of(s)->Ok_0[j], s.len() as int) is None)
            ==> extraction_of(s) == Err::<Seq<ItemModel>, ExtractError>(ExtractError::PathEscape),
{
    lemma_first_entry_error_some(index_of(s)->Ok_0, s.len() as int, 0, k);
}

} // verus!
