//! The archive that holds a given list of files, and what reading it back
//! gives.
use crate::extract::{entry_error, extraction_of, first_entry_error, is_safe_name};
use crate::read::{
    be_bytes, check_header, index_of, lemma_be_bytes, lemma_first_nul_found, mar_id,
    parse_entries, parse_entry, utf8_text,
};
use crate::{ItemModel, MAX_SIZE_OF_MAR_FILE};
use vstd::prelude::*;

verus! {

/// The contents of `files` (pairs of name bytes and data), one after the other.
pub open spec fn contents(files: Seq<(Seq<u8>, Seq<u8>)>) -> Seq<u8>
    decreases files.len(),
{
    if files.len() == 0 {
        seq![]
    } else {
        files[0].1 + contents(files.skip(1))
    }
}

/// The index record of an entry.
pub open spec fn entry_bytes(offset: int, length: int, flags: u32, name: Seq<u8>) -> Seq<u8> {
    be_bytes(offset as u32) + be_bytes(length as u32) + be_bytes(flags) + name + seq![0u8]
}

/// The index records of `files`, whose contents are laid one after the
/// other from `base`, each with the mode bits `flags`.
pub open spec fn index_bytes(files: Seq<(Seq<u8>, Seq<u8>)>, base: int, flags: u32) -> Seq<u8>
    decreases files.len(),
{
    if files.len() == 0 {
        seq![]
    } else {
        entry_bytes(base, files[0].1.len() as int, flags, files[0].0) + index_bytes(
            files.skip(1),
            base + files[0].1.len(),
            flags,
        )
    }
}

/// The archive, with no signature, that holds `files`: the 16-byte header,
/// then the contents, then the index.
pub open spec fn build_archive(files: Seq<(Seq<u8>, Seq<u8>)>, flags: u32) -> Seq<u8> {
    let c = contents(files);
    let index = index_bytes(files, 16, flags);
    mar_id() + be_bytes((16 + c.len()) as u32) + be_bytes(0) + be_bytes(0) + c + be_bytes(
        index.len() as u32,
    ) + index
}

/// `name` is a NUL-free, UTF-8 encoded name that is safe to extract.
pub open spec fn is_extractable_name(name: Seq<u8>) -> bool {
    &&& forall|k: int| 0 <= k < name.len() ==> name[k] != 0
    &&& utf8_text(name) is Some
    &&& is_safe_name(utf8_text(name)->Some_0)
}

proof fn lemma_sub(s: Seq<u8>, q: int, end: int, x: Seq<u8>, a: int, b: int)
    requires
        0 <= q <= end <= s.len(),
        s.subrange(q, end) == x,
        0 <= a <= b <= x.len(),
    ensures
        s.subrange(q + a, q + b) == x.subrange(a, b),
{
    assert(s.subrange(q + a, q + b) =~= x.subrange(a, b));
}

proof fn lemma_contents_take(files: Seq<(Seq<u8>, Seq<u8>)>, i: int)
    requires
        1 <= i <= files.len(),
    ensures
        contents(files.take(i)) == files[0].1 + contents(files.skip(1).take(i - 1)),
{
    assert(files.take(i).skip(1) =~= files.skip(1).take(i - 1));
}

proof fn lemma_contents_split(files: Seq<(Seq<u8>, Seq<u8>)>, i: int)
    requires
        0 <= i < files.len(),
    ensures
        contents(files.take(i)).len() + files[i].1.len() <= contents(files).len(),
        contents(files).subrange(
            contents(files.take(i)).len() as int,
            (contents(files.take(i)).len() + files[i].1.len()) as int,
        ) == files[i].1,
    decreases i,
{
    let d0 = files[0].1;
    let rest = contents(files.skip(1));
    assert(contents(files) == d0 + rest);
    if i == 0 {
        assert(files.take(0) =~= Seq::<(Seq<u8>, Seq<u8>)>::empty());
        assert((d0 + rest).subrange(0, d0.len() as int) =~= d0);
    } else {
        lemma_contents_split(files.skip(1), i - 1);
        lemma_contents_take(files, i);
        let a = contents(files.skip(1).take(i - 1)).len() as int;
        let l = files[i].1.len() as int;
        assert(files.skip(1)[i - 1] == files[i]);
        assert((d0 + rest).subrange(d0.len() + a, d0.len() + a + l) =~= rest.subrange(a, a + l));
    }
}

proof fn lemma_parse_index(
    s: Seq<u8>,
    q: int,
    end: int,
    files: Seq<(Seq<u8>, Seq<u8>)>,
    base: int,
    flags: u32,
)
    requires
        0 <= q,
        q + index_bytes(files, base, flags).len() == end,
        end <= s.len(),
        s.subrange(q, end) == index_bytes(files, base, flags),
        0 <= base,
        base + contents(files).len() <= u32::MAX,
        forall|i: int| 0 <= i < files.len() ==> is_extractable_name(#[trigger] files[i].0),
    ensures
        parse_entries(s, q, end) is Ok,
        parse_entries(s, q, end)->Ok_0.len() == files.len(),
        forall|i: int|
            0 <= i < files.len() ==> #[trigger] parse_entries(s, q, end)->Ok_0[i] == (ItemModel {
                offset: (base + contents(files.take(i)).len()) as u32,
                length: files[i].1.len() as u32,
                flags,
                name: utf8_text(files[i].0)->Some_0,
            }),
    decreases files.len(),
{
    if files.len() == 0 {
        assert(parse_entries(s, q, end)->Ok_0 =~= Seq::<ItemModel>::empty());
    } else {
        let name = files[0].0;
        let data = files[0].1;
        let e = entry_bytes(base, data.len() as int, flags, name);
        let rest_files = files.skip(1);
        let rest = index_bytes(rest_files, base + data.len(), flags);
        let idx = index_bytes(files, base, flags);
        assert(idx == e + rest);
        assert(contents(files) == data + contents(rest_files));
        let z = q + 12 + name.len() as int;
        // The three fields.
        lemma_sub(s, q, end, idx, 0, 4);
        assert(idx.subrange(0, 4) =~= be_bytes(base as u32));
        lemma_be_bytes(s, q, base as u32);
        lemma_sub(s, q, end, idx, 4, 8);
        assert(idx.subrange(4, 8) =~= be_bytes(data.len() as u32));
        lemma_be_bytes(s, q + 4, data.len() as u32);
        lemma_sub(s, q, end, idx, 8, 12);
        assert(idx.subrange(8, 12) =~= be_bytes(flags));
        lemma_be_bytes(s, q + 8, flags);
        // The name and its terminator.
        lemma_sub(s, q, end, idx, 12, 12 + name.len() as int);
        assert(idx.subrange(12, 12 + name.len() as int) =~= name);
        assert(is_extractable_name(files[0].0));
        assert forall|k: int| q + 12 <= k < z implies s[k] != 0 by {
            assert(s[k] == s.subrange(q + 12, z)[k - q - 12]);
        }
        assert(s[z] == idx[12 + name.len() as int]) by {
            assert(s[z] == s.subrange(q, end)[z - q]);
        }
        lemma_first_nul_found(s, q + 12, end, z);
        let m0 = ItemModel {
            offset: base as u32,
            length: data.len() as u32,
            flags,
            name: utf8_text(name)->Some_0,
        };
        assert(parse_entry(s, q, end) == Ok::<(ItemModel, int), crate::FormatError>((m0, z + 1)));
        // The entries that follow.
        lemma_sub(s, q, end, idx, e.len() as int, idx.len() as int);
        assert(idx.subrange(e.len() as int, idx.len() as int) =~= rest);
        assert forall|i: int| 0 <= i < rest_files.len() implies is_extractable_name(
            #[trigger] rest_files[i].0,
        ) by {
            assert(rest_files[i] == files[i + 1]);
        }
        lemma_parse_index(s, z + 1, end, rest_files, base + data.len(), flags);
        let ms = parse_entries(s, q, end)->Ok_0;
        let rest_ms = parse_entries(s, z + 1, end)->Ok_0;
        assert(ms == seq![m0] + rest_ms);
        assert forall|i: int| 0 <= i < files.len() implies #[trigger] ms[i] == (ItemModel {
            offset: (base + contents(files.take(i)).len()) as u32,
            length: files[i].1.len() as u32,
            flags,
            name: utf8_text(files[i].0)->Some_0,
        }) by {
            if i == 0 {
                assert(files.take(0) =~= Seq::<(Seq<u8>, Seq<u8>)>::empty());
            } else {
                lemma_contents_take(files, i);
                assert(rest_files[i - 1] == files[i]);
                assert(rest_ms[i - 1] == ms[i]);
            }
        }
    }
}

proof fn lemma_no_entry_error(items: Seq<ItemModel>, size: int, i: int)
    requires
        0 <= i <= items.len(),
        forall|j: int| i <= j < items.len() ==> entry_error(#[trigger] items[j], size) is None,
    ensures
        first_entry_error(items, size, i) is None,
    decreases items.len() - i,
{
    if i < items.len() {
        lemma_no_entry_error(items, size, i + 1);
    }
}

proof fn lemma_built_header(files: Seq<(Seq<u8>, Seq<u8>)>, flags: u32)
    requires
        build_archive(files, flags).len() <= MAX_SIZE_OF_MAR_FILE,
    ensures
        ({
            let s = build_archive(files, flags);
            let c = contents(files);
            let index = index_bytes(files, 16, flags);
            &&& s.len() == 16 + c.len() + 4 + index.len()
            &&& s.subrange(16, 16 + c.len() as int) == c
            &&& s.subrange(20 + c.len() as int, s.len() as int) == index
            &&& index_of(s) == parse_entries(s, 20 + c.len() as int, s.len() as int)
        }),
{
    let s = build_archive(files, flags);
    let c = contents(files);
    let index = index_bytes(files, 16, flags);
    let start = 16 + c.len() as int;
    assert(s.subrange(0, 4) =~= mar_id());
    assert(check_header(s) is Ok);
    assert(s.subrange(4, 8) =~= be_bytes(start as u32));
    lemma_be_bytes(s, 4, start as u32);
    assert(s.subrange(start, start + 4) =~= be_bytes(index.len() as u32));
    lemma_be_bytes(s, start, index.len() as u32);
    assert(s.subrange(start + 4, s.len() as int) =~= index);
    assert(s.subrange(16, start) =~= c);
}

/// Reading back an archive built from files with extractable names gives,
/// in order, one entry per file, with the file's name, the given mode bits,
/// and a content range that holds exactly the file's bytes; and every entry
/// passes the checks that precede extraction.
pub proof fn lemma_round_trip(files: Seq<(Seq<u8>, Seq<u8>)>, flags: u32)
    requires
        build_archive(files, flags).len() <= MAX_SIZE_OF_MAR_FILE,
        forall|i: int| 0 <= i < files.len() ==> is_extractable_name(#[trigger] files[i].0),
    ensures
        extraction_of(build_archive(files, flags)) is Ok,
        extraction_of(build_archive(files, flags))->Ok_0.len() == files.len(),
        forall|i: int|
            0 <= i < files.len() ==> {
                let item = #[trigger] extraction_of(build_archive(files, flags))->Ok_0[i];
                &&& item.name == utf8_text(files[i].0)->Some_0
                &&& item.flags == flags
                &&& build_archive(files, flags).subrange(
                    item.offset as int,
                    item.offset + item.length,
                ) == files[i].1
            },
{
    let s = build_archive(files, flags);
    let c = contents(files);
    let start = 16 + c.len() as int;
    lemma_built_header(files, flags);
    lemma_parse_index(s, start + 4, s.len() as int, files, 16, flags);
    let items = index_of(s)->Ok_0;
    assert forall|i: int| 0 <= i < files.len() implies {
        &&& entry_error(#[trigger] items[i], s.len() as int) is None
        &&& s.subrange(items[i].offset as int, items[i].offset + items[i].length) == files[i].1
    } by {
        lemma_contents_split(files, i);
        let a = contents(files.take(i)).len() as int;
        let l = files[i].1.len() as int;
        assert(items[i].offset == 16 + a);
        assert(items[i].length == l);
        lemma_sub(s, 16, start, c, a, a + l);
    }
    lemma_no_entry_error(items, s.len() as int, 0);
}

} // verus!
