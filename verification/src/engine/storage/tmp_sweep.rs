//! Which files a crash has left behind.
//!
//! A file is written under a temporary name and then renamed. A crash in between
//! leaves the temporary file; it is removed at the next start.
use crate::engine::order;
use vstd::prelude::*;

verus! {

/// Whether the bytes of a file name end in a dot and a given extension, with a stem
/// before it.
pub open spec fn has_extension(name: Seq<u8>, extension: Seq<u8>) -> bool {
    let n = name.len() - extension.len();
    &&& n >= 2
    &&& name[n - 1] == 0x2Eu8
    &&& name.skip(n as int) == extension
}

/// Whether a file name has a given extension. An extension has no dot.
pub fn name_has_extension(name: &str, extension: &str) -> (r: bool)
    ensures
        r == has_extension(
            vstd::utf8::encode_utf8(name@),
            vstd::utf8::encode_utf8(extension@),
        ),
{
    let bytes = name.as_bytes();
    let wanted = extension.as_bytes();
    if bytes.len() < wanted.len() {
        return false;
    }
    let n: usize = bytes.len() - wanted.len();
    if n < 2 || bytes[n - 1] != 0x2E {
        return false;
    }
    let end = vstd::slice::slice_subrange(bytes, n, bytes.len());
    assert(end@ =~= bytes@.skip(n as int));
    order::bytes_equal(end, wanted)
}

/// An entry of a directory.
pub struct DirEntry {
    pub name: String,
    pub is_file: bool,
}

/// Whether an entry is a temporary file.
pub open spec fn is_orphan(entry: DirEntry) -> bool {
    entry.is_file && has_extension(
        vstd::utf8::encode_utf8(entry.name@),
        vstd::utf8::encode_utf8("tmp"@),
    )
}

/// The names of the temporary files of a directory, in order.
pub open spec fn orphans(entries: Seq<DirEntry>) -> Seq<Seq<char>>
    decreases entries.len(),
{
    if entries.len() == 0 {
        Seq::empty()
    } else if is_orphan(entries.last()) {
        orphans(entries.drop_last()).push(entries.last().name@)
    } else {
        orphans(entries.drop_last())
    }
}

/// The names of the temporary files of a directory.
pub fn orphaned_tmp_files(entries: &Vec<DirEntry>) -> (r: Vec<String>)
    ensures
        crate::engine::text::texts(r@) == orphans(entries@),
{
    let mut out: Vec<String> = Vec::new();
    let mut i: usize = 0;
    assert(crate::engine::text::texts(out@) =~= orphans(entries@.take(0)));
    while i < entries.len()
        invariant
            i <= entries@.len(),
            crate::engine::text::texts(out@) == orphans(entries@.take(i as int)),
        decreases entries@.len() - i,
    {
        let ghost before = crate::engine::text::texts(out@);
        proof {
            assert(entries@.take(i + 1).drop_last() =~= entries@.take(i as int));
            assert(entries@.take(i + 1).last() == entries@[i as int]);
        }
        let entry = &entries[i];
        if entry.is_file && name_has_extension(entry.name.as_str(), "tmp") {
            out.push(entry.name.clone());
            assert(crate::engine::text::texts(out@) =~= before.push(entry.name@));
        }
        i = i + 1;
    }
    assert(entries@.take(i as int) =~= entries@);
    out
}

/// The files that are swept are all files, and no directories, whose name is some stem, a
/// dot and the extension of temporary files, in their order.
pub proof fn law_orphans(entries: Seq<DirEntry>)
    ensures
        orphans(entries) == entries.filter(
            |e: DirEntry|
                e.is_file && has_extension(
                    vstd::utf8::encode_utf8(e.name@),
                    vstd::utf8::encode_utf8("tmp"@),
                ),
        ).map_values(|e: DirEntry| e.name@),
    decreases entries.len(),
{
    reveal(Seq::filter);
    if entries.len() > 0 {
        law_orphans(entries.drop_last());
        assert(orphans(entries) =~= entries.filter(
            |e: DirEntry|
                e.is_file && has_extension(
                    vstd::utf8::encode_utf8(e.name@),
                    vstd::utf8::encode_utf8("tmp"@),
                ),
        ).map_values(|e: DirEntry| e.name@));
    }
}

/// A name has an extension exactly if it is a stem, a dot and the extension.
pub proof fn law_has_extension(stem: Seq<u8>, extension: Seq<u8>, name: Seq<u8>)
    ensures
        stem.len() > 0 ==> has_extension(stem + seq![0x2Eu8] + extension, extension),
        has_extension(name, extension) ==> {
            let n = name.len() - extension.len();
            n >= 2 && name == name.take(n - 1) + seq![0x2Eu8] + extension
        },
{
    let whole = stem + seq![0x2Eu8] + extension;
    let n = whole.len() - extension.len();
    assert(whole.skip(n) =~= extension);
    if has_extension(name, extension) {
        let n = name.len() - extension.len();
        assert(name =~= name.take(n - 1) + seq![0x2Eu8] + name.skip(n));
    }
}

} // verus!
