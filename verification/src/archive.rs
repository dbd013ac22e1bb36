//! ZIP archives, read from their bytes.

use vstd::prelude::*;

use crate::text;

verus! {

/// What there is of an entry of an archive.
pub enum Entry {
    /// The archive or the entry cannot be opened.
    Unopened,
    /// The data cannot be decompressed to the end: what came out before that.
    Broken(Vec<u8>),
    /// The content.
    Whole(Vec<u8>),
}

pub enum EntryView {
    Unopened,
    Broken(Seq<u8>),
    Whole(Seq<u8>),
}

impl View for Entry {
    type V = EntryView;

    open spec fn view(&self) -> EntryView {
        match self {
            Entry::Unopened => EntryView::Unopened,
            Entry::Broken(c) => EntryView::Broken(c@),
            Entry::Whole(c) => EntryView::Whole(c@),
        }
    }
}

/// The names of the entries that `zip::ZipArchive` finds in the bytes, in its order; none where
/// the bytes are not an archive.
pub uninterp spec fn zip_names(data: Seq<u8>) -> Option<Seq<Seq<char>>>;

/// What `zip::ZipArchive` finds in the bytes of the entry of that name.
pub uninterp spec fn zip_entry(data: Seq<u8>, name: Seq<char>) -> EntryView;

/// `zip::ZipArchive::new` reads the directory of the archive or rejects the bytes, and
/// `ZipArchive::file_names` lists the entries in the order of that directory, each name once.
/// Both depend on nothing but the bytes.
#[verifier::external_body]
pub(crate) fn entry_names(data: &[u8]) -> (r: Option<Vec<String>>)
    ensures
        match r {
            Some(names) => zip_names(data@) == Some(text::texts(names@)),
            None => zip_names(data@) is None,
        },
{
    let archive = zip::ZipArchive::new(std::io::Cursor::new(data)).ok()?;
    Some(archive.file_names().map(str::to_string).collect())
}

/// `zip::ZipArchive::by_name` opens the entry of that name, and `std::io::copy` reads its
/// decompressed content to the end, or to where the data turns out to be broken. Both depend on
/// nothing but the bytes and the name.
#[verifier::external_body]
pub(crate) fn read_entry(data: &[u8], name: &str) -> (r: Entry)
    ensures
        r@ == zip_entry(data@, name@),
{
    let Ok(mut archive) = zip::ZipArchive::new(std::io::Cursor::new(data)) else {
        return Entry::Unopened;
    };
    let Ok(mut entry) = archive.by_name(name) else {
        return Entry::Unopened;
    };
    let mut content = std::io::Cursor::new(Vec::new());
    match std::io::copy(&mut entry, &mut content) {
        Ok(_) => Entry::Whole(content.into_inner()),
        Err(_) => Entry::Broken(content.into_inner()),
    }
}

} // verus!
