//! The directory archive: a directory tree flattened into one byte buffer,
//! and the buffer read back into the entries of the tree.
//!
//! An archive is the header line, then one line `path:0` for every directory,
//! then for every file a line `path:size`, the bytes of the file and a line
//! feed. Reading splits the buffer into lines, so the format has one known
//! limit: a file whose bytes hold a line feed, or that is empty, does not come
//! back as it went in. `archivable` says which entries do.

use crate::compression::{compress, compressed};
use crate::decompression::decompress_binary;
use crate::rle::{rle_decode, well_formed};
use crate::text::{
    decimal, parse_size, parsed_size, push_decimal, split, split_on, trim, trimmed, DIGIT_ZERO,
};
use crate::views::slice_views;
use vstd::prelude::*;
use vstd::slice::{slice_subrange, slice_to_vec};

verus! {

/// The literal that opens every archive: `TZ_DIR_ARCHIVE:` and a line feed.
pub const ARCHIVE_HEADER: [u8; 16] = [84, 90, 95, 68, 73, 82, 95, 65, 82, 67, 72, 73, 86, 69, 58, 10];

/// The length of the header.
pub const HEADER_LEN: usize = 16;

/// The byte that ends a line.
pub const LINE_FEED: u8 = 10;

/// The byte between a path and its size.
pub const COLON: u8 = 58;

/// One object of a directory tree: a directory, or a file with its bytes.
#[derive(Clone, Debug, PartialEq, Eq)]
pub struct ArchiveEntry {
    /// The path below the root of the tree, as bytes.
    pub relative_path: Vec<u8>,
    /// Whether the object is a directory.
    pub is_directory: bool,
    /// For a file that was read from an archive, the size that its line
    /// declares. Writing an archive does not read this field.
    pub size: usize,
    /// The bytes of a file; empty for a directory.
    pub content: Vec<u8>,
}

/// What an `ArchiveEntry` holds, as mathematical values.
pub ghost struct EntryModel {
    pub path: Seq<u8>,
    pub is_directory: bool,
    pub size: nat,
    pub content: Seq<u8>,
}

impl View for ArchiveEntry {
    type V = EntryModel;

    open spec fn view(&self) -> EntryModel {
        EntryModel {
            path: self.relative_path@,
            is_directory: self.is_directory,
            size: self.size as nat,
            content: self.content@,
        }
    }
}

/// The models of a vector of entries.
pub open spec fn entry_models(entries: Seq<ArchiveEntry>) -> Seq<EntryModel> {
    entries.map_values(|e: ArchiveEntry| e@)
}

/// The model of a directory at `path`.
pub open spec fn directory_model(path: Seq<u8>) -> EntryModel {
    EntryModel { path, is_directory: true, size: 0, content: Seq::empty() }
}

/// The model of a file at `path` with the declared `size` and the bytes
/// `content`.
pub open spec fn file_model(path: Seq<u8>, size: nat, content: Seq<u8>) -> EntryModel {
    EntryModel { path, is_directory: false, size, content }
}

/// The line of a directory: `path:0` and a line feed.
pub open spec fn directory_line(path: Seq<u8>) -> Seq<u8> {
    path + seq![COLON, DIGIT_ZERO, LINE_FEED]
}

/// The record of a file: the line `path:size` with the length of the content
/// as size, the content, and a line feed.
pub open spec fn file_record(path: Seq<u8>, content: Seq<u8>) -> Seq<u8> {
    path + seq![COLON] + decimal(content.len()) + seq![LINE_FEED] + content + seq![LINE_FEED]
}

/// The lines of the directories among `entries`, in their order.
pub open spec fn directory_lines(entries: Seq<EntryModel>) -> Seq<u8>
    decreases entries.len(),
{
    if entries.len() == 0 {
        Seq::empty()
    } else if entries[0].is_directory {
        directory_line(entries[0].path) + directory_lines(entries.drop_first())
    } else {
        directory_lines(entries.drop_first())
    }
}

/// The records of the files among `entries`, in their order.
pub open spec fn file_records(entries: Seq<EntryModel>) -> Seq<u8>
    decreases entries.len(),
{
    if entries.len() == 0 {
        Seq::empty()
    } else if !entries[0].is_directory {
        file_record(entries[0].path, entries[0].content) + file_records(entries.drop_first())
    } else {
        file_records(entries.drop_first())
    }
}

/// The archive of `entries`: the header, every directory, then every file.
pub open spec fn archive_bytes(entries: Seq<EntryModel>) -> Seq<u8> {
    ARCHIVE_HEADER@ + directory_lines(entries) + file_records(entries)
}

/// Whether a buffer opens with the archive header.
pub open spec fn has_header(data: Seq<u8>) -> bool {
    data.len() >= HEADER_LEN && data.take(HEADER_LEN as int) == ARCHIVE_HEADER@
}

/// The size that a field declares: its number, or zero where it is none.
pub open spec fn declared_size(field: Seq<u8>) -> nat {
    match parsed_size(field) {
        Some(n) => n,
        None => 0,
    }
}

/// The entries that a list of lines declares, read from the top.
///
/// A line is trimmed and cut at its colons. A blank line, or one that does
/// not have exactly one colon, is passed over. Of the others, the part before
/// the colon is the path and the part behind it the size, taken as zero where
/// it is no number. A size above zero makes a file whose bytes are the next
/// line, as it stands; that line is then not read as an entry. A size of zero,
/// or no line left to take, makes a directory.
pub open spec fn entries_of(lines: Seq<Seq<u8>>) -> Seq<EntryModel>
    decreases lines.len(),
{
    if lines.len() == 0 {
        Seq::empty()
    } else {
        let entry = trimmed(lines[0]);
        let parts = split_on(entry, COLON);
        if entry.len() == 0 || parts.len() != 2 {
            entries_of(lines.skip(1))
        } else {
            let size = declared_size(parts[1]);
            if size > 0 && lines.len() >= 2 {
                seq![file_model(parts[0], size, lines[1])] + entries_of(lines.skip(2))
            } else {
                seq![directory_model(parts[0])] + entries_of(lines.skip(1))
            }
        }
    }
}

/// The entries of an archive, where the buffer is one: the header is taken
/// off, the rest is split into lines at the line feeds, and the lines are
/// read as `entries_of` says.
pub open spec fn parsed_archive(data: Seq<u8>) -> Option<Seq<EntryModel>> {
    if has_header(data) {
        Some(entries_of(split_on(data.skip(HEADER_LEN as int), LINE_FEED)))
    } else {
        None
    }
}

/// Tells whether a buffer is an archive: whether it opens with the header.
pub fn is_archive(data: &[u8]) -> (r: bool)
    ensures
        r == has_header(data@),
{
    if data.len() < HEADER_LEN {
        return false;
    }
    let mut i: usize = 0;
    while i < HEADER_LEN
        invariant
            i <= HEADER_LEN,
            data@.len() >= HEADER_LEN,
            forall|k: int| 0 <= k < i ==> #[trigger] data@[k] == ARCHIVE_HEADER@[k],
        decreases HEADER_LEN - i,
    {
        if data[i] != ARCHIVE_HEADER[i] {
            proof {
                assert(data@.take(HEADER_LEN as int)[i as int] == data@[i as int]);
            }
            return false;
        }
        i += 1;
    }
    proof {
        assert(data@.take(HEADER_LEN as int) == ARCHIVE_HEADER@);
    }
    true
}

/// Flattens the entries of a tree into one archive buffer.
///
/// Directories come first, then files, each group in the order of `entries`.
/// The size on a file's line is the length of its content.
pub fn serialize_archive(entries: &Vec<ArchiveEntry>) -> (out: Vec<u8>)
    ensures
        out@ == archive_bytes(entry_models(entries@)),
{
    let ghost models = entry_models(entries@);
    let mut out: Vec<u8> = Vec::new();
    out.extend_from_slice(&ARCHIVE_HEADER);
    let mut i: usize = 0;
    proof {
        assert(models.skip(0) == models);
    }
    while i < entries.len()
        invariant
            i <= entries@.len(),
            models == entry_models(entries@),
            ARCHIVE_HEADER@ + directory_lines(models) == out@ + directory_lines(
                models.skip(i as int),
            ),
        decreases entries@.len() - i,
    {
        let ghost before = out@;
        let ghost rest = models.skip(i as int);
        proof {
            assert(rest[0] == entries@[i as int]@);
            assert(rest.drop_first() == models.skip(i + 1));
        }
        if entries[i].is_directory {
            out.extend_from_slice(entries[i].relative_path.as_slice());
            out.push(COLON);
            out.push(DIGIT_ZERO);
            out.push(LINE_FEED);
            proof {
                assert(out@ == before + directory_line(rest[0].path));
                assert(before + (directory_line(rest[0].path) + directory_lines(
                    rest.drop_first(),
                )) == before + directory_line(rest[0].path) + directory_lines(rest.drop_first()));
            }
        }
        i += 1;
    }
    let ghost head = out@;
    i = 0;
    proof {
        assert(models.skip(entries@.len() as int) == Seq::<EntryModel>::empty());
        assert(head == ARCHIVE_HEADER@ + directory_lines(models));
    }
    while i < entries.len()
        invariant
            i <= entries@.len(),
            models == entry_models(entries@),
            head + file_records(models) == out@ + file_records(models.skip(i as int)),
        decreases entries@.len() - i,
    {
        let ghost before = out@;
        let ghost rest = models.skip(i as int);
        proof {
            assert(rest[0] == entries@[i as int]@);
            assert(rest.drop_first() == models.skip(i + 1));
        }
        if !entries[i].is_directory {
            out.extend_from_slice(entries[i].relative_path.as_slice());
            out.push(COLON);
            push_decimal(&mut out, entries[i].content.len());
            out.push(LINE_FEED);
            out.extend_from_slice(entries[i].content.as_slice());
            out.push(LINE_FEED);
            proof {
                assert(out@ == before + file_record(rest[0].path, rest[0].content));
                assert(before + (file_record(rest[0].path, rest[0].content) + file_records(
                    rest.drop_first(),
                )) == before + file_record(rest[0].path, rest[0].content) + file_records(
                    rest.drop_first(),
                ));
            }
        }
        i += 1;
    }
    proof {
        assert(models.skip(entries@.len() as int) == Seq::<EntryModel>::empty());
    }
    out
}

/// Reads the entries that a list of lines declares, as `entries_of` says.
pub fn read_entries(lines: &Vec<&[u8]>) -> (entries: Vec<ArchiveEntry>)
    ensures
        entry_models(entries@) == entries_of(slice_views(lines@)),
{
    let ghost all = slice_views(lines@);
    let mut entries: Vec<ArchiveEntry> = Vec::new();
    let mut i: usize = 0;
    proof {
        assert(all.skip(0) == all);
        assert(entry_models(entries@) == Seq::<EntryModel>::empty());
    }
    while i < lines.len()
        invariant
            i <= lines@.len(),
            all == slice_views(lines@),
            entries_of(all) == entry_models(entries@) + entries_of(all.skip(i as int)),
        decreases lines@.len() - i,
    {
        let ghost rest = all.skip(i as int);
        proof {
            assert(rest[0] == lines@[i as int]@);
            assert(rest.skip(1) == all.skip(i + 1));
        }
        let entry: &[u8] = trim(lines[i]);
        let parts: Vec<&[u8]> = split(entry, COLON);
        if entry.len() == 0 || parts.len() != 2 {
            i += 1;
        } else {
            proof {
                assert(slice_views(parts@)[0] == parts@[0]@);
                assert(slice_views(parts@)[1] == parts@[1]@);
            }
            let size: usize = match parse_size(parts[1]) {
                Some(n) => n,
                None => 0,
            };
            let ghost before = entry_models(entries@);
            if size > 0 && lines.len() - i > 1 {
                let file = ArchiveEntry {
                    relative_path: slice_to_vec(parts[0]),
                    is_directory: false,
                    size,
                    content: slice_to_vec(lines[i + 1]),
                };
                proof {
                    assert(rest[1] == lines@[i + 1]@);
                    assert(rest.skip(2) == all.skip(i + 2));
                    assert(entry_models(entries@.push(file)) == before.push(file@));
                    assert(before + (seq![file@] + entries_of(rest.skip(2))) == before.push(file@)
                        + entries_of(rest.skip(2)));
                }
                entries.push(file);
                i += 2;
            } else {
                let directory = ArchiveEntry {
                    relative_path: slice_to_vec(parts[0]),
                    is_directory: true,
                    size: 0,
                    content: Vec::new(),
                };
                proof {
                    assert(entry_models(entries@.push(directory)) == before.push(directory@));
                    assert(before + (seq![directory@] + entries_of(rest.skip(1))) == before.push(
                        directory@,
                    ) + entries_of(rest.skip(1)));
                }
                entries.push(directory);
                i += 1;
            }
        }
    }
    entries
}

/// Reads an archive buffer back into its entries.
///
/// Returns `None` exactly when the buffer does not open with the header.
/// Otherwise the entries are those that `parsed_archive` gives: lines that
/// are no entries are passed over, so every archive can be read.
pub fn deserialize_archive(data: &[u8]) -> (r: Option<Vec<ArchiveEntry>>)
    ensures
        match r {
            Some(entries) => parsed_archive(data@) == Some(entry_models(entries@)),
            None => parsed_archive(data@) is None,
        },
{
    if !is_archive(data) {
        return None;
    }
    let body: &[u8] = slice_subrange(data, HEADER_LEN, data.len());
    proof {
        assert(body@ == data@.skip(HEADER_LEN as int));
    }
    let lines: Vec<&[u8]> = split(body, LINE_FEED);
    Some(read_entries(&lines))
}

/// What a compressed stream holds once it is decompressed: the bytes of one
/// file, or the entries of a directory tree.
#[derive(Clone, Debug, PartialEq, Eq)]
pub enum Unpacked {
    /// The bytes of a single file.
    File(Vec<u8>),
    /// The entries of an archive, in the order of its lines.
    Directory(Vec<ArchiveEntry>),
}

/// Archives the entries of a tree and compresses the archive.
///
/// The stream decodes to the archive of the entries; which chunks it was
/// encoded in depends on the size of the worker pool.
pub fn pack(entries: &Vec<ArchiveEntry>) -> (out: Vec<u8>)
    ensures
        rle_decode(out@) == archive_bytes(entry_models(entries@)),
        well_formed(out@),
        exists|workers: nat|
            workers >= 1 && out@ == compressed(archive_bytes(entry_models(entries@)), workers),
{
    compress(serialize_archive(entries))
}

/// Decompresses a stream and reads the result as an archive where it is one.
///
/// The result is a directory exactly when the decoded bytes open with the
/// archive header; its entries are then those of `parsed_archive`. Otherwise
/// the result is a file that holds the decoded bytes.
pub fn unpack(stream: Vec<u8>) -> (r: Unpacked)
    ensures
        match r {
            Unpacked::Directory(entries) => parsed_archive(rle_decode(stream@)) == Some(
                entry_models(entries@),
            ),
            Unpacked::File(bytes) => parsed_archive(rle_decode(stream@)) is None && bytes@
                == rle_decode(stream@),
        },
{
    let bytes: Vec<u8> = decompress_binary(stream).unwrap();
    match deserialize_archive(bytes.as_slice()) {
        Some(entries) => Unpacked::Directory(entries),
        None => Unpacked::File(bytes),
    }
}

} // verus!
