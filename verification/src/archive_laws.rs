//! What holds of the archive format: which trees come back from an archive
//! as they went in.

use crate::archive::{
    archive_bytes, declared_size, directory_lines, directory_model, entries_of, file_model,
    file_records, has_header, parsed_archive, EntryModel, ARCHIVE_HEADER, COLON, HEADER_LEN,
    LINE_FEED,
};
use crate::text::{
    decimal, find_byte, is_digit, is_space, leading_space, lemma_decimal, lemma_find_byte,
    lemma_find_byte_at, lemma_split_on, parsed_size, size_digits, split_on, trailing_space,
    trim_end, trim_start, trimmed, DIGIT_ZERO,
};
use vstd::prelude::*;

verus! {

/// The entries that the format can carry. The path holds no colon and no line
/// feed and does not begin with a white-space character; a file is not empty,
/// holds no line feed, and its length fits the machine's `usize`.
pub open spec fn archivable(e: EntryModel) -> bool {
    &&& forall|k: int| 0 <= k < e.path.len() ==> #[trigger] e.path[k] != COLON
    &&& forall|k: int| 0 <= k < e.path.len() ==> #[trigger] e.path[k] != LINE_FEED
    &&& leading_space(e.path) == 0
    &&& !e.is_directory ==> {
        &&& e.content.len() > 0
        &&& e.content.len() <= usize::MAX
        &&& forall|k: int| 0 <= k < e.content.len() ==> #[trigger] e.content[k] != LINE_FEED
    }
}

/// The directories among `entries`, in their order, as an archive gives them
/// back.
pub open spec fn directories_of(entries: Seq<EntryModel>) -> Seq<EntryModel>
    decreases entries.len(),
{
    if entries.len() == 0 {
        Seq::empty()
    } else if entries[0].is_directory {
        seq![directory_model(entries[0].path)] + directories_of(entries.drop_first())
    } else {
        directories_of(entries.drop_first())
    }
}

/// The files among `entries`, in their order, as an archive gives them back:
/// each with the length of its content as size.
pub open spec fn files_of(entries: Seq<EntryModel>) -> Seq<EntryModel>
    decreases entries.len(),
{
    if entries.len() == 0 {
        Seq::empty()
    } else if !entries[0].is_directory {
        seq![file_model(entries[0].path, entries[0].content.len(), entries[0].content)] + files_of(
            entries.drop_first(),
        )
    } else {
        files_of(entries.drop_first())
    }
}

/// The text of a directory's line, without the line feed.
pub open spec fn directory_text(path: Seq<u8>) -> Seq<u8> {
    path + seq![COLON, DIGIT_ZERO]
}

/// The text of a file's line, without the line feed.
pub open spec fn file_text(path: Seq<u8>, size: nat) -> Seq<u8> {
    path + seq![COLON] + decimal(size)
}

/// The lines that the directories among `entries` write.
pub open spec fn directory_texts(entries: Seq<EntryModel>) -> Seq<Seq<u8>>
    decreases entries.len(),
{
    if entries.len() == 0 {
        Seq::empty()
    } else if entries[0].is_directory {
        seq![directory_text(entries[0].path)] + directory_texts(entries.drop_first())
    } else {
        directory_texts(entries.drop_first())
    }
}

/// The lines that the files among `entries` write: for each its line, then its
/// content.
pub open spec fn file_texts(entries: Seq<EntryModel>) -> Seq<Seq<u8>>
    decreases entries.len(),
{
    if entries.len() == 0 {
        Seq::empty()
    } else if !entries[0].is_directory {
        seq![file_text(entries[0].path, entries[0].content.len()), entries[0].content] + file_texts(
            entries.drop_first(),
        )
    } else {
        file_texts(entries.drop_first())
    }
}

/// A part without the separator, the separator, and more: splitting takes the
/// part off and goes on with the rest.
pub proof fn lemma_split_first(part: Seq<u8>, rest: Seq<u8>, separator: u8)
    requires
        forall|k: int| 0 <= k < part.len() ==> #[trigger] part[k] != separator,
    ensures
        split_on(part + seq![separator] + rest, separator) == seq![part] + split_on(
            rest,
            separator,
        ),
{
    let s = part + seq![separator] + rest;
    assert forall|j: int| 0 <= j < part.len() implies #[trigger] s[j] != separator by {
        assert(s[j] == part[j]);
    }
    assert(s[part.len() as int] == separator);
    lemma_find_byte_at(s, separator, part.len());
    assert(s.take(part.len() as int) == part);
    assert(s.skip(part.len() as int + 1) == rest);
}

/// A sequence without the separator is its own single part.
pub proof fn lemma_split_none(part: Seq<u8>, separator: u8)
    requires
        forall|k: int| 0 <= k < part.len() ==> #[trigger] part[k] != separator,
    ensures
        split_on(part, separator) == seq![part],
{
    lemma_find_byte_at(part, separator, part.len());
}

/// Trimming leaves alone what neither begins nor ends with white space.
pub proof fn lemma_trimmed_unchanged(s: Seq<u8>)
    requires
        leading_space(s) == 0,
        trailing_space(s) == 0,
    ensures
        trimmed(s) == s,
{
    assert(trim_start(s) == s);
    assert(trim_end(s) == s);
}

/// What does not begin with white space does not begin with it either when
/// a byte of plain text, itself no white space, and more stand behind it: no
/// white-space character of several bytes holds such a byte.
pub proof fn lemma_leading_space_before(front: Seq<u8>, behind: Seq<u8>)
    requires
        leading_space(front) == 0,
        behind.len() > 0,
        behind[0] < 0x80,
        !is_space(behind[0]),
    ensures
        leading_space(front + behind) == 0,
{
    let s = front + behind;
    assert(s[0] == if front.len() >= 1 {
        front[0]
    } else {
        behind[0]
    });
    if s.len() >= 2 {
        assert(s[1] == if front.len() >= 2 {
            front[1]
        } else {
            behind[1 - front.len()]
        });
    }
    if s.len() >= 3 {
        assert(s[2] == if front.len() >= 3 {
            front[2]
        } else {
            behind[2 - front.len()]
        });
    }
}

/// The front of what does not begin with white space does not begin with it.
pub proof fn lemma_leading_space_of_front(s: Seq<u8>, k: int)
    requires
        0 <= k <= s.len(),
        leading_space(s) == 0,
    ensures
        leading_space(s.take(k)) == 0,
{
    let front = s.take(k);
    if k >= 1 {
        assert(front[0] == s[0]);
    }
    if k >= 2 {
        assert(front[1] == s[1]);
    }
    if k >= 3 {
        assert(front[2] == s[2]);
    }
}

/// What ends with a byte of plain text that is no white space does not end
/// with a white-space character.
pub proof fn lemma_trailing_space_after_text(s: Seq<u8>)
    requires
        s.len() > 0,
        s.last() < 0x80,
        !is_space(s.last()),
    ensures
        trailing_space(s) == 0,
{
}

/// The decimal form of a size that fits the machine reads back as that size.
pub proof fn lemma_declared_size_of_decimal(n: nat)
    requires
        n <= usize::MAX,
    ensures
        declared_size(decimal(n)) == n,
{
    lemma_decimal(n);
    let d = decimal(n);
    assert(is_digit(d[0]));
    assert(size_digits(d) == d);
}

/// A directory's line reads as its path and the size zero.
pub proof fn lemma_directory_text(path: Seq<u8>)
    requires
        forall|k: int| 0 <= k < path.len() ==> #[trigger] path[k] != COLON,
        leading_space(path) == 0,
    ensures
        trimmed(directory_text(path)) == directory_text(path),
        directory_text(path).len() > 0,
        split_on(directory_text(path), COLON) == seq![path, seq![DIGIT_ZERO]],
        declared_size(seq![DIGIT_ZERO]) == 0,
{
    let line = directory_text(path);
    assert(line.last() == DIGIT_ZERO);
    lemma_leading_space_before(path, seq![COLON, DIGIT_ZERO]);
    lemma_trailing_space_after_text(line);
    lemma_trimmed_unchanged(line);
    let zero = seq![DIGIT_ZERO];
    assert(line == path + seq![COLON] + zero);
    lemma_split_first(path, zero, COLON);
    lemma_split_none(zero, COLON);
    assert(decimal(0) == zero);
    lemma_declared_size_of_decimal(0);
}

/// A file's line reads as its path and the size it was written with.
pub proof fn lemma_file_text(path: Seq<u8>, size: nat)
    requires
        forall|k: int| 0 <= k < path.len() ==> #[trigger] path[k] != COLON,
        leading_space(path) == 0,
        size <= usize::MAX,
    ensures
        trimmed(file_text(path, size)) == file_text(path, size),
        file_text(path, size).len() > 0,
        split_on(file_text(path, size), COLON) == seq![path, decimal(size)],
        declared_size(decimal(size)) == size,
{
    let line = file_text(path, size);
    let digits = decimal(size);
    lemma_decimal(size);
    assert(line.last() == digits.last());
    assert(is_digit(digits.last()));
    assert(line == path + (seq![COLON] + digits));
    lemma_leading_space_before(path, seq![COLON] + digits);
    lemma_trailing_space_after_text(line);
    lemma_trimmed_unchanged(line);
    lemma_split_first(path, digits, COLON);
    assert forall|k: int| 0 <= k < digits.len() implies #[trigger] digits[k] != COLON by {
        assert(is_digit(digits[k]));
    }
    lemma_split_none(digits, COLON);
    lemma_declared_size_of_decimal(size);
}

/// Splitting what the directories wrote, with more behind it, gives their
/// lines and then the lines of what is behind.
pub proof fn lemma_split_directory_lines(entries: Seq<EntryModel>, tail: Seq<u8>)
    requires
        forall|i: int| 0 <= i < entries.len() ==> archivable(#[trigger] entries[i]),
    ensures
        split_on(directory_lines(entries) + tail, LINE_FEED) == directory_texts(entries) + split_on(
            tail,
            LINE_FEED,
        ),
    decreases entries.len(),
{
    if entries.len() == 0 {
        assert(directory_lines(entries) + tail == tail);
    } else {
        let rest = entries.drop_first();
        assert forall|i: int| 0 <= i < rest.len() implies archivable(#[trigger] rest[i]) by {
            assert(rest[i] == entries[i + 1]);
        }
        lemma_split_directory_lines(rest, tail);
        if entries[0].is_directory {
            let path = entries[0].path;
            let text = directory_text(path);
            assert(archivable(entries[0]));
            assert forall|k: int| 0 <= k < text.len() implies #[trigger] text[k] != LINE_FEED by {
                if k < path.len() {
                    assert(text[k] == path[k]);
                }
            }
            lemma_split_first(text, directory_lines(rest) + tail, LINE_FEED);
            assert(directory_lines(entries) + tail == text + seq![LINE_FEED] + (directory_lines(rest)
                + tail));
        }
    }
}

/// Splitting what the files wrote, with more behind it, gives for each file
/// its line and its content, and then the lines of what is behind.
pub proof fn lemma_split_file_records(entries: Seq<EntryModel>, tail: Seq<u8>)
    requires
        forall|i: int| 0 <= i < entries.len() ==> archivable(#[trigger] entries[i]),
    ensures
        split_on(file_records(entries) + tail, LINE_FEED) == file_texts(entries) + split_on(
            tail,
            LINE_FEED,
        ),
    decreases entries.len(),
{
    if entries.len() == 0 {
        assert(file_records(entries) + tail == tail);
    } else {
        let rest = entries.drop_first();
        assert forall|i: int| 0 <= i < rest.len() implies archivable(#[trigger] rest[i]) by {
            assert(rest[i] == entries[i + 1]);
        }
        lemma_split_file_records(rest, tail);
        if !entries[0].is_directory {
            let path = entries[0].path;
            let content = entries[0].content;
            let text = file_text(path, content.len());
            let behind = file_records(rest) + tail;
            assert(archivable(entries[0]));
            lemma_decimal(content.len());
            assert forall|k: int| 0 <= k < text.len() implies #[trigger] text[k] != LINE_FEED by {
                if k < path.len() {
                    assert(text[k] == path[k]);
                } else if k > path.len() {
                    assert(text[k] == decimal(content.len())[k - path.len() - 1]);
                    assert(is_digit(text[k]));
                }
            }
            lemma_split_first(text, content + seq![LINE_FEED] + behind, LINE_FEED);
            lemma_split_first(content, behind, LINE_FEED);
            assert(file_records(entries) + tail == text + seq![LINE_FEED] + (content + seq![
                LINE_FEED,
            ] + behind));
            assert(seq![text] + (seq![content] + (file_texts(rest) + split_on(tail, LINE_FEED)))
                == seq![text, content] + file_texts(rest) + split_on(tail, LINE_FEED));
        }
    }
}

/// Reading the lines of the directories, with more lines behind them, gives
/// the directories and then the entries of the lines behind.
pub proof fn lemma_read_directory_texts(entries: Seq<EntryModel>, behind: Seq<Seq<u8>>)
    requires
        forall|i: int| 0 <= i < entries.len() ==> archivable(#[trigger] entries[i]),
    ensures
        entries_of(directory_texts(entries) + behind) == directories_of(entries) + entries_of(
            behind,
        ),
    decreases entries.len(),
{
    if entries.len() == 0 {
        assert(directory_texts(entries) + behind == behind);
    } else {
        let rest = entries.drop_first();
        assert forall|i: int| 0 <= i < rest.len() implies archivable(#[trigger] rest[i]) by {
            assert(rest[i] == entries[i + 1]);
        }
        lemma_read_directory_texts(rest, behind);
        if entries[0].is_directory {
            let path = entries[0].path;
            assert(archivable(entries[0]));
            lemma_directory_text(path);
            let lines = directory_texts(entries) + behind;
            assert(lines[0] == directory_text(path));
            assert(lines.skip(1) == directory_texts(rest) + behind);
            assert(seq![directory_model(path)] + (directories_of(rest) + entries_of(behind))
                == directories_of(entries) + entries_of(behind));
        }
    }
}

/// Reading the lines of the files, with more lines behind them, gives the
/// files and then the entries of the lines behind.
pub proof fn lemma_read_file_texts(entries: Seq<EntryModel>, behind: Seq<Seq<u8>>)
    requires
        forall|i: int| 0 <= i < entries.len() ==> archivable(#[trigger] entries[i]),
    ensures
        entries_of(file_texts(entries) + behind) == files_of(entries) + entries_of(behind),
    decreases entries.len(),
{
    if entries.len() == 0 {
        assert(file_texts(entries) + behind == behind);
    } else {
        let rest = entries.drop_first();
        assert forall|i: int| 0 <= i < rest.len() implies archivable(#[trigger] rest[i]) by {
            assert(rest[i] == entries[i + 1]);
        }
        lemma_read_file_texts(rest, behind);
        if !entries[0].is_directory {
            let path = entries[0].path;
            let content = entries[0].content;
            assert(archivable(entries[0]));
            lemma_file_text(path, content.len());
            let lines = file_texts(entries) + behind;
            assert(lines[0] == file_text(path, content.len()));
            assert(lines[1] == content);
            assert(lines.skip(2) == file_texts(rest) + behind);
            assert(seq![file_model(path, content.len(), content)] + (files_of(rest) + entries_of(
                behind,
            )) == files_of(entries) + entries_of(behind));
        }
    }
}

/// An archive of entries that the format can carry reads back as the same
/// tree: every directory with its path, every file with its path and its
/// bytes, the directories first and each group in the order it was written.
pub proof fn lemma_archive_round_trip(entries: Seq<EntryModel>)
    requires
        forall|i: int| 0 <= i < entries.len() ==> archivable(#[trigger] entries[i]),
    ensures
        parsed_archive(archive_bytes(entries)) == Some(
            directories_of(entries) + files_of(entries),
        ),
{
    let data = archive_bytes(entries);
    let body = directory_lines(entries) + file_records(entries);
    assert(data.take(HEADER_LEN as int) == ARCHIVE_HEADER@);
    assert(has_header(data));
    assert(data.skip(HEADER_LEN as int) == body);
    let none = Seq::<u8>::empty();
    let last = seq![none];
    lemma_split_none(none, LINE_FEED);
    assert(file_records(entries) + none == file_records(entries));
    lemma_split_file_records(entries, none);
    lemma_split_directory_lines(entries, file_records(entries));
    lemma_read_directory_texts(entries, file_texts(entries) + last);
    lemma_read_file_texts(entries, last);
    assert(trimmed(none) == none);
    assert(last[0] == none);
    assert(last.skip(1) == Seq::<Seq<u8>>::empty());
    assert(entries_of(last.skip(1)) == Seq::<EntryModel>::empty());
    assert(entries_of(last) == Seq::<EntryModel>::empty());
    assert(directories_of(entries) + (files_of(entries) + Seq::<EntryModel>::empty())
        == directories_of(entries) + files_of(entries));
}

/// What every entry that is read from lines looks like: the path holds no
/// colon and no line feed and does not begin with a white-space character; a directory has
/// size zero and no content; a file has a size above zero that fits the
/// machine, and no line feed in its content.
pub open spec fn readable(e: EntryModel) -> bool {
    &&& forall|k: int| 0 <= k < e.path.len() ==> #[trigger] e.path[k] != COLON
    &&& forall|k: int| 0 <= k < e.path.len() ==> #[trigger] e.path[k] != LINE_FEED
    &&& leading_space(e.path) == 0
    &&& e.is_directory ==> e.size == 0 && e.content.len() == 0
    &&& !e.is_directory ==> {
        &&& 0 < e.size <= usize::MAX
        &&& forall|k: int| 0 <= k < e.content.len() ==> #[trigger] e.content[k] != LINE_FEED
    }
}

/// An entry as an archive gives it back, where it gives it back: a directory
/// with size zero and no content, a file with the length of its content as
/// size.
pub open spec fn read_back(e: EntryModel) -> EntryModel {
    if e.is_directory {
        directory_model(e.path)
    } else {
        file_model(e.path, e.content.len(), e.content)
    }
}

/// What is left after trimming the front is the end of the input, and does
/// not begin with white space.
pub proof fn lemma_trim_start(s: Seq<u8>)
    ensures
        trim_start(s).len() <= s.len(),
        trim_start(s) == s.skip(s.len() - trim_start(s).len()),
        leading_space(trim_start(s)) == 0,
    decreases s.len(),
{
    if leading_space(s) > 0 {
        let t = s.skip(leading_space(s) as int);
        lemma_trim_start(t);
        assert(t.skip(t.len() - trim_start(t).len()) == s.skip(s.len() - trim_start(s).len()));
    } else {
        assert(s.skip(0) == s);
    }
}

/// What is left after trimming the end is the front of the input.
pub proof fn lemma_trim_end(s: Seq<u8>)
    ensures
        trim_end(s).len() <= s.len(),
        trim_end(s) == s.take(trim_end(s).len() as int),
    decreases s.len(),
{
    if trailing_space(s) > 0 {
        let t = s.take(s.len() - trailing_space(s));
        lemma_trim_end(t);
        assert(t.take(trim_end(t).len() as int) == s.take(trim_end(s).len() as int));
    } else {
        assert(s.take(s.len() as int) == s);
    }
}

/// A trimmed line is a piece of the line, and does not begin with white
/// space.
pub proof fn lemma_trimmed(s: Seq<u8>)
    ensures
        exists|from: int, to: int|
            0 <= from <= to <= s.len() && trimmed(s) == #[trigger] s.subrange(from, to),
        leading_space(trimmed(s)) == 0,
{
    let front = trim_start(s);
    lemma_trim_start(s);
    lemma_trim_end(front);
    let from = s.len() - front.len();
    let to = from + trimmed(s).len();
    assert(trimmed(s) == s.subrange(from, to));
    lemma_leading_space_of_front(front, trimmed(s).len() as int);
}

/// A line with exactly one separator splits into what stands before it and
/// what stands behind it.
pub proof fn lemma_split_in_two(s: Seq<u8>, separator: u8)
    requires
        split_on(s, separator).len() == 2,
    ensures
        find_byte(s, separator) < s.len(),
        split_on(s, separator)[0] == s.take(find_byte(s, separator) as int),
        split_on(s, separator)[1] == s.skip(find_byte(s, separator) as int + 1),
{
    let k = find_byte(s, separator) as int;
    lemma_find_byte(s, separator);
    let behind = s.skip(k + 1);
    let j = find_byte(behind, separator) as int;
    assert(k < s.len());
    assert(split_on(s, separator) == seq![s.take(k)] + split_on(behind, separator));
    if j < behind.len() {
        lemma_split_on(behind.skip(j + 1), separator);
        assert(split_on(behind, separator) == seq![behind.take(j)] + split_on(
            behind.skip(j + 1),
            separator,
        ));
    } else {
        assert(split_on(behind, separator) == seq![behind]);
    }
}

/// Every entry that is read from lines without line feeds is `readable`.
pub proof fn lemma_entries_readable(lines: Seq<Seq<u8>>)
    requires
        forall|i: int, k: int|
            0 <= i < lines.len() && 0 <= k < lines[i].len() ==> #[trigger] lines[i][k]
                != LINE_FEED,
    ensures
        forall|j: int| 0 <= j < entries_of(lines).len() ==> readable(#[trigger] entries_of(lines)[j]),
    decreases lines.len(),
{
    if lines.len() > 0 {
        let entry = trimmed(lines[0]);
        let parts = split_on(entry, COLON);
        let one = lines.skip(1);
        let two = lines.skip(2);
        assert forall|i: int, k: int| 0 <= i < one.len() && 0 <= k < one[i].len() implies #[trigger] one[i][k]
            != LINE_FEED by {
            assert(one[i] == lines[i + 1]);
        }
        lemma_entries_readable(one);
        if entry.len() == 0 || parts.len() != 2 {
            assert(entries_of(lines) == entries_of(one));
        } else {
            lemma_trimmed(lines[0]);
            lemma_split_in_two(entry, COLON);
            lemma_find_byte(entry, COLON);
            let path = parts[0];
            let (from, to) = choose|from: int, to: int|
                0 <= from <= to <= lines[0].len() && entry == #[trigger] lines[0].subrange(
                    from,
                    to,
                );
            assert forall|k: int| 0 <= k < path.len() implies #[trigger] path[k] != LINE_FEED by {
                assert(path[k] == lines[0][from + k]);
            }
            assert forall|k: int| 0 <= k < path.len() implies #[trigger] path[k] != COLON by {
                assert(path[k] == entry[k]);
            }
            lemma_leading_space_of_front(entry, find_byte(entry, COLON) as int);
            let size = declared_size(parts[1]);
            if size > 0 && lines.len() >= 2 {
                assert forall|i: int, k: int|
                    0 <= i < two.len() && 0 <= k < two[i].len() implies #[trigger] two[i][k]
                    != LINE_FEED by {
                    assert(two[i] == lines[i + 2]);
                }
                lemma_entries_readable(two);
                let first = file_model(path, size, lines[1]);
                assert(entries_of(lines) == seq![first] + entries_of(two));
                assert(parsed_size(parts[1]) is Some);
                assert(readable(first));
                assert forall|j: int| 0 <= j < entries_of(lines).len() implies readable(
                    #[trigger] entries_of(lines)[j],
                ) by {
                    if j > 0 {
                        assert(entries_of(lines)[j] == entries_of(two)[j - 1]);
                    }
                }
            } else {
                let first = directory_model(path);
                assert(entries_of(lines) == seq![first] + entries_of(one));
                assert(readable(first));
                assert forall|j: int| 0 <= j < entries_of(lines).len() implies readable(
                    #[trigger] entries_of(lines)[j],
                ) by {
                    if j > 0 {
                        assert(entries_of(lines)[j] == entries_of(one)[j - 1]);
                    }
                }
            }
        }
    }
}

/// Every directory among the entries is among `directories_of` them.
pub proof fn lemma_directories_hold(entries: Seq<EntryModel>, i: int)
    requires
        0 <= i < entries.len(),
        entries[i].is_directory,
    ensures
        exists|j: int|
            0 <= j < directories_of(entries).len() && #[trigger] directories_of(entries)[j]
                == read_back(entries[i]),
    decreases entries.len(),
{
    let rest = entries.drop_first();
    let all = directories_of(entries);
    if i == 0 {
        assert(all[0] == read_back(entries[0]));
    } else {
        lemma_directories_hold(rest, i - 1);
        let j = choose|j: int|
            0 <= j < directories_of(rest).len() && #[trigger] directories_of(rest)[j] == read_back(
                rest[i - 1],
            );
        if entries[0].is_directory {
            assert(all[j + 1] == directories_of(rest)[j]);
        } else {
            assert(all[j] == directories_of(rest)[j]);
        }
    }
}

/// Every file among the entries is among `files_of` them.
pub proof fn lemma_files_hold(entries: Seq<EntryModel>, i: int)
    requires
        0 <= i < entries.len(),
        !entries[i].is_directory,
    ensures
        exists|j: int|
            0 <= j < files_of(entries).len() && #[trigger] files_of(entries)[j] == read_back(
                entries[i],
            ),
    decreases entries.len(),
{
    let rest = entries.drop_first();
    let all = files_of(entries);
    if i == 0 {
        assert(all[0] == read_back(entries[0]));
    } else {
        lemma_files_hold(rest, i - 1);
        let j = choose|j: int|
            0 <= j < files_of(rest).len() && #[trigger] files_of(rest)[j] == read_back(rest[i - 1]);
        if !entries[0].is_directory {
            assert(all[j + 1] == files_of(rest)[j]);
        } else {
            assert(all[j] == files_of(rest)[j]);
        }
    }
}

/// The format carries nothing but what `archivable` admits: where an archive
/// reads back as the tree it was written from, every entry of the tree is
/// archivable. A file with a line feed in its bytes, an empty file, or a path
/// with a colon in it never comes back as it went in.
pub proof fn lemma_round_trip_needs_archivable(entries: Seq<EntryModel>)
    requires
        parsed_archive(archive_bytes(entries)) == Some(
            directories_of(entries) + files_of(entries),
        ),
    ensures
        forall|i: int| 0 <= i < entries.len() ==> archivable(#[trigger] entries[i]),
{
    let data = archive_bytes(entries);
    let lines = split_on(data.skip(HEADER_LEN as int), LINE_FEED);
    let back = directories_of(entries) + files_of(entries);
    lemma_split_on(data.skip(HEADER_LEN as int), LINE_FEED);
    lemma_entries_readable(lines);
    assert(entries_of(lines) == back);
    assert forall|i: int| 0 <= i < entries.len() implies archivable(#[trigger] entries[i]) by {
        if entries[i].is_directory {
            lemma_directories_hold(entries, i);
            let j = choose|j: int|
                0 <= j < directories_of(entries).len() && #[trigger] directories_of(entries)[j]
                    == read_back(entries[i]);
            assert(back[j] == read_back(entries[i]));
        } else {
            lemma_files_hold(entries, i);
            let j = choose|j: int|
                0 <= j < files_of(entries).len() && #[trigger] files_of(entries)[j] == read_back(
                    entries[i],
                );
            assert(back[directories_of(entries).len() + j] == read_back(entries[i]));
        }
        assert(readable(read_back(entries[i])));
    }
}

} // verus!
