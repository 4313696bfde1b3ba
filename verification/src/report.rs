//! The lines of the reports.
//!
//! Every report is a list of lines, one per item. Columns are padded with
//! spaces to a fixed width, counted in characters; a text that is wider than
//! its column is written in full.

use vstd::prelude::*;
use crate::aggregate::Aggregator;
use crate::extensions::{group_keys, ExtensionEntry, ExtensionSummary, Group};
use crate::files::{records, sizes, top_n, FileList, FileRecord, Record, DEFAULT_TOP};
use crate::ranking::{lemma_ranking_of, pick, ranking, top_ranking};
use crate::total::TotalSize;
use crate::units::{decimal, decimal_string, format_size, formatted_size};

verus! {

/// `n` spaces.
pub open spec fn spaces(n: int) -> Seq<char> {
    Seq::new(
        if n > 0 {
            n as nat
        } else {
            0
        },
        |i: int| ' ',
    )
}

/// The text followed by the spaces that fill it up to `width` characters.
pub open spec fn pad_right(text: Seq<char>, width: int) -> Seq<char> {
    text + spaces(width - text.len())
}

/// The text preceded by the spaces that fill it up to `width` characters.
pub open spec fn pad_left(text: Seq<char>, width: int) -> Seq<char> {
    spaces(width - text.len()) + text
}

/// The line for one extension group: the label in a column of 10, the file
/// count right-aligned in 6 and followed by `files`, and the size
/// right-aligned in 10.
pub open spec fn summary_line(group: Group) -> Seq<char> {
    pad_right(group.label, 10) + seq![' '] + pad_left(decimal(group.count), 6) + seq![
        ' ',
        'f',
        'i',
        'l',
        'e',
        's',
        ' ',
        ' ',
    ] + pad_left(formatted_size(group.size as u64), 10)
}

/// The line for a file with its rank: the rank and a point, the path in a
/// column of 10, and the size right-aligned in 8.
pub open spec fn ranked_line(rank: nat, file: Record) -> Seq<char> {
    decimal(rank) + seq!['.', ' '] + pad_right(file.path, 10) + seq![' '] + pad_left(
        formatted_size(file.size),
        8,
    )
}

/// The line for a file without a rank: the size in a column of 10, then the
/// path.
pub open spec fn sized_line(file: Record) -> Seq<char> {
    pad_right(formatted_size(file.size), 10) + seq![' '] + file.path
}

fn push_spaces(text: &mut String, width: usize, used: usize)
    ensures
        final(text)@ == old(text)@ + spaces(width - used),
{
    let ghost start = text@;
    let mut i: usize = used;
    assert(text@ =~= start + spaces(0));
    while i < width
        invariant
            used <= i,
            i <= width || i == used,
            text@ == start + spaces(i - used),
        decreases width - i,
    {
        proof {
            reveal_strlit(" ");
        }
        text.append(" ");
        i = i + 1;
        assert(text@ =~= start + spaces(i - used));
    }
    assert(spaces(i - used) =~= spaces(width - used));
}

/// Appends `field` to `text`, left-aligned in a column of `width`.
fn push_left(text: &mut String, field: &str, width: usize)
    ensures
        final(text)@ == old(text)@ + pad_right(field@, width as int),
{
    let ghost start = text@;
    let used: usize = field.unicode_len();
    text.append(field);
    push_spaces(text, width, used);
    assert(text@ =~= start + pad_right(field@, width as int));
}

/// Appends `field` to `text`, right-aligned in a column of `width`.
fn push_right(text: &mut String, field: &str, width: usize)
    ensures
        final(text)@ == old(text)@ + pad_left(field@, width as int),
{
    let ghost start = text@;
    let used: usize = field.unicode_len();
    push_spaces(text, width, used);
    text.append(field);
    assert(text@ =~= start + pad_left(field@, width as int));
}

/// The report of the total size: the byte count in its unit.
pub fn total_line(total: &TotalSize) -> (line: String)
    ensures
        line@ == formatted_size(total.model() as u64),
{
    format_size(total.bytes())
}

fn entry_line(entry: &ExtensionEntry) -> (line: String)
    ensures
        line@ == summary_line(entry@),
{
    proof {
        reveal_strlit(" ");
        reveal_strlit(" files  ");
    }
    let mut line = String::new();
    push_left(&mut line, entry.label.as_str(), 10);
    line.append(" ");
    push_right(&mut line, decimal_string(entry.count as u64).as_str(), 6);
    line.append(" files  ");
    push_right(&mut line, format_size(entry.size).as_str(), 10);
    assert(line@ =~= summary_line(entry@));
    line
}

/// The report by extension: one line per group, largest total size first;
/// groups of equal size in the order in which their first file was met.
pub fn summary_lines(summary: &ExtensionSummary) -> (lines: Vec<String>)
    ensures
        lines@.len() == summary.model().len(),
        forall|k: int|
            0 <= k < lines@.len() ==> (#[trigger] lines@[k])@ == summary_line(
                summary.model()[ranking(group_keys(summary.model()))[k]],
            ),
{
    let sorted = summary.sorted_entries();
    let mut lines: Vec<String> = Vec::new();
    let mut k: usize = 0;
    while k < sorted.len()
        invariant
            k <= sorted@.len(),
            lines@.len() == k,
            forall|j: int| 0 <= j < k ==> (#[trigger] lines@[j])@ == summary_line(sorted@[j]@),
        decreases sorted@.len() - k,
    {
        lines.push(entry_line(&sorted[k]));
        k = k + 1;
    }
    proof {
        let order = ranking(group_keys(summary.model()));
        lemma_ranking_of(group_keys(summary.model()), summary.model().len() as int);
        assert forall|j: int| 0 <= j < lines@.len() implies (#[trigger] lines@[j])@
            == summary_line(summary.model()[order[j]]) by {
            assert(crate::extensions::groups_of(sorted@)[j] == sorted@[j]@);
            assert(pick(summary.model(), order)[j] == summary.model()[order[j]]);
        }
    }
    lines
}

fn rank_line(rank: usize, file: &FileRecord) -> (line: String)
    ensures
        line@ == ranked_line(rank as nat, file@),
{
    proof {
        reveal_strlit(" ");
        reveal_strlit(". ");
    }
    let mut line = decimal_string(rank as u64);
    line.append(". ");
    push_left(&mut line, file.path.as_str(), 10);
    line.append(" ");
    push_right(&mut line, format_size(file.size).as_str(), 8);
    assert(line@ =~= ranked_line(rank as nat, file@));
    line
}

/// The report of the `n` largest files: one line per file, largest first,
/// each with its rank counted from 1.
pub fn ranked_lines(files: &FileList, n: usize) -> (lines: Vec<String>)
    ensures
        lines@.len() == if n < files.model().len() { n as int } else { files.model().len() as int },
        forall|k: int|
            0 <= k < lines@.len() ==> (#[trigger] lines@[k])@ == ranked_line(
                (k + 1) as nat,
                files.model()[top_ranking(sizes(files.model()), n as int)[k]],
            ),
{
    let top = top_n(files.files(), n);
    let mut lines: Vec<String> = Vec::new();
    let mut k: usize = 0;
    while k < top.len()
        invariant
            k <= top@.len(),
            lines@.len() == k,
            forall|j: int|
                0 <= j < k ==> (#[trigger] lines@[j])@ == ranked_line((j + 1) as nat, top@[j]@),
        decreases top@.len() - k,
    {
        lines.push(rank_line(k + 1, &top[k]));
        k = k + 1;
    }
    proof {
        let order = top_ranking(sizes(files.model()), n as int);
        lemma_ranking_of(sizes(files.model()), files.model().len() as int);
        assert forall|j: int| 0 <= j < lines@.len() implies (#[trigger] lines@[j])@ == ranked_line(
            (j + 1) as nat,
            files.model()[order[j]],
        ) by {
            assert(records(top@)[j] == top@[j]@);
            assert(pick(files.model(), order)[j] == files.model()[order[j]]);
        }
    }
    lines
}

fn size_line(file: &FileRecord) -> (line: String)
    ensures
        line@ == sized_line(file@),
{
    proof {
        reveal_strlit(" ");
    }
    let mut line = String::new();
    push_left(&mut line, format_size(file.size).as_str(), 10);
    line.append(" ");
    line.append(file.path.as_str());
    assert(line@ =~= sized_line(file@));
    line
}

/// The report of the ten largest files: one line per file, largest first,
/// the size in front.
pub fn largest_lines(files: &FileList) -> (lines: Vec<String>)
    ensures
        lines@.len() == if DEFAULT_TOP < files.model().len() {
            DEFAULT_TOP as int
        } else {
            files.model().len() as int
        },
        forall|k: int|
            0 <= k < lines@.len() ==> (#[trigger] lines@[k])@ == sized_line(
                files.model()[top_ranking(sizes(files.model()), DEFAULT_TOP as int)[k]],
            ),
{
    let top = top_n(files.files(), DEFAULT_TOP);
    let mut lines: Vec<String> = Vec::new();
    let mut k: usize = 0;
    while k < top.len()
        invariant
            k <= top@.len(),
            lines@.len() == k,
            forall|j: int| 0 <= j < k ==> (#[trigger] lines@[j])@ == sized_line(top@[j]@),
        decreases top@.len() - k,
    {
        lines.push(size_line(&top[k]));
        k = k + 1;
    }
    proof {
        let order = top_ranking(sizes(files.model()), DEFAULT_TOP as int);
        lemma_ranking_of(sizes(files.model()), files.model().len() as int);
        assert forall|j: int| 0 <= j < lines@.len() implies (#[trigger] lines@[j])@ == sized_line(
            files.model()[order[j]],
        ) by {
            assert(records(top@)[j] == top@[j]@);
            assert(pick(files.model(), order)[j] == files.model()[order[j]]);
        }
    }
    lines
}

} // verus!
