//! The word source: one column of a comma-separated table, as a list of words.
//!
//! The first line of the text names the columns. Fields are separated by
//! commas; there is no quoting. Lines end with a line feed, or with a
//! carriage return and a line feed, and the last line needs no ending.

use vstd::prelude::*;
use vstd::std_specs::iter::IteratorSpec;

verus! {

/// Why a text yields no column.
#[derive(Debug, Clone, Copy, PartialEq, Eq)]
pub enum SourceError {
    /// The text has no line, and so no names of columns.
    NoHeader,
    /// No column has the name asked for.
    MissingColumn,
    /// A line after the first has too few fields to reach the column.
    ShortRow,
}

/// `String::push` of the standard library: the character is appended, and
/// nothing else changes.
pub assume_specification[ String::push ](text: &mut String, ch: char)
    ensures
        final(text)@ == old(text)@.push(ch),
;

/// The number of characters of `s` before the first `sep`, or the length of
/// `s` where it holds none.
pub open spec fn first_sep(s: Seq<char>, sep: char) -> int
    decreases s.len(),
{
    if s.len() == 0 || s[0] == sep {
        0
    } else {
        1 + first_sep(s.drop_first(), sep)
    }
}

/// The pieces of `s` between the occurrences of `sep`: one more piece than
/// there are occurrences.
pub open spec fn split(s: Seq<char>, sep: char) -> Seq<Seq<char>>
    decreases s.len(),
{
    let i = first_sep(s, sep);
    if 0 <= i < s.len() {
        seq![s.take(i)] + split(s.skip(i + 1), sep)
    } else {
        seq![s]
    }
}

/// `line` without the carriage return at its end, if it has one.
pub open spec fn strip_cr(line: Seq<char>) -> Seq<char> {
    if line.len() > 0 && line.last() == '\r' {
        line.drop_last()
    } else {
        line
    }
}

/// The lines of `s`. A line ends with a line feed, which is not part of it,
/// nor is a carriage return just before that line feed. What follows the last
/// line feed is a line too, unless it is empty.
pub open spec fn lines_of(s: Seq<char>) -> Seq<Seq<char>>
    decreases s.len(),
{
    if s.len() == 0 {
        Seq::empty()
    } else {
        let i = first_sep(s, '\n');
        if 0 <= i < s.len() {
            seq![strip_cr(s.take(i))] + lines_of(s.skip(i + 1))
        } else {
            seq![s]
        }
    }
}

/// The place of the last of `names` that equals `name`, or -1 where none does.
pub open spec fn last_match(names: Seq<Seq<char>>, name: Seq<char>) -> int
    decreases names.len(),
{
    if names.len() == 0 {
        -1
    } else if names.last() == name {
        names.len() - 1
    } else {
        last_match(names.drop_last(), name)
    }
}

/// Every row has a field at place `at`.
pub open spec fn rows_reach(rows: Seq<Seq<char>>, at: int) -> bool {
    forall|r: int| 0 <= r < rows.len() ==> at < (#[trigger] split(rows[r], ',')).len()
}

/// The field at place `at` of each row.
pub open spec fn cells(rows: Seq<Seq<char>>, at: int) -> Seq<Seq<char>> {
    Seq::new(rows.len(), |r: int| split(rows[r], ',')[at])
}

/// The column named `column` of the table `text`: the field of each line
/// after the first that stands below the last column of that name.
pub open spec fn column_of(text: Seq<char>, column: Seq<char>) -> Result<
    Seq<Seq<char>>,
    SourceError,
> {
    let lines = lines_of(text);
    if lines.len() == 0 {
        Err(SourceError::NoHeader)
    } else {
        let at = last_match(split(lines[0], ','), column);
        if at < 0 {
            Err(SourceError::MissingColumn)
        } else if !rows_reach(lines.skip(1), at) {
            Err(SourceError::ShortRow)
        } else {
            Ok(cells(lines.skip(1), at))
        }
    }
}

/// Law: a column has one word for each line after the first, in the order of
/// the lines, and the word of a line is the field of that line that stands
/// below the last name that equals the name of the column.
pub proof fn lemma_one_word_per_row(text: Seq<char>, column: Seq<char>)
    requires
        column_of(text, column) is Ok,
    ensures
        lines_of(text).len() > 0,
        0 <= last_match(split(lines_of(text)[0], ','), column) < split(
            lines_of(text)[0],
            ',',
        ).len(),
        split(lines_of(text)[0], ',')[last_match(split(lines_of(text)[0], ','), column)]
            == column,
        column_of(text, column)->Ok_0.len() == lines_of(text).len() - 1,
        forall|r: int|
            0 <= r < lines_of(text).len() - 1 ==> #[trigger] column_of(text, column)->Ok_0[r]
                == split(lines_of(text).skip(1)[r], ',')[last_match(
                split(lines_of(text)[0], ','),
                column,
            )],
{
    lemma_last_match(split(lines_of(text)[0], ','), column);
}

/// Where a name is among the names, `last_match` gives the place of the last
/// one that equals it, and otherwise -1.
pub proof fn lemma_last_match(names: Seq<Seq<char>>, name: Seq<char>)
    ensures
        -1 <= last_match(names, name) < names.len(),
        last_match(names, name) >= 0 ==> names[last_match(names, name)] == name,
        forall|i: int| last_match(names, name) < i < names.len() ==> names[i] != name,
    decreases names.len(),
{
    if names.len() > 0 && names.last() != name {
        lemma_last_match(names.drop_last(), name);
        assert forall|i: int| last_match(names, name) < i < names.len() implies names[i]
            != name by {
            if i < names.len() - 1 {
                assert(names.drop_last()[i] == names[i]);
            }
        }
    }
}

/// A run without `sep` in front of `rest` moves the first `sep` by its length.
pub proof fn lemma_first_sep_after(run: Seq<char>, rest: Seq<char>, sep: char)
    requires
        !run.contains(sep),
    ensures
        first_sep(run + rest, sep) == run.len() + first_sep(rest, sep),
        0 <= first_sep(rest, sep) <= rest.len(),
    decreases run.len() + rest.len(),
{
    if run.len() == 0 {
        assert(run + rest =~= rest);
        if rest.len() > 0 && rest[0] != sep {
            lemma_first_sep_after(run, rest.drop_first(), sep);
        }
    } else {
        assert(run[0] != sep) by {
            assert(run.contains(run[0]));
        }
        assert((run + rest).drop_first() =~= run.drop_first() + rest);
        assert(!run.drop_first().contains(sep)) by {
            if run.drop_first().contains(sep) {
                let i = choose|i: int| 0 <= i < run.drop_first().len() && run.drop_first()[i] == sep;
                assert(run[i + 1] == sep);
            }
        }
        lemma_first_sep_after(run.drop_first(), rest, sep);
    }
}

/// The fields of `line`.
pub fn split_fields(line: &str) -> (fields: Vec<String>)
    ensures
        fields.deep_view() == split(line@, ','),
{
    let mut fields: Vec<String> = Vec::new();
    let mut current = String::new();
    let mut letters = line.chars();
    let ghost mut read: int = 0;
    proof {
        assert(line@.skip(0) =~= line@);
        assert(current@ + line@ =~= line@);
        assert(fields.deep_view() + split(line@, ',') =~= split(line@, ','));
    }
    loop
        invariant_except_break
            0 <= read <= line@.len(),
            letters.remaining() == line@.skip(read),
            !current@.contains(','),
            split(line@, ',') == fields.deep_view() + split(current@ + line@.skip(read), ','),
        ensures
            fields.deep_view() == split(line@, ','),
        decreases line@.len() - read,
    {
        let ghost done = fields.deep_view();
        let ghost run = current@;
        let ghost rest = line@.skip(read);
        match letters.next() {
            None => {
                proof {
                    assert(run + rest =~= run);
                    lemma_first_sep_after(run, rest, ',');
                }
                fields.push(current);
                proof {
                    assert(fields.deep_view() =~= done + seq![run]);
                }
                break ;
            },
            Some(letter) => {
                proof {
                    assert(rest.drop_first() =~= line@.skip(read + 1));
                    lemma_first_sep_after(run, rest, ',');
                }
                if letter == ',' {
                    fields.push(current);
                    current = String::new();
                    proof {
                        assert((run + rest).take(run.len() as int) =~= run);
                        assert((run + rest).skip(run.len() as int + 1) =~= line@.skip(read + 1));
                        assert(current@ + line@.skip(read + 1) =~= line@.skip(read + 1));
                        assert(fields.deep_view() =~= done + seq![run]);
                        assert(split(line@, ',') =~= fields.deep_view() + split(
                            current@ + line@.skip(read + 1),
                            ',',
                        ));
                    }
                } else {
                    current.push(letter);
                    proof {
                        assert(current@ + line@.skip(read + 1) =~= run + rest);
                        assert(!current@.contains(',')) by {
                            if current@.contains(',') {
                                let i = choose|i: int| 0 <= i < current@.len() && current@[i] == ',';
                                assert(run[i] == ',');
                            }
                        }
                    }
                }
                proof {
                    read = read + 1;
                }
            },
        }
    }
    fields
}

/// What the line in progress holds: the characters taken so far, and the
/// carriage return that is held back until the next character shows whether
/// it ends the line.
pub open spec fn in_progress(taken: Seq<char>, held: bool) -> Seq<char> {
    if held {
        taken.push('\r')
    } else {
        taken
    }
}

/// The lines of `text`.
pub fn split_lines(text: &str) -> (lines: Vec<String>)
    ensures
        lines.deep_view() == lines_of(text@),
{
    let mut lines: Vec<String> = Vec::new();
    let mut current = String::new();
    let mut held = false;
    let mut letters = text.chars();
    let ghost mut read: int = 0;
    proof {
        assert(text@.skip(0) =~= text@);
        assert(in_progress(current@, held) + text@ =~= text@);
        assert(lines.deep_view() + lines_of(text@) =~= lines_of(text@));
    }
    loop
        invariant_except_break
            0 <= read <= text@.len(),
            letters.remaining() == text@.skip(read),
            !current@.contains('\n'),
            !held ==> current@.len() == 0 || current@.last() != '\r',
            lines_of(text@) == lines.deep_view() + lines_of(
                in_progress(current@, held) + text@.skip(read),
            ),
        ensures
            lines.deep_view() == lines_of(text@),
        decreases text@.len() - read,
    {
        let ghost done = lines.deep_view();
        let ghost taken = current@;
        let ghost run = in_progress(current@, held);
        let ghost rest = text@.skip(read);
        proof {
            assert(!run.contains('\n')) by {
                if run.contains('\n') {
                    let i = choose|i: int| 0 <= i < run.len() && run[i] == '\n';
                    assert(taken[i] == '\n');
                }
            }
            lemma_first_sep_after(run, rest, '\n');
        }
        match letters.next() {
            None => {
                proof {
                    assert(run + rest =~= run);
                }
                if held {
                    current.push('\r');
                }
                if !current.as_str().is_empty() {
                    lines.push(current);
                    proof {
                        assert(lines.deep_view() =~= done + seq![run]);
                    }
                }
                proof {
                    assert(lines.deep_view() =~= done + lines_of(run));
                }
                break ;
            },
            Some(letter) => {
                proof {
                    assert(rest.drop_first() =~= text@.skip(read + 1));
                }
                if letter == '\n' {
                    lines.push(current);
                    current = String::new();
                    held = false;
                    proof {
                        assert((run + rest).take(run.len() as int) =~= run);
                        assert((run + rest).skip(run.len() as int + 1) =~= text@.skip(read + 1));
                        assert(strip_cr(run) =~= taken);
                        assert(in_progress(current@, held) + text@.skip(read + 1) =~= text@.skip(
                            read + 1,
                        ));
                        assert(lines.deep_view() =~= done + seq![taken]);
                        assert(lines_of(text@) =~= lines.deep_view() + lines_of(
                            in_progress(current@, held) + text@.skip(read + 1),
                        ));
                    }
                } else {
                    if held {
                        current.push('\r');
                    }
                    if letter == '\r' {
                        held = true;
                    } else {
                        current.push(letter);
                        held = false;
                    }
                    proof {
                        assert(in_progress(current@, held) + text@.skip(read + 1) =~= run + rest);
                        assert(!current@.contains('\n')) by {
                            if current@.contains('\n') {
                                let i = choose|i: int|
                                    0 <= i < current@.len() && current@[i] == '\n';
                                assert(run[i] == '\n');
                            }
                        }
                    }
                }
                proof {
                    read = read + 1;
                }
            },
        }
    }
    lines
}

/// The words of the column named `column` of the table `csv_text`, one for
/// each line after the first, in the order of the lines.
pub fn extract_from_csv_text(csv_text: String, column: String) -> (extracted: Result<
    Vec<String>,
    SourceError,
>)
    ensures
        match extracted {
            Ok(words) => column_of(csv_text@, column@) == Ok::<Seq<Seq<char>>, SourceError>(
                words.deep_view(),
            ),
            Err(error) => column_of(csv_text@, column@) == Err::<Seq<Seq<char>>, SourceError>(
                error,
            ),
        },
{
    let mut extracted: Vec<String> = Vec::new();

    let contents = split_lines(csv_text.as_str());
    if contents.len() == 0 {
        return Err(SourceError::NoHeader);
    }
    let columns = split_fields(contents[0].as_str());
    let ghost names = split(lines_of(csv_text@)[0], ',');
    let ghost rows = lines_of(csv_text@).skip(1);
    assert(columns.deep_view() == names);
    let mut column_to_use: usize = 0;
    let mut found = false;

    let mut index: usize = 0;
    while index < columns.len()
        invariant
            index <= columns.len(),
            columns.deep_view() == names,
            found ==> column_to_use < index,
            last_match(names.take(index as int), column@) == if found {
                column_to_use as int
            } else {
                -1
            },
        decreases columns.len() - index,
    {
        proof {
            assert(names.take(index as int + 1).drop_last() =~= names.take(index as int));
            assert(names.take(index as int + 1).last() == columns[index as int]@);
        }
        if column == columns[index] {
            column_to_use = index;
            found = true;
        }
        index += 1;
    }
    proof {
        assert(names.take(index as int) =~= names);
    }
    if !found {
        return Err(SourceError::MissingColumn);
    }
    let mut row: usize = 1;
    while row < contents.len()
        invariant
            1 <= row <= contents.len(),
            contents.deep_view() == lines_of(csv_text@),
            rows == lines_of(csv_text@).skip(1),
            names == split(lines_of(csv_text@)[0], ','),
            last_match(names, column@) == column_to_use as int,
            rows_reach(rows.take(row - 1), column_to_use as int),
            extracted.deep_view() == cells(rows.take(row - 1), column_to_use as int),
        decreases contents.len() - row,
    {
        let fields = split_fields(contents[row].as_str());
        proof {
            assert(rows[row - 1] == contents[row as int]@);
            assert(fields.deep_view() == split(rows[row - 1], ','));
        }
        if column_to_use >= fields.len() {
            proof {
                assert(split(rows[row - 1], ',').len() <= column_to_use);
            }
            return Err(SourceError::ShortRow);
        }
        let ghost before = extracted.deep_view();
        extracted.push(fields[column_to_use].clone());
        proof {
            assert(extracted.deep_view() =~= before.push(fields[column_to_use as int]@));
            assert(extracted.deep_view() =~= cells(rows.take(row as int), column_to_use as int));
            assert forall|r: int| 0 <= r < rows.take(row as int).len() implies (column_to_use as int)
                < (#[trigger] split(rows.take(row as int)[r], ',')).len() by {
                if r < row - 1 {
                    assert(rows.take(row as int)[r] == rows.take(row - 1)[r]);
                }
            }
        }
        row += 1;
    }
    proof {
        assert(rows.take(row - 1) =~= rows);
    }
    Ok(extracted)
}

} // verus!
