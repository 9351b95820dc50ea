//! Text made of lines, and lines made of fields between tabs.
use crate::common::chars::chars_between;
use vstd::prelude::*;

verus! {

/// The place of the next mark at or after some place; the end where there is
/// none.
pub open spec fn until(text: Seq<char>, mark: char, from: int) -> int
    decreases text.len() - from,
{
    if from >= text.len() {
        text.len() as int
    } else if text[from] == mark {
        from
    } else {
        until(text, mark, from + 1)
    }
}

/// A line that ends at some place: a carriage return before the line feed does
/// not belong to it.
pub open spec fn line_between(text: Seq<char>, from: int, end: int) -> Seq<char> {
    if end < text.len() && from < end && text[end - 1] == '\r' {
        text.subrange(from, end - 1)
    } else {
        text.subrange(from, end)
    }
}

/// The lines of a text from some place on. The last line need not end in a line
/// feed.
pub open spec fn lines_from(text: Seq<char>, from: int) -> Seq<Seq<char>>
    decreases text.len() + 1 - from,
{
    if from < 0 || from >= text.len() {
        Seq::empty()
    } else {
        proof {
            lemma_until(text, '\n', from);
        }
        let end = until(text, '\n', from);
        seq![line_between(text, from, end)] + lines_from(text, end + 1)
    }
}

/// The lines of a text.
pub open spec fn lines(text: Seq<char>) -> Seq<Seq<char>> {
    lines_from(text, 0)
}

/// The fields of a line from some place on, at most so many: the last one holds
/// the rest, tabs and all.
pub open spec fn fields_from(line: Seq<char>, count: nat, from: int) -> Seq<Seq<char>>
    decreases count,
{
    let end = until(line, '\t', from);
    if count <= 1 || end >= line.len() {
        seq![line.subrange(from, line.len() as int)]
    } else {
        seq![line.subrange(from, end)] + fields_from(line, (count - 1) as nat, end + 1)
    }
}

/// The fields of a line, at most so many.
pub open spec fn fields(line: Seq<char>, count: nat) -> Seq<Seq<char>> {
    fields_from(line, count, 0)
}

/// The next mark is where it is looked for.
pub proof fn lemma_until(text: Seq<char>, mark: char, from: int)
    requires
        0 <= from <= text.len(),
    ensures
        from <= until(text, mark, from) <= text.len(),
        forall|i: int| from <= i < until(text, mark, from) ==> text[i] != mark,
        until(text, mark, from) < text.len() ==> text[until(text, mark, from)] == mark,
    decreases text.len() - from,
{
    if from < text.len() && text[from] != mark {
        lemma_until(text, mark, from + 1);
    }
}

fn find_mark(text: &Vec<char>, mark: char, from: usize) -> (end: usize)
    requires
        from <= text@.len(),
    ensures
        end == until(text@, mark, from as int),
        from <= end <= text@.len(),
{
    let mut i: usize = from;
    while i < text.len() && text[i] != mark
        invariant
            from <= i <= text@.len(),
            until(text@, mark, from as int) == until(text@, mark, i as int),
        decreases text@.len() - i,
    {
        i += 1;
    }
    i
}

/// The models of lists of characters.
pub open spec fn texts(lists: Seq<Vec<char>>) -> Seq<Seq<char>> {
    lists.map_values(|list: Vec<char>| list@)
}

proof fn lemma_texts_push(lists: Seq<Vec<char>>, list: Vec<char>)
    ensures
        texts(lists.push(list)) == texts(lists).push(list@),
{
    assert(texts(lists.push(list)) =~= texts(lists).push(list@));
}

/// Splits a text into its lines.
pub fn split_lines(text: &Vec<char>) -> (out: Vec<Vec<char>>)
    ensures
        texts(out@) == lines(text@),
{
    let mut out: Vec<Vec<char>> = Vec::new();
    let mut from: usize = 0;
    let n = text.len();
    assert(texts(out@) =~= Seq::empty());
    while from < n
        invariant
            from <= n == text@.len(),
            lines(text@) == texts(out@) + lines_from(text@, from as int),
        decreases n - from,
    {
        let end = find_mark(text, '\n', from);
        let ghost before = out@;
        let line = if end < n && from < end && text[end - 1] == '\r' {
            chars_between(text, from, end - 1)
        } else {
            chars_between(text, from, end)
        };
        assert(line@ == line_between(text@, from as int, end as int));
        proof {
            lemma_texts_push(before, line);
        }
        out.push(line);
        proof {
            assert(texts(before) + (seq![line@] + lines_from(text@, end as int + 1)) =~= texts(out@)
                + lines_from(text@, end as int + 1));
            if end == n {
                assert(lines_from(text@, end as int + 1) =~= lines_from(text@, n as int));
            }
        }
        if end < n {
            from = end + 1;
        } else {
            from = n;
        }
    }
    assert(lines_from(text@, from as int) =~= Seq::empty());
    assert(texts(out@) + Seq::empty() =~= texts(out@));
    out
}

/// Splits a line into its fields.
pub fn split_fields(line: &Vec<char>, count: usize) -> (out: Vec<Vec<char>>)
    requires
        count >= 1,
    ensures
        texts(out@) == fields(line@, count as nat),
{
    let mut out: Vec<Vec<char>> = Vec::new();
    let mut from: usize = 0;
    let mut left: usize = count;
    let n = line.len();
    let mut end = find_mark(line, '\t', from);
    assert(texts(out@) + fields_from(line@, left as nat, 0) =~= fields(line@, count as nat));
    while left > 1 && end < n
        invariant
            1 <= left,
            from <= end <= n == line@.len(),
            end == until(line@, '\t', from as int),
            texts(out@) + fields_from(line@, left as nat, from as int) == fields(
                line@,
                count as nat,
            ),
        decreases left,
    {
        let ghost before = out@;
        let field = chars_between(line, from, end);
        proof {
            lemma_texts_push(before, field);
        }
        out.push(field);
        proof {
            let rest = fields_from(line@, (left - 1) as nat, end as int + 1);
            assert(texts(before) + (seq![field@] + rest) =~= texts(out@) + rest);
        }
        left -= 1;
        from = end + 1;
        end = find_mark(line, '\t', from);
    }
    let ghost before = out@;
    let field = chars_between(line, from, n);
    proof {
        lemma_texts_push(before, field);
    }
    out.push(field);
    assert(texts(before) + seq![field@] =~= texts(out@));
    out
}

// ---------------------------------------------------------------------------
// Laws
// ---------------------------------------------------------------------------

/// A text has no such mark.
pub open spec fn free_of(text: Seq<char>, mark: char) -> bool {
    forall|i: int| 0 <= i < text.len() ==> (#[trigger] text[i]) != mark
}

/// A line that a text can be made of: no line feed in it, and no carriage return
/// at its end.
pub open spec fn is_line(line: Seq<char>) -> bool {
    &&& free_of(line, '\n')
    &&& line.len() > 0 ==> line.last() != '\r'
}

/// Lines, each followed by a line feed.
pub open spec fn text_of_lines(all: Seq<Seq<char>>, from: int) -> Seq<char>
    decreases all.len() - from,
{
    if from >= all.len() {
        Seq::empty()
    } else {
        all[from] + seq!['\n'] + text_of_lines(all, from + 1)
    }
}

/// One more line comes at the end of the text.
pub proof fn lemma_text_push(all: Seq<Seq<char>>, line: Seq<char>, from: int)
    requires
        0 <= from <= all.len(),
    ensures
        text_of_lines(all.push(line), from) == text_of_lines(all, from) + line + seq!['\n'],
    decreases all.len() - from,
{
    let more = all.push(line);
    if from < all.len() {
        lemma_text_push(all, line, from + 1);
        assert(more[from] == all[from]);
        assert(text_of_lines(more, from) =~= text_of_lines(all, from) + line + seq!['\n']);
    } else {
        assert(text_of_lines(more, from + 1) =~= Seq::empty());
        assert(text_of_lines(more, from) =~= text_of_lines(all, from) + line + seq!['\n']);
    }
}

proof fn lemma_until_at(text: Seq<char>, mark: char, from: int, end: int)
    requires
        0 <= from <= end < text.len(),
        forall|i: int| from <= i < end ==> text[i] != mark,
        text[end] == mark,
    ensures
        until(text, mark, from) == end,
    decreases end - from,
{
    if from < end {
        lemma_until_at(text, mark, from + 1, end);
    }
}

proof fn lemma_until_none(text: Seq<char>, mark: char, from: int)
    requires
        0 <= from <= text.len(),
        forall|i: int| from <= i < text.len() ==> text[i] != mark,
    ensures
        until(text, mark, from) == text.len(),
    decreases text.len() - from,
{
    if from < text.len() {
        lemma_until_none(text, mark, from + 1);
    }
}

/// Where a search starts in a longer text makes no difference.
proof fn lemma_lines_shift(front: Seq<char>, text: Seq<char>, from: int)
    requires
        0 <= from <= text.len(),
    ensures
        lines_from(front + text, front.len() + from) == lines_from(text, from),
    decreases text.len() - from,
{
    let all = front + text;
    let n = front.len() as int;
    if from < text.len() {
        let end = until(text, '\n', from);
        lemma_until(text, '\n', from);
        assert forall|i: int| n + from <= i < n + end implies all[i] != '\n' by {
            assert(all[i] == text[i - n]);
        }
        if end < text.len() {
            assert(all[n + end] == text[end]);
            lemma_until_at(all, '\n', n + from, n + end);
        } else {
            lemma_until_none(all, '\n', n + from);
        }
        assert(until(all, '\n', n + from) == n + end);
        assert(line_between(all, n + from, n + end) =~= line_between(text, from, end)) by {
            if from < end {
                assert(all[n + end - 1] == text[end - 1]);
            }
        }
        if end < text.len() {
            lemma_lines_shift(front, text, end + 1);
        } else {
            assert(lines_from(text, end + 1) =~= lines_from(all, n + end + 1));
        }
    }
}

/// The lines that a text is made of are read back from it.
pub proof fn lemma_lines_read_back(all: Seq<Seq<char>>, from: int)
    requires
        0 <= from <= all.len(),
        forall|i: int| 0 <= i < all.len() ==> is_line(#[trigger] all[i]),
    ensures
        lines(text_of_lines(all, from)) == all.skip(from),
    decreases all.len() - from,
{
    if from < all.len() {
        lemma_lines_read_back(all, from + 1);
        let line = all[from];
        let rest = text_of_lines(all, from + 1);
        let front = line + seq!['\n'];
        let text = front + rest;
        assert(text_of_lines(all, from) =~= text);
        assert(is_line(line));
        let end = line.len() as int;
        assert forall|i: int| 0 <= i < end implies text[i] != '\n' by {
            assert(text[i] == line[i]);
        }
        assert(text[end] == '\n');
        lemma_until_at(text, '\n', 0, end);
        assert(line_between(text, 0, end) =~= line) by {
            if end > 0 {
                assert(text[end - 1] == line.last());
            }
        }
        lemma_lines_shift(front, rest, 0);
        assert(lines_from(text, end + 1) == lines(rest));
        assert(lines(text) == seq![line] + lines(rest));
        assert(seq![line] + all.skip(from + 1) =~= all.skip(from));
    } else {
        assert(lines(text_of_lines(all, from)) =~= all.skip(from));
    }
}

/// Three fields between tabs are read back as these three.
pub proof fn lemma_three_fields(a: Seq<char>, b: Seq<char>, c: Seq<char>)
    requires
        free_of(a, '\t'),
        free_of(b, '\t'),
    ensures
        fields(a + seq!['\t'] + b + seq!['\t'] + c, 3) == seq![a, b, c],
{
    let line = a + seq!['\t'] + b + seq!['\t'] + c;
    let x = a.len() as int;
    let y = x + 1 + b.len();
    assert forall|i: int| 0 <= i < x implies line[i] != '\t' by {
        assert(line[i] == a[i]);
    }
    assert(line[x] == '\t');
    lemma_until_at(line, '\t', 0, x);
    assert forall|i: int| x + 1 <= i < y implies line[i] != '\t' by {
        assert(line[i] == b[i - x - 1]);
    }
    assert(line[y] == '\t');
    lemma_until_at(line, '\t', x + 1, y);
    assert(line.subrange(0, x) =~= a);
    assert(line.subrange(x + 1, y) =~= b);
    assert(line.subrange(y + 1, line.len() as int) =~= c);
    assert(fields_from(line, 1, y + 1) == seq![c]);
    assert(fields_from(line, 2, x + 1) == seq![b] + seq![c]);
    assert(fields(line, 3) == seq![a] + (seq![b] + seq![c]));
    assert(seq![a] + (seq![b] + seq![c]) =~= seq![a, b, c]);
}

/// Four fields between tabs are read back as these four.
pub proof fn lemma_four_fields(a: Seq<char>, b: Seq<char>, c: Seq<char>, d: Seq<char>)
    requires
        free_of(a, '\t'),
        free_of(b, '\t'),
        free_of(c, '\t'),
    ensures
        fields(a + seq!['\t'] + b + seq!['\t'] + c + seq!['\t'] + d, 4) == seq![a, b, c, d],
{
    let line = a + seq!['\t'] + b + seq!['\t'] + c + seq!['\t'] + d;
    let x = a.len() as int;
    let y = x + 1 + b.len();
    let z = y + 1 + c.len();
    assert forall|i: int| 0 <= i < x implies line[i] != '\t' by {
        assert(line[i] == a[i]);
    }
    assert(line[x] == '\t');
    lemma_until_at(line, '\t', 0, x);
    assert forall|i: int| x + 1 <= i < y implies line[i] != '\t' by {
        assert(line[i] == b[i - x - 1]);
    }
    assert(line[y] == '\t');
    lemma_until_at(line, '\t', x + 1, y);
    assert forall|i: int| y + 1 <= i < z implies line[i] != '\t' by {
        assert(line[i] == c[i - y - 1]);
    }
    assert(line[z] == '\t');
    lemma_until_at(line, '\t', y + 1, z);
    assert(line.subrange(0, x) =~= a);
    assert(line.subrange(x + 1, y) =~= b);
    assert(line.subrange(y + 1, z) =~= c);
    assert(line.subrange(z + 1, line.len() as int) =~= d);
    assert(fields_from(line, 1, z + 1) == seq![d]);
    assert(fields_from(line, 2, y + 1) == seq![c] + seq![d]);
    assert(fields_from(line, 3, x + 1) == seq![b] + (seq![c] + seq![d]));
    assert(fields(line, 4) == seq![a] + (seq![b] + (seq![c] + seq![d])));
    assert(seq![a] + (seq![b] + (seq![c] + seq![d])) =~= seq![a, b, c, d]);
}

} // verus!
