//! Text made of lines: how rows of characters are joined into one string.

use vstd::prelude::*;

verus! {

/// The lines in order, separated by single line breaks, with no break before
/// the first line or after the last.
pub open spec fn join_lines(lines: Seq<Seq<char>>) -> Seq<char>
    decreases lines.len(),
{
    if lines.len() == 0 {
        Seq::empty()
    } else if lines.len() == 1 {
        lines[0]
    } else {
        join_lines(lines.drop_last()) + seq!['\n'] + lines.last()
    }
}

/// Joining one more line appends a line break and the line, or the line
/// alone if it is the first.
pub proof fn lemma_join_lines_push(lines: Seq<Seq<char>>, line: Seq<char>)
    ensures
        join_lines(lines.push(line)) == if lines.len() == 0 {
            line
        } else {
            join_lines(lines) + seq!['\n'] + line
        },
{
    assert(lines.push(line).drop_last() =~= lines);
}

/// The test that keeps every character but the line break.
pub open spec fn is_not_break() -> spec_fn(char) -> bool {
    |c: char| c != '\n'
}

/// The text with its line breaks taken out.
pub open spec fn without_breaks(text: Seq<char>) -> Seq<char> {
    text.filter(is_not_break())
}

/// The text holds no line break.
pub open spec fn unbroken(text: Seq<char>) -> bool {
    forall|i: int| 0 <= i < text.len() ==> #[trigger] text[i] != '\n'
}

/// Text without line breaks has none to take out.
pub proof fn lemma_without_breaks_unbroken(text: Seq<char>)
    requires
        unbroken(text),
    ensures
        without_breaks(text) == text,
    decreases text.len(),
{
    reveal(Seq::filter);
    if text.len() > 0 {
        lemma_without_breaks_unbroken(text.drop_last());
        assert(is_not_break()(text.last()));
        assert(text.drop_last().push(text.last()) =~= text);
    }
}

/// With the line breaks taken out, joining one more unbroken line appends
/// just the line.
pub proof fn lemma_without_breaks_join_push(lines: Seq<Seq<char>>, line: Seq<char>)
    requires
        unbroken(line),
    ensures
        without_breaks(join_lines(lines.push(line))) == without_breaks(join_lines(lines)) + line,
{
    lemma_join_lines_push(lines, line);
    lemma_without_breaks_unbroken(line);
    let joined = join_lines(lines);
    let keep = is_not_break();
    reveal_with_fuel(Seq::filter, 2);
    if lines.len() == 0 {
        assert(joined =~= Seq::<char>::empty());
        assert(without_breaks(joined) + line =~= line);
    } else {
        let line_break = seq!['\n'];
        assert(line_break.drop_last() =~= Seq::<char>::empty());
        assert(!keep(line_break.last()));
        assert(line_break.filter(keep) =~= Seq::<char>::empty());
        Seq::filter_distributes_over_add(joined, line_break, keep);
        Seq::filter_distributes_over_add(joined + line_break, line, keep);
        assert(joined.filter(keep) + line_break.filter(keep) =~= joined.filter(keep));
    }
}

} // verus!
