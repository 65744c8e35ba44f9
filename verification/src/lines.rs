//! A log as lines: every entry is written as a line with its line end, so what stands behind the last
//! line end was not written as a whole.

use vstd::prelude::*;

use crate::scan;
use crate::scan::split_text;

verus! {

/// The lines of a log that were written as a whole: each ends where a line end stands.
pub open spec fn complete(log: Seq<char>) -> Seq<Seq<char>> {
    scan::split(log, "\n"@).drop_last()
}

/// The lines of a log that were written as a whole, in order and without their line ends.
pub fn complete_lines(log: &str) -> (r: Vec<String>)
    ensures
        r.deep_view() == complete(log@),
{
    proof {
        reveal_strlit("\n");
    }
    let mut lines = split_text(log, "\n");
    let ghost all = lines.deep_view();
    lines.pop();
    proof {
        assert(lines.deep_view() =~= all.drop_last());
    }
    lines
}

/// How many bytes the lines take up that were written as a whole, with their line ends.
pub fn complete_len(log: &[u8]) -> (r: usize)
    ensures
        r <= log@.len(),
        r > 0 ==> log@[r - 1] == 0x0a,
        forall|i: int| r <= i < log@.len() ==> log@[i] != 0x0a,
{
    let mut end: usize = log.len();
    while end > 0 && log[end - 1] != 0x0a
        invariant
            end <= log@.len(),
            forall|i: int| end <= i < log@.len() ==> log@[i] != 0x0a,
        decreases end,
    {
        end -= 1;
    }
    end
}

/// A log as it is written: each line with its line end.
pub open spec fn written(lines: Seq<Seq<char>>) -> Seq<char>
    decreases lines.len(),
{
    if lines.len() == 0 {
        seq![]
    } else {
        lines[0] + "\n"@ + written(lines.drop_first())
    }
}

proof fn lemma_no_line_end(s: Seq<char>, from: int)
    requires
        0 <= from,
        !s.contains('\n'),
    ensures
        scan::find_from(s, "\n"@, from) is None,
    decreases s.len() - from,
{
    reveal_strlit("\n");
    if from + 1 <= s.len() {
        assert(s.subrange(from, from + 1)[0] == s[from]);
        lemma_no_line_end(s, from + 1);
    }
}

proof fn lemma_first_line_end(line: Seq<char>, rest: Seq<char>, from: int)
    requires
        0 <= from <= line.len(),
        !line.contains('\n'),
    ensures
        scan::find_from(line + "\n"@ + rest, "\n"@, from) == Some(line.len() as int),
    decreases line.len() - from,
{
    reveal_strlit("\n");
    let s = line + "\n"@ + rest;
    assert(s.subrange(from, from + 1)[0] == s[from]);
    if from < line.len() {
        assert(s[from] == line[from]);
        lemma_first_line_end(line, rest, from + 1);
    } else {
        assert(s.subrange(from, from + 1) =~= "\n"@);
    }
}

proof fn lemma_split_written(lines: Seq<Seq<char>>, tail: Seq<char>)
    requires
        forall|i: int| 0 <= i < lines.len() ==> !(#[trigger] lines[i]).contains('\n'),
        !tail.contains('\n'),
    ensures
        scan::split(written(lines) + tail, "\n"@) == lines.push(tail),
    decreases lines.len(),
{
    reveal_strlit("\n");
    if lines.len() == 0 {
        assert(written(lines) + tail =~= tail);
        lemma_no_line_end(tail, 0);
        assert(lines.push(tail) =~= seq![tail]);
    } else {
        let line = lines[0];
        let others = lines.drop_first();
        let rest = written(others) + tail;
        let log = written(lines) + tail;
        assert(log =~= line + "\n"@ + rest);
        lemma_first_line_end(line, rest, 0);
        assert(log.take(line.len() as int) =~= line);
        assert(log.skip((line.len() + 1) as int) =~= rest);
        lemma_split_written(others, tail);
        assert(seq![line] + others.push(tail) =~= lines.push(tail));
    }
}

/// Whatever was written as a whole is read back, and nothing of a line that was cut short is.
pub proof fn written_lines_are_read_back(lines: Seq<Seq<char>>, tail: Seq<char>)
    requires
        forall|i: int| 0 <= i < lines.len() ==> !(#[trigger] lines[i]).contains('\n'),
        !tail.contains('\n'),
    ensures
        complete(written(lines) + tail) == lines,
{
    lemma_split_written(lines, tail);
    assert(lines.push(tail).drop_last() =~= lines);
}

} // verus!
