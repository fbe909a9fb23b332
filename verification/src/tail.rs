//! Following a file that grows line by line.

use vstd::prelude::*;

verus! {

/// The byte that ends a line.
pub const NEWLINE: u8 = 10;

/// The byte that may stand before the one that ends a line.
pub const RETURN: u8 = 13;

/// How much of some data consists of finished lines: everything up to the last line end.
pub open spec fn finished(data: Seq<u8>) -> nat
    decreases data.len(),
{
    if data.len() == 0 {
        0
    } else if data.last() == NEWLINE {
        data.len()
    } else {
        finished(data.drop_last())
    }
}

/// Where the line that starts at `from` ends: at the next line end, or where the data ends.
pub open spec fn line_end(data: Seq<u8>, from: int) -> int
    decreases data.len() - from,
{
    if from >= data.len() {
        data.len() as int
    } else if data[from] == NEWLINE {
        from
    } else {
        line_end(data, from + 1)
    }
}

/// A finished line without the carriage return that may close it.
pub open spec fn without_return(line: Seq<u8>) -> Seq<u8> {
    if line.len() > 0 && line.last() == RETURN {
        line.drop_last()
    } else {
        line
    }
}

/// The line that starts at `from`, without its end.
pub open spec fn line_at(data: Seq<u8>, from: int) -> Seq<u8> {
    let end = line_end(data, from);
    if end < data.len() {
        without_return(data.subrange(from, end))
    } else {
        data.subrange(from, end)
    }
}

/// The lines of some data from a line start on, without the empty ones.
pub open spec fn lines_from(data: Seq<u8>, from: int) -> Seq<Seq<u8>>
    decreases data.len() - from,
{
    if from < 0 || from >= data.len() {
        Seq::empty()
    } else {
        let end = line_end(data, from);
        let line = line_at(data, from);
        let rest = if from <= end < data.len() {
            lines_from(data, end + 1)
        } else {
            Seq::empty()
        };
        if line.len() == 0 {
            rest
        } else {
            seq![line] + rest
        }
    }
}

/// The lines of some data, without the empty ones.
pub open spec fn lines_of(data: Seq<u8>) -> Seq<Seq<u8>> {
    lines_from(data, 0)
}

pub open spec fn bytes_view(s: Seq<Vec<u8>>) -> Seq<Seq<u8>> {
    Seq::new(s.len(), |i: int| s[i]@)
}

proof fn lemma_line_end(data: Seq<u8>, from: int)
    requires
        0 <= from <= data.len(),
    ensures
        from <= line_end(data, from) <= data.len(),
        line_end(data, from) < data.len() ==> data[line_end(data, from)] == NEWLINE,
        forall|i: int| from <= i < line_end(data, from) ==> data[i] != NEWLINE,
    decreases data.len() - from,
{
    if from < data.len() && data[from] != NEWLINE {
        lemma_line_end(data, from + 1);
    }
}

proof fn lemma_line_end_unique(data: Seq<u8>, from: int, end: int)
    requires
        0 <= from <= end <= data.len(),
        end < data.len() ==> data[end] == NEWLINE,
        forall|i: int| from <= i < end ==> data[i] != NEWLINE,
    ensures
        line_end(data, from) == end,
{
    lemma_line_end(data, from);
    let e = line_end(data, from);
    if e < end {
        assert(data[e] == NEWLINE);
    } else if end < e {
        assert(data[end] == NEWLINE);
    }
}

/// [`finished`] ends behind the last line end.
pub proof fn lemma_finished(data: Seq<u8>)
    ensures
        finished(data) <= data.len(),
        finished(data) > 0 ==> data[finished(data) - 1] == NEWLINE,
        forall|i: int| finished(data) <= i < data.len() ==> data[i] != NEWLINE,
    decreases data.len(),
{
    if data.len() > 0 && data.last() != NEWLINE {
        let t = data.drop_last();
        lemma_finished(t);
        assert(forall|i: int| 0 <= i < t.len() ==> t[i] == data[i]);
    }
}

proof fn lemma_finished_unique(data: Seq<u8>, n: nat)
    requires
        n <= data.len(),
        n > 0 ==> data[n - 1] == NEWLINE,
        forall|i: int| n <= i < data.len() ==> data[i] != NEWLINE,
    ensures
        finished(data) == n,
{
    lemma_finished(data);
    let m = finished(data);
    if m < n {
        assert(data[n - 1] == NEWLINE);
    } else if n < m {
        assert(data[m - 1] == NEWLINE);
    }
}

/// How much of some data consists of finished lines.
pub fn finished_len(data: &[u8]) -> (r: usize)
    ensures
        r == finished(data@),
        r <= data@.len(),
{
    let mut n: usize = data.len();
    while n > 0
        invariant
            n <= data@.len(),
            forall|i: int| n <= i < data@.len() ==> data@[i] != NEWLINE,
        decreases n,
    {
        if data[n - 1] == NEWLINE {
            proof {
                lemma_finished_unique(data@, n as nat);
            }
            return n;
        }
        n = n - 1;
    }
    proof {
        lemma_finished_unique(data@, 0);
    }
    0
}

/// Splits data into its lines, without the empty ones.
pub fn split_lines(data: &[u8]) -> (r: Vec<Vec<u8>>)
    ensures
        bytes_view(r@) == lines_of(data@),
{
    let mut lines: Vec<Vec<u8>> = Vec::new();
    let mut from: usize = 0;
    assert(bytes_view(lines@) + lines_from(data@, 0) =~= lines_of(data@));
    while from < data.len()
        invariant
            from <= data@.len(),
            bytes_view(lines@) + lines_from(data@, from as int) == lines_of(data@),
        decreases data@.len() - from,
    {
        let ghost before = bytes_view(lines@);
        let mut line: Vec<u8> = Vec::new();
        let mut end: usize = from;
        assert(line@ =~= data@.subrange(from as int, end as int));
        while end < data.len() && data[end] != NEWLINE
            invariant
                from <= end <= data@.len(),
                line@ == data@.subrange(from as int, end as int),
                forall|i: int| from <= i < end ==> data@[i] != NEWLINE,
            decreases data@.len() - end,
        {
            line.push(data[end]);
            assert(line@ =~= data@.subrange(from as int, end + 1));
            end = end + 1;
        }
        proof {
            lemma_line_end_unique(data@, from as int, end as int);
        }
        if end < data.len() && line.len() > 0 && line[line.len() - 1] == RETURN {
            let _ = line.pop();
            assert(line@ =~= without_return(data@.subrange(from as int, end as int)));
        }
        assert(line@ == line_at(data@, from as int));
        let ghost rest = if end < data@.len() {
            lines_from(data@, end + 1)
        } else {
            Seq::empty()
        };
        if line.len() > 0 {
            lines.push(line);
            assert(bytes_view(lines@) =~= before.push(line@));
            assert(before.push(line@) + rest =~= before + (seq![line@] + rest));
        }
        if end < data.len() {
            from = end + 1;
        } else {
            from = end;
            assert(rest =~= lines_from(data@, from as int));
        }
    }
    assert(bytes_view(lines@) + lines_from(data@, from as int) =~= bytes_view(lines@));
    lines
}

/// From a line start on, the lines of two pieces are those of the first and then those of the
/// second, if the first ends with a line end.
proof fn lemma_lines_of_pieces(a: Seq<u8>, b: Seq<u8>, from: int)
    requires
        0 <= from <= a.len(),
        a.len() > 0 ==> a.last() == NEWLINE,
    ensures
        lines_from(a + b, from) == lines_from(a, from) + lines_of(b),
    decreases a.len() - from,
{
    let ab = a + b;
    if from == a.len() {
        lemma_lines_shift(a, b, 0);
        assert(lines_from(a, from) + lines_of(b) =~= lines_of(b));
    } else {
        lemma_line_end(a, from);
        let end = line_end(a, from);
        if end == a.len() {
            assert(a[a.len() - 1] != NEWLINE);
        }
        assert(ab[end] == a[end]);
        assert forall|i: int| from <= i < end implies ab[i] != NEWLINE by {
            assert(ab[i] == a[i]);
        }
        lemma_line_end_unique(ab, from, end);
        assert(ab.subrange(from, end) =~= a.subrange(from, end));
        lemma_lines_of_pieces(a, b, end + 1);
        let line = line_at(a, from);
        assert(seq![line] + (lines_from(a, end + 1) + lines_of(b)) =~= (seq![line] + lines_from(a, end + 1))
            + lines_of(b));
    }
}

/// Lines do not depend on what stands before the line start.
proof fn lemma_lines_shift(a: Seq<u8>, b: Seq<u8>, from: int)
    requires
        0 <= from <= b.len(),
    ensures
        lines_from(a + b, a.len() + from) == lines_from(b, from),
    decreases b.len() - from,
{
    let ab = a + b;
    let n = a.len() as int;
    if from < b.len() {
        lemma_line_end(b, from);
        let end = line_end(b, from);
        if end < b.len() {
            assert(ab[n + end] == b[end]);
        }
        assert forall|i: int| n + from <= i < n + end implies ab[i] != NEWLINE by {
            assert(ab[i] == b[i - n]);
        }
        lemma_line_end_unique(ab, n + from, n + end);
        assert(ab.subrange(n + from, n + end) =~= b.subrange(from, end));
        if end < b.len() {
            lemma_lines_shift(a, b, end + 1);
        }
    }
}

/// The lines of finished data followed by more data are the lines of both, in order.
pub proof fn law_lines_of_pieces(a: Seq<u8>, b: Seq<u8>)
    requires
        finished(a) == a.len(),
    ensures
        lines_of(a + b) == lines_of(a) + lines_of(b),
{
    lemma_finished(a);
    lemma_lines_of_pieces(a, b, 0);
}

/// Reading a file's finished lines, and after it has grown those that were finished since,
/// gives what reading the grown file at once would give. No line is lost, none is read twice,
/// and none is read before it is finished.
pub proof fn law_growing_file_is_read_once(a: Seq<u8>, b: Seq<u8>)
    ensures
        ({
            let n = finished(a) as int;
            let unread = a.skip(n) + b;
            &&& lines_of(a.take(n)) + lines_of(unread.take(finished(unread) as int)) == lines_of(
                (a + b).take(finished(a + b) as int),
            )
            &&& n + finished(unread) == finished(a + b)
        }),
{
    lemma_finished(a);
    let n = finished(a) as int;
    let unread = a.skip(n) + b;
    lemma_finished(unread);
    let m = finished(unread) as int;
    assert(a + b =~= a.take(n) + unread);
    assert forall|i: int| n + m <= i < (a + b).len() implies (a + b)[i] != NEWLINE by {
        assert((a + b)[i] == unread[i - n]);
    }
    if m > 0 {
        assert((a + b)[n + m - 1] == unread[m - 1]);
    }
    lemma_finished_unique(a + b, (n + m) as nat);
    assert((a + b).take(n + m) =~= a.take(n) + unread.take(m));
    lemma_finished_unique(a.take(n), n as nat);
    law_lines_of_pieces(a.take(n), unread.take(m));
}

/// Where the finished lines of some data end can be seen from any tail of it in which a line
/// ends.
pub proof fn law_tail_shows_line_boundary(data: Seq<u8>, offset: int)
    requires
        0 <= offset <= data.len(),
        offset == 0 || finished(data.skip(offset)) > 0,
    ensures
        finished(data) == offset + finished(data.skip(offset)),
{
    let t = data.skip(offset);
    lemma_finished(t);
    let n = finished(t) as int;
    assert forall|i: int| offset + n <= i < data.len() implies data[i] != NEWLINE by {
        assert(data[i] == t[i - offset]);
    }
    if n > 0 {
        assert(data[offset + n - 1] == t[n - 1]);
    }
    lemma_finished_unique(data, (offset + n) as nat);
}

/// A line as it is handed out: without the carriage return that may stand before its end.
pub open spec fn handed_out(line: Seq<u8>) -> Seq<u8> {
    if line.len() > 0 && line.last() == 13 {
        line.drop_last()
    } else {
        line
    }
}

/// Lines one after the other: what stands before the first line end is the first line, and what stands
/// behind it gives the others. Empty lines are left out, and so is the carriage return before a line
/// end.
pub proof fn law_first_line_and_the_others(line: Seq<u8>, rest: Seq<u8>)
    requires
        forall|i: int| 0 <= i < line.len() ==> (#[trigger] line[i]) != 10,
    ensures
        lines_of(line.push(10) + rest) == (if handed_out(line).len() == 0 {
            lines_of(rest)
        } else {
            seq![handed_out(line)] + lines_of(rest)
        }),
        lines_of(line) == (if line.len() == 0 {
            Seq::<Seq<u8>>::empty()
        } else {
            seq![line]
        }),
{
    let first = line.push(10);
    let n = line.len() as int;
    lemma_finished_unique(first, first.len());
    law_lines_of_pieces(first, rest);
    lemma_line_end_unique(first, 0, n);
    assert(first.subrange(0, n) =~= line);
    assert(lines_from(first, n + 1) =~= Seq::empty());
    assert(lines_of(first) =~= (if handed_out(line).len() == 0 {
        Seq::<Seq<u8>>::empty()
    } else {
        seq![handed_out(line)]
    }));
    assert(Seq::<Seq<u8>>::empty() + lines_of(rest) =~= lines_of(rest));
    lemma_line_end_unique(line, 0, n);
    assert(line.subrange(0, n) =~= line);
    assert(lines_of(line) =~= (if line.len() == 0 {
        Seq::<Seq<u8>>::empty()
    } else {
        seq![line]
    }));
}

/// What is finished of some data ends behind its last line end, and is nothing if no line ends in it.
pub proof fn law_finished_ends_behind_the_last_line_end(data: Seq<u8>)
    ensures
        finished(data) <= data.len(),
        finished(data) > 0 ==> data[finished(data) - 1] == 10,
        forall|i: int| finished(data) <= i < data.len() ==> (#[trigger] data[i]) != 10,
{
    lemma_finished(data);
}

} // verus!
