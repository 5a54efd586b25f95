//! The latest lines that servers printed.

use crate::model::{Id, Moment};
use vstd::prelude::*;
use vstd::string::*;

verus! {

/// How many lines are kept of each server.
pub const LOG_BUFFER_LINES: usize = 5000;

/// A line that a server printed.
#[derive(Debug)]
pub struct LogLine {
    pub server_id: Id,
    pub at: Moment,
    pub stream: String,
    pub line: String,
}

impl Clone for LogLine {
    fn clone(&self) -> (r: Self)
        ensures
            r == *self,
    {
        LogLine {
            server_id: self.server_id,
            at: self.at,
            stream: self.stream.clone(),
            line: self.line.clone(),
        }
    }
}

/// The lines of one server.
#[derive(Debug)]
pub struct LogBuffer {
    pub server_id: Id,
    pub lines: Vec<LogLine>,
}

/// The lines of all servers.
#[derive(Debug)]
pub struct LogBuffers {
    pub buffers: Vec<LogBuffer>,
}

/// The place of the buffer of a server.
pub open spec fn buffer_at(buffers: Seq<LogBuffer>, server_id: Id) -> nat
    decreases buffers.len(),
{
    if buffers.len() == 0 || buffers[0].server_id == server_id {
        0
    } else {
        1 + buffer_at(buffers.skip(1), server_id)
    }
}

/// The lines that are kept of a server.
pub open spec fn lines_of(buffers: Seq<LogBuffer>, server_id: Id) -> Seq<LogLine> {
    let k = buffer_at(buffers, server_id);
    if k < buffers.len() {
        buffers[k as int].lines@
    } else {
        Seq::empty()
    }
}

/// A full buffer loses its oldest line when another comes.
pub open spec fn with_line(lines: Seq<LogLine>, new: LogLine) -> Seq<LogLine> {
    (if lines.len() >= LOG_BUFFER_LINES {
        lines.skip(1)
    } else {
        lines
    }).push(new)
}

/// What is kept of lines that came one after the other.
pub open spec fn kept_of(all: Seq<LogLine>) -> Seq<LogLine>
    decreases all.len(),
{
    if all.len() == 0 {
        Seq::empty()
    } else {
        with_line(kept_of(all.drop_last()), all.last())
    }
}

/// What is kept of a server are the latest lines, in the order in which they came, as many as the
/// buffer holds.
pub proof fn law_the_latest_lines_are_kept(all: Seq<LogLine>)
    ensures
        kept_of(all) == (if all.len() <= LOG_BUFFER_LINES {
            all
        } else {
            all.skip(all.len() - LOG_BUFFER_LINES)
        }),
    decreases all.len(),
{
    if all.len() > 0 {
        law_the_latest_lines_are_kept(all.drop_last());
        let before = kept_of(all.drop_last());
        if all.len() <= LOG_BUFFER_LINES {
            assert(before.push(all.last()) =~= all);
        } else if all.len() == LOG_BUFFER_LINES + 1 {
            assert(with_line(before, all.last()) =~= all.skip(1));
        } else {
            assert(with_line(before, all.last()) =~= all.skip(all.len() - LOG_BUFFER_LINES));
        }
    } else {
        assert(all =~= Seq::<LogLine>::empty());
    }
}

proof fn lemma_buffer_at(buffers: Seq<LogBuffer>, server_id: Id)
    ensures
        buffer_at(buffers, server_id) <= buffers.len(),
        buffer_at(buffers, server_id) < buffers.len() ==> buffers[buffer_at(
            buffers,
            server_id,
        ) as int].server_id == server_id,
        forall|i: int|
            0 <= i < buffer_at(buffers, server_id) ==> (#[trigger] buffers[i]).server_id
                != server_id,
    decreases buffers.len(),
{
    if buffers.len() > 0 && buffers[0].server_id != server_id {
        let rest = buffers.skip(1);
        lemma_buffer_at(rest, server_id);
        assert forall|i: int| 0 <= i < buffer_at(buffers, server_id) implies (
        #[trigger] buffers[i]).server_id != server_id by {
            if i > 0 {
                assert(rest[i - 1] == buffers[i]);
            }
        }
    }
}

proof fn lemma_buffer_at_is(buffers: Seq<LogBuffer>, server_id: Id, k: int)
    requires
        0 <= k <= buffers.len(),
        k < buffers.len() ==> buffers[k].server_id == server_id,
        forall|i: int| 0 <= i < k ==> (#[trigger] buffers[i]).server_id != server_id,
    ensures
        buffer_at(buffers, server_id) == k,
{
    lemma_buffer_at(buffers, server_id);
    let n = buffer_at(buffers, server_id) as int;
    if n < k {
        assert(buffers[n].server_id != server_id);
    }
    if k < n {
        assert(buffers[k].server_id != server_id);
    }
}

/// Whether these are the latest of some lines, as many as are asked for.
pub open spec fn is_latest_of(
    r: Seq<LogLine>,
    lines: Seq<LogLine>,
    limit: usize,
) -> bool {
    r == (if lines.len() <= limit {
        lines
    } else {
        lines.skip(lines.len() - limit)
    })
}

impl LogBuffers {
    /// Nothing was printed yet.
    pub fn new() -> (r: Self)
        ensures
            forall|id: Id| #[trigger] lines_of(r.buffers@, id) == Seq::<LogLine>::empty(),
    {
        LogBuffers { buffers: Vec::new() }
    }

    fn find(&self, server_id: Id) -> (r: usize)
        ensures
            r == buffer_at(self.buffers@, server_id),
            r <= self.buffers@.len(),
    {
        let mut i: usize = 0;
        while i < self.buffers.len()
            invariant
                i <= self.buffers@.len(),
                forall|j: int| 0 <= j < i ==> (#[trigger] self.buffers@[j]).server_id != server_id,
            decreases self.buffers@.len() - i,
        {
            if self.buffers[i].server_id == server_id {
                proof {
                    lemma_buffer_at_is(self.buffers@, server_id, i as int);
                }
                return i;
            }
            i = i + 1;
        }
        proof {
            lemma_buffer_at_is(self.buffers@, server_id, i as int);
        }
        i
    }

    /// Notes a line that a server printed.
    pub fn record_log_line(&mut self, entry: LogLine)
        ensures
            lines_of(final(self).buffers@, entry.server_id) == with_line(
                lines_of(old(self).buffers@, entry.server_id),
                entry,
            ),
            forall|id: Id|
                id != entry.server_id ==> #[trigger] lines_of(final(self).buffers@, id)
                    == lines_of(old(self).buffers@, id),
    {
        let ghost before = self.buffers@;
        let ghost new = entry;
        let server_id = entry.server_id;
        let k = self.find(server_id);
        proof {
            lemma_buffer_at(before, server_id);
        }
        if k < self.buffers.len() {
            let mut buffer = self.buffers.remove(k);
            if buffer.lines.len() >= LOG_BUFFER_LINES {
                let ghost lines = buffer.lines@;
                buffer.lines.remove(0);
                assert(buffer.lines@ =~= lines.skip(1));
            }
            buffer.lines.push(entry);
            self.buffers.insert(k, buffer);
            assert(self.buffers@ =~= before.update(k as int, buffer));
            proof {
                lemma_changed(before, self.buffers@, k as int, server_id);
                assert(lines_of(self.buffers@, server_id) == buffer.lines@);
            }
        } else {
            let mut lines: Vec<LogLine> = Vec::new();
            lines.push(entry);
            self.buffers.push(LogBuffer { server_id, lines });
            proof {
                let after = self.buffers@;
                lemma_buffer_at_is(after, server_id, k as int);
                assert(lines_of(after, server_id) =~= with_line(
                    lines_of(before, server_id),
                    new,
                ));
                assert forall|id: Id| id != server_id implies #[trigger] lines_of(after, id)
                    == lines_of(before, id) by {
                    lemma_buffer_at(before, id);
                    let n = buffer_at(before, id) as int;
                    if n < before.len() {
                        assert forall|i: int| 0 <= i < n implies (#[trigger] after[i]).server_id
                            != id by {
                            assert(after[i] == before[i]);
                        }
                        lemma_buffer_at_is(after, id, n);
                    } else {
                        assert forall|i: int| 0 <= i < after.len() implies (
                        #[trigger] after[i]).server_id != id by {
                            if i < before.len() {
                                assert(after[i] == before[i]);
                            }
                        }
                        lemma_buffer_at_is(after, id, after.len() as int);
                    }
                }
            }
        }
    }

    /// The latest lines of a server, at most as many as asked for.
    pub fn recent_logs(&self, server_id: Id, limit: usize) -> (r: Vec<LogLine>)
        ensures
            is_latest_of(r@, lines_of(self.buffers@, server_id), limit),
    {
        let mut out: Vec<LogLine> = Vec::new();
        let k = self.find(server_id);
        if k >= self.buffers.len() {
            return out;
        }
        let lines = &self.buffers[k].lines;
        let count: usize = lines.len();
        let first: usize = if count > limit {
            count - limit
        } else {
            0
        };
        let mut i: usize = first;
        while i < count
            invariant
                first <= i <= count == lines@.len(),
                out@ == lines@.subrange(first as int, i as int),
            decreases count - i,
        {
            out.push(lines[i].clone());
            assert(out@ =~= lines@.subrange(first as int, i + 1));
            i = i + 1;
        }
        assert(out@ =~= lines@.skip(first as int));
        assert(lines@.skip(0) =~= lines@);
        out
    }
}

proof fn lemma_changed(before: Seq<LogBuffer>, after: Seq<LogBuffer>, k: int, server_id: Id)
    requires
        0 <= k < before.len() == after.len(),
        before[k].server_id == server_id == after[k].server_id,
        k == buffer_at(before, server_id),
        forall|i: int| 0 <= i < before.len() && i != k ==> #[trigger] after[i] == before[i],
    ensures
        buffer_at(after, server_id) == k,
        forall|id: Id|
            id != server_id ==> #[trigger] lines_of(after, id) == lines_of(before, id),
{
    lemma_buffer_at(before, server_id);
    assert forall|i: int| 0 <= i < k implies (#[trigger] after[i]).server_id != server_id by {
        assert(after[i] == before[i]);
        assert(before[i].server_id != server_id);
    }
    lemma_buffer_at_is(after, server_id, k);
    assert forall|id: Id| id != server_id implies #[trigger] lines_of(after, id) == lines_of(
        before,
        id,
    ) by {
        lemma_buffer_at(before, id);
        let n = buffer_at(before, id) as int;
        assert forall|i: int| 0 <= i < n implies (#[trigger] after[i]).server_id != id by {
            assert(before[i].server_id != id);
            if i != k {
                assert(after[i] == before[i]);
            }
        }
        if n < before.len() {
            assert(n != k);
            assert(after[n] == before[n]);
        }
        lemma_buffer_at_is(after, id, n);
    }
}

/// The lines of a server are those of the first buffer that is its own.
pub proof fn law_a_server_has_its_own_lines(buffers: Seq<LogBuffer>, server_id: Id, k: int)
    ensures
        0 <= k < buffers.len() && buffers[k].server_id == server_id && (forall|i: int|
            0 <= i < k ==> (#[trigger] buffers[i]).server_id != server_id) ==> lines_of(
            buffers,
            server_id,
        ) == buffers[k].lines@,
        (forall|i: int| 0 <= i < buffers.len() ==> (#[trigger] buffers[i]).server_id != server_id)
            ==> lines_of(buffers, server_id).len() == 0,
    decreases buffers.len(),
{
    if buffers.len() > 0 {
        let rest = buffers.skip(1);
        law_a_server_has_its_own_lines(rest, server_id, k - 1);
        assert(forall|i: int| 0 <= i < rest.len() ==> rest[i] == buffers[i + 1]);
    }
}

/// Asked for are the latest lines: as many as were asked for, or all where there are no more, in
/// the order in which they came.
pub proof fn law_the_latest_lines_are_answered(
    r: Seq<LogLine>,
    lines: Seq<LogLine>,
    limit: usize,
    i: int,
)
    requires
        is_latest_of(r, lines, limit),
    ensures
        r.len() <= limit,
        r.len() == lines.len() || r.len() == limit,
        r.len() <= lines.len(),
        0 <= i < r.len() ==> r[r.len() - 1 - i] == lines[lines.len() - 1 - i],
{
}

} // verus!
