use vstd::prelude::*;
use std::collections::VecDeque;
use crate::codec::items_view;
use crate::row::{copy_strings, strings_view, Row};
use crate::messages::{has_more, summary_has_more, Response};
use crate::value::{Val, WireValue};

verus! {

/// What the caller of `RowStream::next` is to do.
pub enum Next {
    /// The next record.
    Row(Row),
    /// The buffer is empty and the server holds more: send PULL for this many
    /// records, feed the answer in, and ask again.
    Pull(i64),
    /// The stream is exhausted.
    End,
}

/// What a server message means to a stream waiting on a PULL.
pub enum Feed {
    /// A record was buffered: read the next message.
    Buffered,
    /// The batch ended; the summary said whether more records wait.
    Summary { has_more: bool },
    /// The server failed the request, with this metadata.
    Failed(Vec<(String, WireValue)>),
    /// The message does not belong in a result.
    Unexpected,
}

/// Why a record was refused.
#[derive(Debug, Clone, Copy, PartialEq, Eq, Structural)]
pub enum StreamError {
    /// The record has not as many values as the stream has fields.
    FieldCount,
}

/// A pull cursor over the records of one query.
pub struct RowStream {
    fields: Vec<String>,
    buffer: VecDeque<Vec<WireValue>>,
    has_more: bool,
    fetch_size: i64,
    received: Ghost<Seq<Seq<Val>>>,
    delivered: Ghost<nat>,
}

impl RowStream {
    pub closed spec fn fields(&self) -> Seq<Seq<char>> {
        strings_view(&self.fields)
    }

    /// Every record the server sent so far, in the order it sent them.
    pub closed spec fn received(&self) -> Seq<Seq<Val>> {
        self.received@
    }

    /// How many of them `next` has handed out.
    pub closed spec fn delivered(&self) -> nat {
        self.delivered@
    }

    /// Whether the server's last summary said that more records wait.
    pub closed spec fn has_more(&self) -> bool {
        self.has_more
    }

    pub closed spec fn fetch_size(&self) -> i64 {
        self.fetch_size
    }

    pub closed spec fn wf(&self) -> bool {
        &&& self.delivered@ + self.buffer@.len() == self.received@.len()
        &&& forall|i: int|
            0 <= i < self.buffer@.len() ==> items_view(&#[trigger] self.buffer@[i]) == self.received@[self.delivered@ + i]
                && self.buffer@[i].len() == self.fields.len()
    }

    /// The records received and not yet handed out.
    pub open spec fn pending(&self) -> Seq<Seq<Val>> {
        self.received().skip(self.delivered() as int)
    }

    /// A stream over a query whose RUN named `fields`; its first PULL has
    /// not been answered yet.
    pub fn new(fields: Vec<String>, fetch_size: i64) -> (r: Self)
        ensures
            r.wf(),
            r.fields() == strings_view(&fields),
            r.received().len() == 0,
            r.delivered() == 0,
            r.has_more(),
            r.fetch_size() == fetch_size,
    {
        RowStream {
            fields,
            buffer: VecDeque::new(),
            has_more: true,
            fetch_size,
            received: Ghost(Seq::empty()),
            delivered: Ghost(0),
        }
    }

    /// Buffers a RECORD that the server sent.
    pub fn on_record(&mut self, values: Vec<WireValue>) -> (r: Result<(), StreamError>)
        requires
            old(self).wf(),
        ensures
            final(self).wf(),
            final(self).fields() == old(self).fields(),
            final(self).delivered() == old(self).delivered(),
            final(self).has_more() == old(self).has_more(),
            final(self).fetch_size() == old(self).fetch_size(),
            r is Ok <==> values.len() == old(self).fields().len(),
            r is Ok ==> final(self).received() == old(self).received().push(items_view(&values)),
            r is Err ==> final(self).received() == old(self).received(),
    {
        if values.len() != self.fields.len() {
            return Err(StreamError::FieldCount);
        }
        let ghost v = items_view(&values);
        self.buffer.push_back(values);
        self.received = Ghost(self.received@.push(v));
        Ok(())
    }

    /// Records the SUCCESS summary that closes a batch: whether more wait.
    pub fn on_summary(&mut self, has_more: bool)
        requires
            old(self).wf(),
        ensures
            final(self).wf(),
            final(self).fields() == old(self).fields(),
            final(self).received() == old(self).received(),
            final(self).delivered() == old(self).delivered(),
            final(self).has_more() == has_more,
            final(self).fetch_size() == old(self).fetch_size(),
    {
        self.has_more = has_more;
    }

    /// Hands out the next record in the order the server sent them; asks for
    /// a PULL when the buffer is empty and more wait; reports the end once
    /// the last summary said none wait, and keeps reporting it.
    pub fn next(&mut self) -> (r: Next)
        requires
            old(self).wf(),
        ensures
            final(self).wf(),
            final(self).fields() == old(self).fields(),
            final(self).received() == old(self).received(),
            final(self).has_more() == old(self).has_more(),
            final(self).fetch_size() == old(self).fetch_size(),
            old(self).pending().len() > 0 ==> {
                &&& r is Row
                &&& r->Row_0.wf()
                &&& r->Row_0.names() == old(self).fields()
                &&& r->Row_0.values() == old(self).pending()[0]
                &&& final(self).delivered() == old(self).delivered() + 1
            },
            old(self).pending().len() == 0 ==> final(self).delivered() == old(self).delivered(),
            old(self).pending().len() == 0 && old(self).has_more() ==> r == Next::Pull(old(self).fetch_size()),
            old(self).pending().len() == 0 && !old(self).has_more() ==> r is End,
    {
        match self.buffer.pop_front() {
            Some(values) => {
                let names = copy_strings(&self.fields);
                proof {
                    assert(items_view(&values) == self.received@[self.delivered@ as int]);
                    assert forall|i: int| 0 <= i < self.buffer@.len() implies items_view(
                        &#[trigger] self.buffer@[i],
                    ) == self.received@[self.delivered@ + 1 + i] && self.buffer@[i].len() == self.fields.len() by {
                        assert(self.buffer@[i] == old(self).buffer@[i + 1]);
                    }
                    self.delivered = Ghost(self.delivered@ + 1);
                    assert(values.len() == self.fields.len());
                    assert(old(self).pending()[0] == old(self).received@[old(self).delivered@ as int]);
                }
                assert(strings_view(&names).len() == names.len());
                assert(names.len() == values.len());
                let r = Row::new(names, values);
                assert(r is Some);
                match r {
                    Some(row) => Next::Row(row),
                    None => Next::End,
                }
            },
            None => {
                if self.has_more {
                    Next::Pull(self.fetch_size)
                } else {
                    Next::End
                }
            },
        }
    }

    /// Takes one server message in answer to a PULL: a RECORD is buffered,
    /// a SUCCESS ends the batch, a FAILURE is handed back; anything else
    /// (IGNORED, or a record of the wrong width) is unexpected.
    pub fn feed(&mut self, resp: Response) -> (r: Feed)
        requires
            old(self).wf(),
        ensures
            final(self).wf(),
            final(self).fields() == old(self).fields(),
            final(self).delivered() == old(self).delivered(),
            final(self).fetch_size() == old(self).fetch_size(),
            match resp {
                Response::Record(values) => if values.len() == old(self).fields().len() {
                    r is Buffered && final(self).received() == old(self).received().push(items_view(&values))
                        && final(self).has_more() == old(self).has_more()
                } else {
                    r is Unexpected && final(self).received() == old(self).received()
                },
                Response::Success(meta) => r == (Feed::Summary { has_more: final(self).has_more() })
                    && final(self).has_more() == summary_has_more(crate::codec::entries_view(&meta))
                    && final(self).received() == old(self).received(),
                Response::Failure(_) => r is Failed && final(self).received() == old(self).received()
                    && final(self).has_more() == old(self).has_more(),
                Response::Ignored => r is Unexpected && final(self).received() == old(self).received()
                    && final(self).has_more() == old(self).has_more(),
            },
    {
        match resp {
            Response::Record(values) => match self.on_record(values) {
                Ok(()) => Feed::Buffered,
                Err(_) => Feed::Unexpected,
            },
            Response::Success(meta) => {
                let more = has_more(&meta);
                self.on_summary(more);
                Feed::Summary { has_more: more }
            },
            Response::Failure(meta) => Feed::Failed(meta),
            Response::Ignored => Feed::Unexpected,
        }
    }

    /// Whether the server still holds records of this query, so that
    /// dropping the stream must send DISCARD before the connection is reused.
    pub fn needs_discard(&self) -> (r: bool)
        ensures
            r == self.has_more(),
    {
        self.has_more
    }

    /// Whether every record was handed out and none wait on the server.
    pub fn is_exhausted(&self) -> (r: bool)
        requires
            self.wf(),
        ensures
            r == (!self.has_more() && self.pending().len() == 0),
    {
        !self.has_more && self.buffer.len() == 0
    }
}

/// Handing out one record walks the received records in the order the server
/// sent them: it is the oldest pending one, and the rest stay pending, none
/// skipped or repeated.
pub proof fn lemma_next_in_order(s: RowStream, t: RowStream)
    requires
        s.wf(),
        s.pending().len() > 0,
        t.received() == s.received(),
        t.delivered() == s.delivered() + 1,
    ensures
        s.pending()[0] == s.received()[s.delivered() as int],
        t.pending() == s.pending().drop_first(),
{
    assert(t.pending() =~= s.pending().drop_first());
}

/// Buffering a record leaves what is pending in place and puts the record
/// after it.
pub proof fn lemma_record_appends(s: RowStream, t: RowStream, rec: Seq<Val>)
    requires
        s.wf(),
        t.received() == s.received().push(rec),
        t.delivered() == s.delivered(),
    ensures
        t.pending() == s.pending().push(rec),
{
    assert(t.pending() =~= s.pending().push(rec));
}

/// Once the last summary said that no records wait and none are pending, the
/// stream stays at its end for as long as nothing more is received.
pub proof fn lemma_end_stays(s: RowStream, t: RowStream)
    requires
        s.wf(),
        s.pending().len() == 0,
        !s.has_more(),
        t.received() == s.received(),
        t.delivered() == s.delivered(),
        t.has_more() == s.has_more(),
    ensures
        t.pending().len() == 0,
        !t.has_more(),
{
}

} // verus!
