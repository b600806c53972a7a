//! One client connection: its buffers, state, and timing.

use vstd::prelude::*;
use crate::config::ast::Addr;

verus! {

/// What a connection is doing; always exactly one of these.
pub enum ConnState {
    /// Awaiting or accumulating a request.
    Reading,
    /// A response is queued and draining to the client.
    Writing,
    /// A child is running; `output` is its readable pipe, `input` an
    /// optional writable pipe, `data` the output captured so far, and
    /// `pending` the request body still owed to the child's stdin.
    Cgi { pid: i32, input: Option<i32>, output: i32, data: Vec<u8>, pending: Vec<u8> },
    /// Terminal; the next dispatch closes and removes.
    Closing,
}

/// One client TCP session.
pub struct Connection {
    pub fd: i32,
    pub local_addr: Addr,
    pub read_buf: Vec<u8>,
    pub write_buf: Vec<u8>,
    pub state: ConnState,
    pub last_activity: u64,
    pub keep_alive: bool,
    pub timeout_ms: u64,
}

/// What the writer should do after one write.
pub enum WriteStep {
    /// Bytes remain; keep write interest armed.
    MoreToWrite,
    /// The buffer drained and the connection stays alive: read again,
    /// with write interest disabled.
    BackToReading,
    /// The buffer drained and the connection does not stay alive.
    CloseNow,
}

impl Connection {
    /// A fresh connection starts reading, with empty buffers, the
    /// accept time as its last activity, and keep-alive pending a
    /// request.
    pub fn new(fd: i32, local_addr: Addr, timeout_ms: u64, now_ms: u64) -> (r: Connection)
        ensures
            r.fd == fd,
            r.local_addr == local_addr,
            r.read_buf@ =~= Seq::<u8>::empty(),
            r.write_buf@ =~= Seq::<u8>::empty(),
            r.state is Reading,
            r.last_activity == now_ms,
            r.keep_alive == true,
            r.timeout_ms == timeout_ms,
    {
        Connection {
            fd,
            local_addr,
            read_buf: Vec::new(),
            write_buf: Vec::new(),
            state: ConnState::Reading,
            last_activity: now_ms,
            keep_alive: true,
            timeout_ms,
        }
    }

    /// Marks activity now.
    pub fn touch(&mut self, now_ms: u64)
        ensures
            *final(self) == (Connection { last_activity: now_ms, ..*old(self) }),
    {
        self.last_activity = now_ms;
    }

    /// The connection has been idle at least its timeout.
    pub fn is_timed_out(&self, now_ms: u64) -> (r: bool)
        ensures
            r == (now_ms >= self.last_activity && now_ms - self.last_activity
                >= self.timeout_ms),
    {
        now_ms >= self.last_activity && now_ms - self.last_activity >= self.timeout_ms
    }

    /// Appends bytes read from the client.
    pub fn append_read(&mut self, data: &[u8])
        ensures
            *final(self) == (Connection { read_buf: final(self).read_buf, ..*old(self) }),
            final(self).read_buf@ == old(self).read_buf@ + data@,
    {
        self.read_buf.extend_from_slice(data);
    }

    /// Queues a serialized response and turns to writing: the bytes
    /// join the back of the write buffer, the consumed request prefix
    /// leaves the read buffer, and the keep-alive choice is recorded.
    pub fn queue_response(&mut self, bytes: Vec<u8>, consumed: usize, keep_alive: bool)
        requires
            consumed <= old(self).read_buf@.len(),
        ensures
            final(self).fd == old(self).fd,
            final(self).local_addr == old(self).local_addr,
            final(self).read_buf@ == old(self).read_buf@.skip(consumed as int),
            final(self).write_buf@ == old(self).write_buf@ + bytes@,
            final(self).state is Writing,
            final(self).last_activity == old(self).last_activity,
            final(self).keep_alive == keep_alive,
            final(self).timeout_ms == old(self).timeout_ms,
    {
        let rest = vstd::slice::slice_to_vec(
            vstd::slice::slice_subrange(self.read_buf.as_slice(), consumed, self.read_buf.len()),
        );
        self.read_buf = rest;
        let mut b = bytes;
        self.write_buf.append(&mut b);
        self.state = ConnState::Writing;
        self.keep_alive = keep_alive;
        assert(self.read_buf@ =~= old(self).read_buf@.skip(consumed as int));
    }

    /// Consumes a parsed request without queueing bytes: the request
    /// prefix leaves the read buffer and the keep-alive choice is
    /// recorded, as when a CGI child will produce the response later.
    pub fn consume_request(&mut self, consumed: usize, keep_alive: bool)
        requires
            consumed <= old(self).read_buf@.len(),
        ensures
            final(self).fd == old(self).fd,
            final(self).local_addr == old(self).local_addr,
            final(self).read_buf@ == old(self).read_buf@.skip(consumed as int),
            final(self).write_buf == old(self).write_buf,
            final(self).state == old(self).state,
            final(self).last_activity == old(self).last_activity,
            final(self).keep_alive == keep_alive,
            final(self).timeout_ms == old(self).timeout_ms,
    {
        let rest = vstd::slice::slice_to_vec(
            vstd::slice::slice_subrange(self.read_buf.as_slice(), consumed, self.read_buf.len()),
        );
        self.read_buf = rest;
        self.keep_alive = keep_alive;
        assert(self.read_buf@ =~= old(self).read_buf@.skip(consumed as int));
    }

    /// Records that `n` bytes from the front of the write buffer
    /// reached the client: the written prefix leaves the buffer; when
    /// it empties, a kept-alive connection reads again and any other
    /// closes.
    pub fn after_write(&mut self, n: usize) -> (r: WriteStep)
        requires
            old(self).state is Writing,
            n <= old(self).write_buf@.len(),
        ensures
            final(self).fd == old(self).fd,
            final(self).local_addr == old(self).local_addr,
            final(self).read_buf == old(self).read_buf,
            final(self).write_buf@ == old(self).write_buf@.skip(n as int),
            final(self).last_activity == old(self).last_activity,
            final(self).keep_alive == old(self).keep_alive,
            final(self).timeout_ms == old(self).timeout_ms,
            final(self).write_buf@.len() > 0 ==> r is MoreToWrite && final(self).state is Writing,
            final(self).write_buf@.len() == 0 && old(self).keep_alive ==> r is BackToReading
                && final(self).state is Reading,
            final(self).write_buf@.len() == 0 && !old(self).keep_alive ==> r is CloseNow
                && final(self).state is Closing,
    {
        let rest = vstd::slice::slice_to_vec(
            vstd::slice::slice_subrange(self.write_buf.as_slice(), n, self.write_buf.len()),
        );
        self.write_buf = rest;
        assert(self.write_buf@ =~= old(self).write_buf@.skip(n as int));
        if self.write_buf.len() > 0 {
            WriteStep::MoreToWrite
        } else if self.keep_alive {
            self.state = ConnState::Reading;
            WriteStep::BackToReading
        } else {
            self.state = ConnState::Closing;
            WriteStep::CloseNow
        }
    }
}

/// The bytes sent by writing successive pieces of sizes `ns` from the
/// front of `buf`.
pub open spec fn pieces_written(buf: Seq<u8>, ns: Seq<int>) -> Seq<u8>
    decreases ns.len(),
{
    if ns.len() == 0 {
        Seq::empty()
    } else {
        buf.take(ns[0]) + pieces_written(buf.skip(ns[0]), ns.drop_first())
    }
}

/// The sum of piece sizes.
pub open spec fn sizes_total(ns: Seq<int>) -> int
    decreases ns.len(),
{
    if ns.len() == 0 {
        0
    } else {
        ns[0] + sizes_total(ns.drop_first())
    }
}

/// Partial-write idempotence.
///
/// Law: draining a write buffer in any number of pieces, as repeated
/// writable events do, sends exactly the same bytes in the same order
/// as one single write of their total size.
pub proof fn lemma_partial_write_idempotent(buf: Seq<u8>, ns: Seq<int>)
    requires
        forall|i: int| 0 <= i < ns.len() ==> ns[i] >= 0,
        sizes_total(ns) <= buf.len(),
    ensures
        pieces_written(buf, ns) == buf.take(sizes_total(ns)),
    decreases ns.len(),
{
    if ns.len() == 0 {
        assert(buf.take(0) =~= Seq::<u8>::empty());
    } else {
        let n0 = ns[0];
        let rest = ns.drop_first();
        assert(sizes_total(rest) >= 0) by {
            lemma_sizes_total_nonneg(rest);
        }
        lemma_partial_write_idempotent(buf.skip(n0), rest);
        assert(buf.take(n0) + buf.skip(n0).take(sizes_total(rest)) =~= buf.take(
            n0 + sizes_total(rest),
        ));
    }
}

/// Sizes never sum to a negative.
proof fn lemma_sizes_total_nonneg(ns: Seq<int>)
    requires
        forall|i: int| 0 <= i < ns.len() ==> ns[i] >= 0,
    ensures
        sizes_total(ns) >= 0,
    decreases ns.len(),
{
    if ns.len() > 0 {
        assert(forall|i: int| 0 <= i < ns.drop_first().len() ==> ns.drop_first()[i] >= 0);
        lemma_sizes_total_nonneg(ns.drop_first());
    }
}

} // verus!
