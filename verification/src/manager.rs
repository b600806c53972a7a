//! The connection table: connections by descriptor, the side index
//! from CGI pipe descriptors to their owning connection, and the
//! model of what is registered with the readiness poller.
//!
//! The well-formedness predicate `sm_wf` is the table invariant:
//! every connection is in exactly one state (the state is one enum
//! variant); a connection in the CGI state has its output pipe, and
//! its input pipe when present, in the pipe index and registered;
//! every descriptor in the table or the pipe index is registered; and
//! every registered descriptor is a listener, a connection, or a
//! pipe. Every operation here preserves it.

use vstd::prelude::*;
use crate::conn::{Connection, ConnState};

verus! {

/// `x` occurs in `s`.
pub open spec fn has_i32(s: Seq<i32>, x: i32) -> bool {
    exists|k: int| 0 <= k < s.len() && s[k] == x
}

/// The table holds a connection with descriptor `fd`.
pub open spec fn has_conn(cs: Seq<Connection>, fd: i32) -> bool {
    exists|k: int| 0 <= k < cs.len() && cs[k].fd == fd
}

/// The pipe index holds key `p`.
pub open spec fn has_pipe(pm: Seq<(i32, i32)>, p: i32) -> bool {
    exists|k: int| 0 <= k < pm.len() && pm[k].0 == p
}

/// The pipe index maps `p` to `c`.
pub open spec fn has_pipe_to(pm: Seq<(i32, i32)>, p: i32, c: i32) -> bool {
    exists|k: int| 0 <= k < pm.len() && pm[k] == (p, c)
}

/// The state owns pipe descriptor `p`.
pub open spec fn state_owns_pipe(st: ConnState, p: i32) -> bool {
    st matches ConnState::Cgi { input, output, .. } && (output == p || input == Some(p))
}

/// Pipe entry `k` points at a connection that owns that pipe.
pub open spec fn pipe_entry_owned(cs: Seq<Connection>, pm: Seq<(i32, i32)>, k: int) -> bool {
    exists|j: int|
        0 <= j < cs.len() && cs[j].fd == pm[k].1 && state_owns_pipe(cs[j].state, pm[k].0)
}

/// Connection `j`, when in the CGI state, has its pipes in the pipe
/// index and registered.
pub open spec fn conn_pipes_tracked(
    cs: Seq<Connection>,
    pm: Seq<(i32, i32)>,
    rg: Seq<i32>,
    j: int,
) -> bool {
    cs[j].state matches ConnState::Cgi { input, output, .. } ==> has_i32(rg, output)
        && has_pipe_to(pm, output, cs[j].fd) && (input matches Some(ip) ==> has_i32(rg, ip)
        && has_pipe_to(pm, ip, cs[j].fd))
}

/// Registered descriptor `k` is a listener, a connection, or a pipe.
pub open spec fn registered_known(
    cs: Seq<Connection>,
    pm: Seq<(i32, i32)>,
    rg: Seq<i32>,
    ls: Seq<i32>,
    k: int,
) -> bool {
    has_i32(ls, rg[k]) || has_conn(cs, rg[k]) || has_pipe(pm, rg[k])
}

/// Connections by descriptor, the pipe index, and the poller model.
pub struct ServerManager {
    pub conns: Vec<Connection>,
    pub pipe_map: Vec<(i32, i32)>,
    pub registered: Vec<i32>,
    pub listeners: Vec<i32>,
}

impl ServerManager {
    /// The table invariant; see the module description.
    pub open spec fn wf(&self) -> bool {
        let cs = self.conns@;
        let pm = self.pipe_map@;
        let rg = self.registered@;
        let ls = self.listeners@;
        &&& forall|i: int, j: int| 0 <= i < j < cs.len() ==> cs[i].fd != cs[j].fd
        &&& forall|i: int, j: int| 0 <= i < j < pm.len() ==> pm[i].0 != pm[j].0
        &&& forall|i: int|
            0 <= i < cs.len() ==> !has_pipe(pm, #[trigger] cs[i].fd) && !has_i32(ls, cs[i].fd)
        &&& forall|j: int| 0 <= j < pm.len() ==> !has_i32(ls, #[trigger] pm[j].0)
        &&& forall|i: int| 0 <= i < cs.len() ==> has_i32(rg, #[trigger] cs[i].fd)
        &&& forall|j: int| 0 <= j < pm.len() ==> has_i32(rg, #[trigger] pm[j].0)
        &&& forall|k: int| 0 <= k < rg.len() ==> #[trigger] registered_known(cs, pm, rg, ls, k)
        &&& forall|k: int| 0 <= k < pm.len() ==> #[trigger] pipe_entry_owned(cs, pm, k)
        &&& forall|j: int| 0 <= j < cs.len() ==> #[trigger] conn_pipes_tracked(cs, pm, rg, j)
    }

    /// An empty table.
    pub fn new() -> (r: ServerManager)
        ensures
            r.conns@.len() == 0,
            r.pipe_map@.len() == 0,
            r.registered@.len() == 0,
            r.listeners@.len() == 0,
            r.wf(),
    {
        ServerManager {
            conns: Vec::new(),
            pipe_map: Vec::new(),
            registered: Vec::new(),
            listeners: Vec::new(),
        }
    }

    /// `fd` occurs nowhere in the table or poller model.
    pub open spec fn fresh(&self, fd: i32) -> bool {
        &&& !has_conn(self.conns@, fd)
        &&& !has_pipe(self.pipe_map@, fd)
        &&& !has_i32(self.registered@, fd)
        &&& !has_i32(self.listeners@, fd)
    }

    /// Records a listening socket; it is registered for read.
    pub fn add_listener(&mut self, fd: i32)
        requires
            old(self).wf(),
            old(self).fresh(fd),
        ensures
            final(self).wf(),
            final(self).conns@ == old(self).conns@,
            final(self).pipe_map@ == old(self).pipe_map@,
            final(self).registered@ == old(self).registered@.push(fd),
            final(self).listeners@ == old(self).listeners@.push(fd),
    {
        self.listeners.push(fd);
        self.registered.push(fd);
        proof {
            lemma_push_has(old(self).registered@, fd);
            lemma_push_has(old(self).listeners@, fd);
            let cs = self.conns@;
            let pm = self.pipe_map@;
            let rg = self.registered@;
            let ls = self.listeners@;
            let rg0 = old(self).registered@;
            let ls0 = old(self).listeners@;
            assert forall|i: int| 0 <= i < cs.len() implies !has_i32(ls, #[trigger] cs[i].fd)
                && has_i32(rg, cs[i].fd) by {
                assert(!has_i32(ls0, cs[i].fd));
                assert(has_i32(rg0, cs[i].fd));
            }
            assert forall|j: int| 0 <= j < pm.len() implies !has_i32(ls, #[trigger] pm[j].0)
                && has_i32(rg, pm[j].0) by {
                assert(!has_i32(ls0, pm[j].0));
                assert(has_i32(rg0, pm[j].0));
            }
            assert forall|k: int| 0 <= k < rg.len() implies #[trigger] registered_known(
                cs,
                pm,
                rg,
                ls,
                k,
            ) by {
                if k < rg.len() - 1 {
                    assert(registered_known(cs, pm, rg0, ls0, k));
                    assert(rg[k] == rg0[k]);
                    if has_i32(ls0, rg0[k]) {
                        assert(has_i32(ls, rg[k]));
                    }
                } else {
                    assert(rg[k] == fd);
                    assert(has_i32(ls, fd));
                }
            }
            assert forall|k: int| 0 <= k < pm.len() implies #[trigger] pipe_entry_owned(
                cs,
                pm,
                k,
            ) by {
                assert(pipe_entry_owned(old(self).conns@, old(self).pipe_map@, k));
            }
            assert forall|j: int| 0 <= j < cs.len() implies #[trigger] conn_pipes_tracked(
                cs,
                pm,
                rg,
                j,
            ) by {
                assert(conn_pipes_tracked(cs, pm, rg0, j));
                match cs[j].state {
                    ConnState::Cgi { input, output, .. } => {
                        assert(has_i32(rg0, output));
                        match input {
                            Some(ip) => {
                                assert(has_i32(rg0, ip));
                            },
                            None => {},
                        }
                    },
                    _ => {},
                }
            }
        }
    }

    /// Inserts a freshly accepted connection; its descriptor is
    /// registered for read.
    pub fn insert(&mut self, fd: i32, conn: Connection)
        requires
            old(self).wf(),
            old(self).fresh(fd),
            conn.fd == fd,
            !(conn.state is Cgi),
        ensures
            final(self).wf(),
            final(self).conns@ == old(self).conns@.push(conn),
            final(self).pipe_map@ == old(self).pipe_map@,
            final(self).registered@ == old(self).registered@.push(fd),
            final(self).listeners@ == old(self).listeners@,
    {
        self.conns.push(conn);
        self.registered.push(fd);
        proof {
            lemma_push_has(old(self).registered@, fd);
            let cs = self.conns@;
            let pm = self.pipe_map@;
            let rg = self.registered@;
            let ls = self.listeners@;
            let cs0 = old(self).conns@;
            let rg0 = old(self).registered@;
            assert(forall|k: int| 0 <= k < cs.len() - 1 ==> cs[k] == cs0[k]);
            assert(cs[cs.len() - 1] == conn);
            assert forall|i: int| 0 <= i < cs.len() implies !has_pipe(pm, #[trigger] cs[i].fd)
                && !has_i32(ls, cs[i].fd) && has_i32(rg, cs[i].fd) by {
                if i < cs.len() - 1 {
                    assert(!has_pipe(pm, cs0[i].fd) && !has_i32(ls, cs0[i].fd));
                    assert(has_i32(rg0, cs0[i].fd));
                }
            }
            assert forall|k: int| 0 <= k < rg.len() implies #[trigger] registered_known(
                cs,
                pm,
                rg,
                ls,
                k,
            ) by {
                if k < rg.len() - 1 {
                    assert(registered_known(cs0, pm, rg0, ls, k));
                    assert(rg[k] == rg0[k]);
                    if has_conn(cs0, rg0[k]) {
                        let j = choose|j: int| 0 <= j < cs0.len() && cs0[j].fd == rg0[k];
                        assert(cs[j].fd == rg[k]);
                        assert(has_conn(cs, rg[k]));
                    }
                } else {
                    assert(rg[k] == fd);
                    assert(cs[cs.len() - 1].fd == fd);
                    assert(has_conn(cs, fd));
                }
            }
            assert forall|k: int| 0 <= k < pm.len() implies #[trigger] pipe_entry_owned(
                cs,
                pm,
                k,
            ) by {
                assert(pipe_entry_owned(cs0, pm, k));
                let j = choose|j: int|
                    0 <= j < cs0.len() && cs0[j].fd == pm[k].1 && state_owns_pipe(
                        cs0[j].state,
                        pm[k].0,
                    );
                assert(cs[j].fd == pm[k].1 && state_owns_pipe(cs[j].state, pm[k].0));
            }
            assert forall|j: int| 0 <= j < cs.len() implies #[trigger] conn_pipes_tracked(
                cs,
                pm,
                rg,
                j,
            ) by {
                if j < cs.len() - 1 {
                    assert(conn_pipes_tracked(cs0, pm, rg0, j));
                    match cs[j].state {
                        ConnState::Cgi { input, output, .. } => {
                            assert(has_i32(rg0, output));
                            match input {
                                Some(ip) => {
                                    assert(has_i32(rg0, ip));
                                },
                                None => {},
                            }
                        },
                        _ => {},
                    }
                }
            }
        }
    }

    /// The index of the connection with descriptor `fd`.
    pub fn index_of(&self, fd: i32) -> (r: Option<usize>)
        ensures
            match r {
                Some(i) => i < self.conns@.len() && self.conns@[i as int].fd == fd,
                None => !has_conn(self.conns@, fd),
            },
    {
        let mut i: usize = 0;
        while i < self.conns.len()
            invariant
                0 <= i <= self.conns@.len(),
                forall|k: int| 0 <= k < i ==> self.conns@[k].fd != fd,
            decreases self.conns@.len() - i,
        {
            if self.conns[i].fd == fd {
                return Some(i);
            }
            i += 1;
        }
        None
    }

    /// Resolves an event descriptor to its connection's descriptor:
    /// itself when it is a connection, its owner when it is a pipe.
    pub fn get_conn_fd(&self, fd: i32) -> (r: Option<i32>)
        ensures
            match r {
                Some(c) => (c == fd && has_conn(self.conns@, fd)) || has_pipe_to(
                    self.pipe_map@,
                    fd,
                    c,
                ),
                None => !has_conn(self.conns@, fd) && !has_pipe(self.pipe_map@, fd),
            },
    {
        match self.index_of(fd) {
            Some(_) => Some(fd),
            None => {
                let mut i: usize = 0;
                while i < self.pipe_map.len()
                    invariant
                        0 <= i <= self.pipe_map@.len(),
                        forall|k: int| 0 <= k < i ==> self.pipe_map@[k].0 != fd,
                    decreases self.pipe_map@.len() - i,
                {
                    if self.pipe_map[i].0 == fd {
                        return Some(self.pipe_map[i].1);
                    }
                    i += 1;
                }
                None
            },
        }
    }

    /// The descriptors of every connection idle past its timeout.
    pub fn sweep_timeouts(&self, now_ms: u64) -> (r: Vec<i32>)
        requires
            self.wf(),
        ensures
            sweep_sound(self.conns@, r@, now_ms),
            sweep_complete(self.conns@, r@, now_ms, self.conns@.len() as int),
            forall|a: int, b: int| 0 <= a < b < r@.len() ==> r@[a] != r@[b],
    {
        let mut out: Vec<i32> = Vec::new();
        let mut i: usize = 0;
        while i < self.conns.len()
            invariant
                0 <= i <= self.conns@.len(),
                forall|a: int, b: int|
                    0 <= a < b < self.conns@.len() ==> self.conns@[a].fd != self.conns@[b].fd,
                sweep_sound(self.conns@, out@, now_ms),
                sweep_complete(self.conns@, out@, now_ms, i as int),
                forall|k: int|
                    0 <= k < out@.len() ==> exists|j: int|
                        0 <= j < i && #[trigger] out@[k] == self.conns@[j].fd,
                forall|a: int, b: int| 0 <= a < b < out@.len() ==> out@[a] != out@[b],
            decreases self.conns@.len() - i,
        {
            let ghost out_old = out@;
            if self.conns[i].is_timed_out(now_ms) {
                out.push(self.conns[i].fd);
                proof {
                    lemma_push_has(out_old, self.conns@[i as int].fd);
                    assert(forall|k: int| 0 <= k < out_old.len() ==> out@[k] == out_old[k]);
                    assert forall|k: int| 0 <= k < out@.len() implies exists|j: int|
                        0 <= j < self.conns@.len() && #[trigger] out@[k] == self.conns@[j].fd
                            && timed_out(self.conns@[j], now_ms) by {
                        if k < out_old.len() {
                            let j = choose|j: int|
                                0 <= j < self.conns@.len() && out_old[k] == self.conns@[j].fd
                                    && timed_out(self.conns@[j], now_ms);
                            assert(0 <= j < self.conns@.len() && out@[k] == self.conns@[j].fd
                                && timed_out(self.conns@[j], now_ms));
                        } else {
                            let j = i as int;
                            assert(0 <= j < self.conns@.len() && out@[k] == self.conns@[j].fd
                                && timed_out(self.conns@[j], now_ms));
                        }
                    }
                    assert forall|j: int|
                        0 <= j < i + 1 && timed_out(#[trigger] self.conns@[j], now_ms) implies
                        has_i32(out@, self.conns@[j].fd) by {
                        if j < i {
                            let k = choose|k: int|
                                0 <= k < out_old.len() && out_old[k] == self.conns@[j].fd;
                            assert(out@[k] == self.conns@[j].fd);
                        }
                    }
                    assert forall|k: int| 0 <= k < out@.len() implies exists|j: int|
                        0 <= j < i + 1 && #[trigger] out@[k] == self.conns@[j].fd by {
                        if k < out_old.len() {
                            let j = choose|j: int|
                                0 <= j < i && out_old[k] == self.conns@[j].fd;
                            assert(out@[k] == self.conns@[j].fd);
                        } else {
                            assert(out@[k] == self.conns@[i as int].fd);
                        }
                    }
                    assert forall|a: int, b: int| 0 <= a < b < out@.len() implies out@[a]
                        != out@[b] by {
                        if b == out@.len() - 1 {
                            let ja = choose|ja: int|
                                0 <= ja < i && out_old[a] == self.conns@[ja].fd;
                            assert(self.conns@[ja].fd != self.conns@[i as int].fd);
                        }
                    }
                }
            }
            i += 1;
        }
        out
    }
}

impl ServerManager {
    /// Moves the connection at `fd` into the CGI state: the child's
    /// pipes join the pipe index and are registered with the poller,
    /// and the request body still owed to the child rides in the
    /// state. Every other entry is untouched.
    #[verifier::rlimit(100)]
    pub fn start_cgi(&mut self, fd: i32, pid: i32, input: Option<i32>, output: i32, body: Vec<u8>)
        requires
            old(self).wf(),
            has_conn(old(self).conns@, fd),
            forall|j: int|
                0 <= j < old(self).conns@.len() && old(self).conns@[j].fd == fd ==> !((
                #[trigger] old(self).conns@[j]).state is Cgi),
            old(self).fresh(output),
            input matches Some(ip) ==> old(self).fresh(ip) && ip != output,
        ensures
            final(self).wf(),
            final(self).listeners@ == old(self).listeners@,
            final(self).conns@.len() == old(self).conns@.len(),
            (match input {
                Some(ip) => final(self).pipe_map@ == old(self).pipe_map@.push((output, fd)).push(
                    (ip, fd),
                ) && final(self).registered@ == old(self).registered@.push(output).push(ip),
                None => final(self).pipe_map@ == old(self).pipe_map@.push((output, fd))
                    && final(self).registered@ == old(self).registered@.push(output),
            }),
            forall|i: int|
                0 <= i < old(self).conns@.len() && (#[trigger] old(self).conns@[i]).fd == fd
                    ==> cgi_started(old(self).conns@[i], final(self).conns@[i], pid, input, output, body@)
                    && (forall|j: int|
                    0 <= j < old(self).conns@.len() && j != i ==> final(self).conns@[j]
                        == old(self).conns@[j]),
    {
        let i = match self.index_of(fd) {
            Some(i) => i,
            None => {
                proof {
                    assert(false);
                }
                return ;
            },
        };
        let ghost cs = self.conns@;
        let ghost pm = self.pipe_map@;
        let ghost rg = self.registered@;
        let ghost ls = self.listeners@;
        let ghost body_v = body@;
        let mut c = self.conns.remove(i);
        c.state = ConnState::Cgi { pid, input, output, data: Vec::new(), pending: body };
        self.conns.insert(i, c);
        self.pipe_map.push((output, fd));
        self.registered.push(output);
        match input {
            Some(ip) => {
                self.pipe_map.push((ip, fd));
                self.registered.push(ip);
            },
            None => {},
        }
        proof {
            let cs2 = self.conns@;
            let pm2 = self.pipe_map@;
            let rg2 = self.registered@;
            let n = cs.len() as int;
            assert(cs2.len() == n) by {
                assert(cs2 =~= cs.subrange(0, i as int).push(cs2[i as int]) + cs.subrange(
                    i + 1,
                    n,
                ));
            }
            assert(forall|k: int| 0 <= k < n && k != i ==> cs2[k] == cs[k]);
            assert(cs2[i as int].fd == fd);
            assert(cgi_started(cs[i as int], cs2[i as int], pid, input, output, body_v));
            assert forall|a: int, b: int| 0 <= a < b < n implies cs2[a].fd != cs2[b].fd by {
                assert(cs2[a].fd == cs[a].fd && cs2[b].fd == cs[b].fd);
            }
            lemma_push_has(rg, output);
            match input {
                Some(ip) => {
                    lemma_push_has(rg.push(output), ip);
                },
                None => {},
            }
            assert forall|k: int| 0 <= k < cs2.len() implies !has_pipe(
                pm2,
                #[trigger] cs2[k].fd,
            ) && !has_i32(ls, cs2[k].fd) && has_i32(rg2, cs2[k].fd) by {
                assert(cs2[k].fd == cs[k].fd);
                assert(!has_pipe(pm, cs[k].fd) && !has_i32(ls, cs[k].fd));
                assert(has_i32(rg, cs[k].fd));
                assert(!has_pipe(pm2, cs2[k].fd)) by {
                    if has_pipe(pm2, cs2[k].fd) {
                        let q = choose|q: int| 0 <= q < pm2.len() && pm2[q].0 == cs2[k].fd;
                        if q < pm.len() {
                            assert(has_pipe(pm, cs[k].fd));
                        } else {
                            assert(pm2[q].0 == output || (input matches Some(ip) && pm2[q].0
                                == ip));
                            assert(has_conn(cs, cs2[k].fd));
                        }
                    }
                }
            }
            assert forall|j: int| 0 <= j < pm2.len() implies !has_i32(ls, #[trigger] pm2[j].0)
                && has_i32(rg2, pm2[j].0) by {
                if j < pm.len() {
                    assert(!has_i32(ls, pm[j].0) && has_i32(rg, pm[j].0));
                } else {
                    assert(pm2[j].0 == output || (input matches Some(ip) && pm2[j].0 == ip));
                }
            }
            assert forall|a: int, b: int| 0 <= a < b < pm2.len() implies pm2[a].0 != pm2[b].0 by {
                if b >= pm.len() && a < pm.len() {
                    if pm2[a].0 == pm2[b].0 {
                        assert(has_pipe(pm, pm2[b].0));
                    }
                }
            }
            assert forall|k: int| 0 <= k < rg2.len() implies #[trigger] registered_known(
                cs2,
                pm2,
                rg2,
                ls,
                k,
            ) by {
                if k < rg.len() {
                    assert(registered_known(cs, pm, rg, ls, k));
                    assert(rg2[k] == rg[k]);
                    if has_conn(cs, rg[k]) {
                        let j = choose|j: int| 0 <= j < cs.len() && cs[j].fd == rg[k];
                        assert(cs2[j].fd == rg2[k]);
                    }
                    if has_pipe(pm, rg[k]) {
                        let q = choose|q: int| 0 <= q < pm.len() && pm[q].0 == rg[k];
                        assert(pm2[q].0 == rg2[k]);
                    }
                } else {
                    assert(rg2[k] == output || (input matches Some(ip) && rg2[k] == ip));
                    assert(has_pipe(pm2, rg2[k])) by {
                        assert(pm2[pm.len() as int].0 == output);
                        match input {
                            Some(ip2) => {
                                if rg2[k] == ip2 {
                                    assert(pm2[pm.len() as int + 1].0 == ip2);
                                }
                            },
                            None => {},
                        }
                    }
                }
            }
            assert forall|k: int| 0 <= k < pm2.len() implies #[trigger] pipe_entry_owned(
                cs2,
                pm2,
                k,
            ) by {
                if k < pm.len() {
                    assert(pipe_entry_owned(cs, pm, k));
                    let j = choose|j: int|
                        0 <= j < cs.len() && cs[j].fd == pm[k].1 && state_owns_pipe(
                            cs[j].state,
                            pm[k].0,
                        );
                    assert(j != i) by {
                        if j == i {
                            assert(cs[i as int].state is Cgi);
                        }
                    }
                    assert(cs2[j].fd == pm2[k].1 && state_owns_pipe(cs2[j].state, pm2[k].0));
                } else {
                    assert(pm2[k].1 == fd);
                    assert(cs2[i as int].fd == fd && state_owns_pipe(cs2[i as int].state, pm2[k].0));
                }
            }
            assert forall|j: int| 0 <= j < cs2.len() implies #[trigger] conn_pipes_tracked(
                cs2,
                pm2,
                rg2,
                j,
            ) by {
                if j == i {
                    assert(has_i32(rg2, output));
                    assert(has_pipe_to(pm2, output, fd)) by {
                        assert(pm2[pm.len() as int] == (output, fd));
                    }
                    match input {
                        Some(ip) => {
                            assert(has_i32(rg2, ip));
                            assert(has_pipe_to(pm2, ip, fd)) by {
                                assert(pm2[pm.len() as int + 1] == (ip, fd));
                            }
                        },
                        None => {},
                    }
                } else {
                    assert(cs2[j] == cs[j]);
                    assert(conn_pipes_tracked(cs, pm, rg, j));
                    match cs2[j].state {
                        ConnState::Cgi { input: inp0, output: out0, .. } => {
                            assert(has_i32(rg, out0));
                            assert(has_pipe_to(pm, out0, cs2[j].fd));
                            let q = choose|q: int|
                                0 <= q < pm.len() && pm[q] == (out0, cs2[j].fd);
                            assert(pm2[q] == (out0, cs2[j].fd));
                            match inp0 {
                                Some(ip0) => {
                                    assert(has_i32(rg, ip0));
                                    let q2 = choose|q2: int|
                                        0 <= q2 < pm.len() && pm[q2] == (ip0, cs2[j].fd);
                                    assert(pm2[q2] == (ip0, cs2[j].fd));
                                },
                                None => {},
                            }
                        },
                        _ => {},
                    }
                }
            }
            assert forall|i2: int|
                0 <= i2 < cs.len() && (#[trigger] cs[i2]).fd == fd implies cgi_started(
                cs[i2],
                cs2[i2],
                pid,
                input,
                output,
                body_v,
            ) && (forall|j: int| 0 <= j < cs.len() && j != i2 ==> cs2[j] == cs[j]) by {
                assert(i2 == i);
            }
        }
    }
}

/// The connection after `start_cgi`: the same session, now running
/// the given child with an empty capture and the body still owed.
pub open spec fn cgi_started(
    c0: Connection,
    c1: Connection,
    pid: i32,
    input: Option<i32>,
    output: i32,
    body: Seq<u8>,
) -> bool {
    &&& c1.fd == c0.fd
    &&& c1.local_addr == c0.local_addr
    &&& c1.read_buf == c0.read_buf
    &&& c1.write_buf == c0.write_buf
    &&& c1.last_activity == c0.last_activity
    &&& c1.keep_alive == c0.keep_alive
    &&& c1.timeout_ms == c0.timeout_ms
    &&& (c1.state matches ConnState::Cgi { pid: p2, input: in2, output: o2, data: d2, pending: pb }
        && p2 == pid && in2 == input && o2 == output && d2@.len() == 0 && pb@ == body)
}

/// Where index `k` of the reordered table came from: `swap_remove`
/// at `i` followed by a push moves the removed element to the back
/// and the old back into `i`.
pub open spec fn spec_fn_map(i: int, n: int) -> spec_fn(int) -> int {
    |k: int|
        if k == n - 1 {
            i
        } else if k == i {
            n - 1
        } else {
            k
        }
}

/// `v` without the entries that target connection `c`.
fn remove_pipes_to(v: &Vec<(i32, i32)>, c: i32) -> (r: Vec<(i32, i32)>)
    requires
        forall|a: int, b: int| 0 <= a < b < v@.len() ==> v@[a].0 != v@[b].0,
    ensures
        forall|k: int|
            0 <= k < r@.len() ==> (#[trigger] r@[k]).1 != c && has_pipe_to(v@, r@[k].0, r@[k].1),
        forall|j: int|
            0 <= j < v@.len() && (#[trigger] v@[j]).1 != c ==> has_pipe_to(r@, v@[j].0, v@[j].1),
        forall|a: int, b: int| 0 <= a < b < r@.len() ==> r@[a].0 != r@[b].0,
        forall|p: i32| has_pipe(r@, p) ==> has_pipe(v@, p),
{
    let mut out: Vec<(i32, i32)> = Vec::new();
    let mut i: usize = 0;
    while i < v.len()
        invariant
            0 <= i <= v@.len(),
            forall|a: int, b: int| 0 <= a < b < v@.len() ==> v@[a].0 != v@[b].0,
            forall|k: int|
                0 <= k < out@.len() ==> (#[trigger] out@[k]).1 != c && (exists|j: int|
                    0 <= j < i && v@[j] == out@[k]),
            forall|j: int|
                0 <= j < i && (#[trigger] v@[j]).1 != c ==> has_pipe_to(out@, v@[j].0, v@[j].1),
            forall|a: int, b: int| 0 <= a < b < out@.len() ==> out@[a].0 != out@[b].0,
        decreases v@.len() - i,
    {
        let ghost out_old = out@;
        if v[i].1 != c {
            out.push(v[i]);
            proof {
                assert(forall|k: int| 0 <= k < out_old.len() ==> out@[k] == out_old[k]);
                assert(out@.last() == v@[i as int]);
                assert forall|a: int, b: int| 0 <= a < b < out@.len() implies out@[a].0
                    != out@[b].0 by {
                    if b == out@.len() - 1 {
                        let ja = choose|ja: int| 0 <= ja < i && v@[ja] == out@[a];
                        assert(v@[ja].0 != v@[i as int].0);
                    }
                }
                assert forall|j: int| 0 <= j < i + 1 && (#[trigger] v@[j]).1 != c implies
                    has_pipe_to(out@, v@[j].0, v@[j].1) by {
                    if j < i {
                        let k = choose|k: int|
                            0 <= k < out_old.len() && out_old[k] == (v@[j].0, v@[j].1);
                        assert(out@[k] == (v@[j].0, v@[j].1));
                    } else {
                        assert(out@[out@.len() - 1] == (v@[j].0, v@[j].1));
                    }
                }
            }
        }
        i += 1;
    }
    proof {
        assert forall|k: int| 0 <= k < out@.len() implies (#[trigger] out@[k]).1 != c
            && has_pipe_to(v@, out@[k].0, out@[k].1) by {
            let j = choose|j: int| 0 <= j < v@.len() && v@[j] == out@[k];
        }
        assert forall|p: i32| has_pipe(out@, p) implies has_pipe(v@, p) by {
            if has_pipe(out@, p) {
                let k = choose|k: int| 0 <= k < out@.len() && out@[k].0 == p;
                let j = choose|j: int| 0 <= j < v@.len() && v@[j] == out@[k];
                assert(v@[j].0 == p);
            }
        }
    }
    out
}

impl ServerManager {
    /// Ends a connection's CGI exchange: its pipes leave the pipe
    /// index and the poller model, the serialized response joins the
    /// write buffer, and the connection turns to writing; every other
    /// entry is untouched. A descriptor without a CGI connection
    /// leaves the table as it was. The caller closes the pipe
    /// descriptors and reaps the child itself.
    #[verifier::rlimit(100)]
    pub fn finish_cgi(&mut self, fd: i32, bytes: Vec<u8>)
        requires
            old(self).wf(),
        ensures
            final(self).wf(),
            final(self).listeners@ == old(self).listeners@,
            forall|p: i32| !has_pipe_to(final(self).pipe_map@, p, fd),
            (forall|i: int|
                0 <= i < old(self).conns@.len() && (#[trigger] old(self).conns@[i]).fd == fd
                    ==> !(old(self).conns@[i].state is Cgi)) ==> *final(self) == *old(self),
            forall|i: int|
                0 <= i < old(self).conns@.len() && (#[trigger] old(self).conns@[i]).fd == fd
                    && old(self).conns@[i].state is Cgi ==> cgi_finished(
                    old(self).conns@[i],
                    final(self).conns@[i],
                    bytes@,
                ) && final(self).conns@.len() == old(self).conns@.len() && (forall|j: int|
                    0 <= j < old(self).conns@.len() && j != i ==> final(self).conns@[j]
                        == old(self).conns@[j]) && (forall|k: int|
                    0 <= k < final(self).pipe_map@.len()
                        ==> (#[trigger] final(self).pipe_map@[k]).1 != fd && has_pipe_to(
                        old(self).pipe_map@,
                        final(self).pipe_map@[k].0,
                        final(self).pipe_map@[k].1,
                    )) && (forall|k: int|
                    0 <= k < old(self).pipe_map@.len()
                        && (#[trigger] old(self).pipe_map@[k]).1 != fd ==> has_pipe_to(
                        final(self).pipe_map@,
                        old(self).pipe_map@[k].0,
                        old(self).pipe_map@[k].1,
                    )) && (forall|y: i32|
                    has_i32(final(self).registered@, y) ==> has_i32(old(self).registered@, y)
                        && !state_owns_pipe(old(self).conns@[i].state, y)) && (forall|y: i32|
                    has_i32(old(self).registered@, y) && !state_owns_pipe(
                        old(self).conns@[i].state,
                        y,
                    ) ==> has_i32(final(self).registered@, y)),
    {
        let i = match self.index_of(fd) {
            Some(i) => i,
            None => {
                proof {
                    assert forall|p: i32| !has_pipe_to(self.pipe_map@, p, fd) by {
                        if has_pipe_to(self.pipe_map@, p, fd) {
                            let q = choose|q: int|
                                0 <= q < self.pipe_map@.len() && self.pipe_map@[q] == (p, fd);
                            assert(pipe_entry_owned(self.conns@, self.pipe_map@, q));
                            let j = choose|j: int|
                                0 <= j < self.conns@.len() && self.conns@[j].fd
                                    == self.pipe_map@[q].1 && state_owns_pipe(
                                    self.conns@[j].state,
                                    self.pipe_map@[q].0,
                                );
                        }
                    }
                }
                return ;
            },
        };
        let (input, output) = match &self.conns[i].state {
            ConnState::Cgi { input, output, .. } => (*input, *output),
            _ => {
                proof {
                    assert forall|p: i32| !has_pipe_to(self.pipe_map@, p, fd) by {
                        if has_pipe_to(self.pipe_map@, p, fd) {
                            let q = choose|q: int|
                                0 <= q < self.pipe_map@.len() && self.pipe_map@[q] == (p, fd);
                            assert(pipe_entry_owned(self.conns@, self.pipe_map@, q));
                            let j = choose|j: int|
                                0 <= j < self.conns@.len() && self.conns@[j].fd
                                    == self.pipe_map@[q].1 && state_owns_pipe(
                                    self.conns@[j].state,
                                    self.pipe_map@[q].0,
                                );
                            assert(j == i);
                        }
                    }
                }
                return ;
            },
        };
        let ghost cs = self.conns@;
        let ghost pm = self.pipe_map@;
        let ghost rg = self.registered@;
        let ghost ls = self.listeners@;
        let pm2v = remove_pipes_to(&self.pipe_map, fd);
        self.pipe_map = pm2v;
        let rg1 = remove_i32_all(&self.registered, output);
        self.registered = rg1;
        match input {
            Some(ip) => {
                let rg2 = remove_i32_all(&self.registered, ip);
                self.registered = rg2;
            },
            None => {},
        }
        let ghost bytes_v = bytes@;
        let mut c = self.conns.remove(i);
        c.state = ConnState::Writing;
        let mut b = bytes;
        c.write_buf.append(&mut b);
        self.conns.insert(i, c);
        proof {
            let cs2 = self.conns@;
            let pm2 = self.pipe_map@;
            let rg2 = self.registered@;
            let n = cs.len() as int;
            assert(cs2.len() == n) by {
                assert(cs2 =~= cs.subrange(0, i as int).push(cs2[i as int]) + cs.subrange(
                    i + 1,
                    n,
                ));
            }
            assert(forall|k: int| 0 <= k < n && k != i ==> cs2[k] == cs[k]);
            assert(cs2[i as int].fd == fd && cs2[i as int].state is Writing);
            assert(cgi_finished(cs[i as int], cs2[i as int], bytes_v)) by {
                assert(cs2[i as int].write_buf@ == cs[i as int].write_buf@ + bytes_v);
            }
            assert forall|a: int, b2: int| 0 <= a < b2 < n implies cs2[a].fd != cs2[b2].fd by {
                assert(cs2[a].fd == cs[a].fd && cs2[b2].fd == cs[b2].fd);
            }
            // a registered descriptor other than the two pipes survives
            assert forall|y: i32| has_i32(rg, y) && y != output && (input matches Some(ip)
                ==> y != ip) implies has_i32(rg2, y) by {}
            // the removed pipes were this connection's; other pipe keys differ
            assert forall|q: int| 0 <= q < pm.len() && (#[trigger] pm[q]).1 != fd implies pm[q].0
                != output && (input matches Some(ip) ==> pm[q].0 != ip) by {
                assert(conn_pipes_tracked(cs, pm, rg, i as int));
                assert(has_pipe_to(pm, output, fd));
                let qo = choose|qo: int| 0 <= qo < pm.len() && pm[qo] == (output, fd);
                assert(qo != q);
                match input {
                    Some(ip) => {
                        assert(has_pipe_to(pm, ip, fd));
                        let qi = choose|qi: int| 0 <= qi < pm.len() && pm[qi] == (ip, fd);
                        assert(qi != q);
                    },
                    None => {},
                }
            }
            assert forall|k: int| 0 <= k < cs2.len() implies !has_pipe(
                pm2,
                #[trigger] cs2[k].fd,
            ) && !has_i32(ls, cs2[k].fd) && has_i32(rg2, cs2[k].fd) by {
                assert(cs2[k].fd == cs[k].fd);
                assert(!has_pipe(pm, cs[k].fd) && !has_i32(ls, cs[k].fd));
                assert(has_i32(rg, cs[k].fd));
                assert(cs[k].fd != output && (input matches Some(ip) ==> cs[k].fd != ip)) by {
                    assert(conn_pipes_tracked(cs, pm, rg, i as int));
                    assert(has_pipe_to(pm, output, fd));
                    let qo = choose|qo: int| 0 <= qo < pm.len() && pm[qo] == (output, fd);
                    assert(pm[qo].0 == output);
                    assert(has_pipe(pm, output));
                    match input {
                        Some(ip) => {
                            assert(has_pipe_to(pm, ip, fd));
                            let qi = choose|qi: int| 0 <= qi < pm.len() && pm[qi] == (ip, fd);
                            assert(pm[qi].0 == ip);
                            assert(has_pipe(pm, ip));
                        },
                        None => {},
                    }
                }
                if has_pipe(pm2, cs2[k].fd) {
                    assert(has_pipe(pm, cs2[k].fd));
                }
            }
            assert forall|j: int| 0 <= j < pm2.len() implies !has_i32(ls, #[trigger] pm2[j].0)
                && has_i32(rg2, pm2[j].0) by {
                let q = choose|q: int| 0 <= q < pm.len() && pm[q] == pm2[j];
                assert(!has_i32(ls, pm[q].0) && has_i32(rg, pm[q].0));
                assert(pm[q].0 != output && (input matches Some(ip) ==> pm[q].0 != ip));
            }
            assert forall|k: int| 0 <= k < rg2.len() implies #[trigger] registered_known(
                cs2,
                pm2,
                rg2,
                ls,
                k,
            ) by {
                assert(has_i32(rg, rg2[k]));
                let k0 = choose|k0: int| 0 <= k0 < rg.len() && rg[k0] == rg2[k];
                assert(registered_known(cs, pm, rg, ls, k0));
                if has_conn(cs, rg[k0]) {
                    let j = choose|j: int| 0 <= j < cs.len() && cs[j].fd == rg[k0];
                    assert(cs2[j].fd == rg2[k]);
                } else if has_pipe(pm, rg[k0]) && !has_i32(ls, rg[k0]) {
                    let q = choose|q: int| 0 <= q < pm.len() && pm[q].0 == rg[k0];
                    assert(rg2[k] != output && (input matches Some(ip) ==> rg2[k] != ip));
                    assert(pm[q].1 != fd) by {
                        if pm[q].1 == fd {
                            assert(pipe_entry_owned(cs, pm, q));
                            let j = choose|j: int|
                                0 <= j < cs.len() && cs[j].fd == pm[q].1 && state_owns_pipe(
                                    cs[j].state,
                                    pm[q].0,
                                );
                            assert(j == i);
                            assert(pm[q].0 == output || input == Some(pm[q].0));
                        }
                    }
                    assert(has_pipe_to(pm2, pm[q].0, pm[q].1));
                    let q2 = choose|q2: int| 0 <= q2 < pm2.len() && pm2[q2] == (pm[q].0, pm[q].1);
                    assert(pm2[q2].0 == rg2[k]);
                }
            }
            assert forall|k: int| 0 <= k < pm2.len() implies #[trigger] pipe_entry_owned(
                cs2,
                pm2,
                k,
            ) by {
                let q = choose|q: int| 0 <= q < pm.len() && pm[q] == pm2[k];
                assert(pipe_entry_owned(cs, pm, q));
                let j = choose|j: int|
                    0 <= j < cs.len() && cs[j].fd == pm[q].1 && state_owns_pipe(
                        cs[j].state,
                        pm[q].0,
                    );
                assert(j != i) by {
                    if j == i {
                        assert(pm[q].1 == fd);
                        assert(pm2[k].1 != fd);
                    }
                }
                assert(cs2[j].fd == pm2[k].1 && state_owns_pipe(cs2[j].state, pm2[k].0));
            }
            assert forall|j: int| 0 <= j < cs2.len() implies #[trigger] conn_pipes_tracked(
                cs2,
                pm2,
                rg2,
                j,
            ) by {
                if j != i {
                    assert(cs2[j] == cs[j]);
                    assert(conn_pipes_tracked(cs, pm, rg, j));
                    match cs2[j].state {
                        ConnState::Cgi { input: inp0, output: out0, .. } => {
                            assert(has_pipe_to(pm, out0, cs2[j].fd));
                            assert(cs2[j].fd != fd);
                            assert(has_pipe_to(pm2, out0, cs2[j].fd)) by {
                                let q = choose|q: int|
                                    0 <= q < pm.len() && pm[q] == (out0, cs2[j].fd);
                                assert(pm[q].1 != fd);
                            }
                            assert(has_i32(rg2, out0)) by {
                                assert(has_i32(rg, out0));
                                let q = choose|q: int|
                                    0 <= q < pm.len() && pm[q] == (out0, cs2[j].fd);
                                assert(out0 != output && (input matches Some(ip) ==> out0 != ip));
                            }
                            match inp0 {
                                Some(ip0) => {
                                    assert(has_pipe_to(pm, ip0, cs2[j].fd));
                                    assert(has_pipe_to(pm2, ip0, cs2[j].fd)) by {
                                        let q = choose|q: int|
                                            0 <= q < pm.len() && pm[q] == (ip0, cs2[j].fd);
                                        assert(pm[q].1 != fd);
                                    }
                                    assert(has_i32(rg2, ip0)) by {
                                        assert(has_i32(rg, ip0));
                                        let q = choose|q: int|
                                            0 <= q < pm.len() && pm[q] == (ip0, cs2[j].fd);
                                        assert(ip0 != output && (input matches Some(ip) ==> ip0
                                            != ip));
                                    }
                                },
                                None => {},
                            }
                        },
                        _ => {},
                    }
                }
            }
            assert forall|p: i32| !has_pipe_to(pm2, p, fd) by {
                if has_pipe_to(pm2, p, fd) {
                    let k = choose|k: int| 0 <= k < pm2.len() && pm2[k] == (p, fd);
                }
            }
            // registered clauses of the functional part
            assert forall|y: i32| has_i32(rg2, y) implies has_i32(rg, y) && !state_owns_pipe(
                cs[i as int].state,
                y,
            ) by {}
            assert forall|y: i32| has_i32(rg, y) && !state_owns_pipe(
                cs[i as int].state,
                y,
            ) implies has_i32(rg2, y) by {}
        }
    }
}

/// The connection after `finish_cgi`: the same session, now writing
/// the old buffer followed by the response bytes.
pub open spec fn cgi_finished(c0: Connection, c1: Connection, bytes: Seq<u8>) -> bool {
    &&& c1.fd == c0.fd
    &&& c1.local_addr == c0.local_addr
    &&& c1.read_buf == c0.read_buf
    &&& c1.write_buf@ == c0.write_buf@ + bytes
    &&& c1.state is Writing
    &&& c1.last_activity == c0.last_activity
    &&& c1.keep_alive == c0.keep_alive
    &&& c1.timeout_ms == c0.timeout_ms
}


/// `v` without the entry keyed `p`.
fn remove_pipe_key(v: &Vec<(i32, i32)>, p: i32) -> (r: Vec<(i32, i32)>)
    requires
        forall|a: int, b: int| 0 <= a < b < v@.len() ==> v@[a].0 != v@[b].0,
    ensures
        forall|k: int|
            0 <= k < r@.len() ==> (#[trigger] r@[k]).0 != p && has_pipe_to(v@, r@[k].0, r@[k].1),
        forall|j: int|
            0 <= j < v@.len() && (#[trigger] v@[j]).0 != p ==> has_pipe_to(r@, v@[j].0, v@[j].1),
        forall|a: int, b: int| 0 <= a < b < r@.len() ==> r@[a].0 != r@[b].0,
        !has_pipe(r@, p),
{
    let mut out: Vec<(i32, i32)> = Vec::new();
    let mut i: usize = 0;
    while i < v.len()
        invariant
            0 <= i <= v@.len(),
            forall|a: int, b: int| 0 <= a < b < v@.len() ==> v@[a].0 != v@[b].0,
            forall|k: int|
                0 <= k < out@.len() ==> (#[trigger] out@[k]).0 != p && (exists|j: int|
                    0 <= j < i && v@[j] == out@[k]),
            forall|j: int|
                0 <= j < i && (#[trigger] v@[j]).0 != p ==> has_pipe_to(out@, v@[j].0, v@[j].1),
            forall|a: int, b: int| 0 <= a < b < out@.len() ==> out@[a].0 != out@[b].0,
        decreases v@.len() - i,
    {
        let ghost out_old = out@;
        if v[i].0 != p {
            out.push(v[i]);
            proof {
                assert(forall|k: int| 0 <= k < out_old.len() ==> out@[k] == out_old[k]);
                assert(out@.last() == v@[i as int]);
                assert forall|a: int, b: int| 0 <= a < b < out@.len() implies out@[a].0
                    != out@[b].0 by {
                    if b == out@.len() - 1 {
                        let ja = choose|ja: int| 0 <= ja < i && v@[ja] == out@[a];
                        assert(v@[ja].0 != v@[i as int].0);
                    }
                }
                assert forall|j: int| 0 <= j < i + 1 && (#[trigger] v@[j]).0 != p implies
                    has_pipe_to(out@, v@[j].0, v@[j].1) by {
                    if j < i {
                        let k = choose|k: int|
                            0 <= k < out_old.len() && out_old[k] == (v@[j].0, v@[j].1);
                        assert(out@[k] == (v@[j].0, v@[j].1));
                    } else {
                        assert(out@[out@.len() - 1] == (v@[j].0, v@[j].1));
                    }
                }
            }
        }
        i += 1;
    }
    proof {
        assert forall|k: int| 0 <= k < out@.len() implies (#[trigger] out@[k]).0 != p
            && has_pipe_to(v@, out@[k].0, out@[k].1) by {
            let j = choose|j: int| 0 <= j < v@.len() && v@[j] == out@[k];
        }
    }
    out
}

impl ServerManager {

    /// Records that `n` bytes of the pending request body reached the
    /// CGI child: they leave the front of the pending body. Nothing
    /// else changes.
    #[verifier::rlimit(100)]
    pub fn cgi_input_written(&mut self, fd: i32, n: usize)
        requires
            old(self).wf(),
        ensures
            final(self).wf(),
            final(self).pipe_map@ == old(self).pipe_map@,
            final(self).registered@ == old(self).registered@,
            final(self).listeners@ == old(self).listeners@,
            final(self).conns@.len() == old(self).conns@.len(),
            (forall|i: int|
                0 <= i < old(self).conns@.len() && (#[trigger] old(self).conns@[i]).fd == fd
                    ==> !(old(self).conns@[i].state is Cgi)) ==> *final(self) == *old(self),
            forall|i: int|
                0 <= i < old(self).conns@.len() && (#[trigger] old(self).conns@[i]).fd == fd
                    && old(self).conns@[i].state is Cgi ==> cgi_body_drained(
                    old(self).conns@[i],
                    final(self).conns@[i],
                    n as int,
                ) && (forall|j: int|
                    0 <= j < old(self).conns@.len() && j != i ==> final(self).conns@[j]
                        == old(self).conns@[j]),
    {
        let i = match self.index_of(fd) {
            Some(i) => i,
            None => {
                return ;
            },
        };
        let (pid, input, output, data2, pending2): (
            i32,
            Option<i32>,
            i32,
            Vec<u8>,
            Vec<u8>,
        ) = match &self.conns[i].state {
            ConnState::Cgi { pid, input, output, data, pending } => {
                let plen = pending.len();
                let cut = if n < plen {
                    n
                } else {
                    plen
                };
                (
                    *pid,
                    *input,
                    *output,
                    vstd::slice::slice_to_vec(data.as_slice()),
                    vstd::slice::slice_to_vec(
                        vstd::slice::slice_subrange(pending.as_slice(), cut, plen),
                    ),
                )
            },
            _ => {
                return ;
            },
        };
        let ghost cs = self.conns@;
        let ghost pm = self.pipe_map@;
        let ghost rg = self.registered@;
        let mut c = self.conns.remove(i);
        c.state = ConnState::Cgi { pid, input, output, data: data2, pending: pending2 };
        self.conns.insert(i, c);
        proof {
            let cs2 = self.conns@;
            let n2 = cs.len() as int;
            assert(cs2.len() == n2) by {
                assert(cs2 =~= cs.subrange(0, i as int).push(cs2[i as int]) + cs.subrange(
                    i + 1,
                    n2,
                ));
            }
            assert(forall|k: int| 0 <= k < n2 && k != i ==> cs2[k] == cs[k]);
            assert(cs2[i as int].fd == fd);
            assert(cgi_body_drained(cs[i as int], cs2[i as int], n as int));
            assert forall|p: i32| state_owns_pipe(cs2[i as int].state, p) == state_owns_pipe(
                cs[i as int].state,
                p,
            ) by {}
            assert(forall|k: int| 0 <= k < n2 ==> cs2[k].fd == cs[k].fd);
            assert forall|y: i32| has_conn(cs2, y) == has_conn(cs, y) by {
                if has_conn(cs, y) {
                    let j = choose|j: int| 0 <= j < cs.len() && cs[j].fd == y;
                    assert(cs2[j].fd == y);
                }
                if has_conn(cs2, y) {
                    let j = choose|j: int| 0 <= j < cs2.len() && cs2[j].fd == y;
                    assert(cs[j].fd == y);
                }
            }
            assert forall|k: int| 0 <= k < rg.len() implies #[trigger] registered_known(
                cs2,
                pm,
                rg,
                self.listeners@,
                k,
            ) by {
                assert(registered_known(cs, pm, rg, self.listeners@, k));
            }
            assert forall|k: int| 0 <= k < pm.len() implies #[trigger] pipe_entry_owned(
                cs2,
                pm,
                k,
            ) by {
                assert(pipe_entry_owned(cs, pm, k));
                let j = choose|j: int|
                    0 <= j < cs.len() && cs[j].fd == pm[k].1 && state_owns_pipe(
                        cs[j].state,
                        pm[k].0,
                    );
                assert(cs2[j].fd == pm[k].1 && state_owns_pipe(cs2[j].state, pm[k].0));
            }
            assert forall|j: int| 0 <= j < cs2.len() implies #[trigger] conn_pipes_tracked(
                cs2,
                pm,
                rg,
                j,
            ) by {
                assert(conn_pipes_tracked(cs, pm, rg, j));
                if j == i {
                    match cs[j].state {
                        ConnState::Cgi { input: in0, output: out0, .. } => {},
                        _ => {},
                    }
                }
            }
        }
    }

    /// Closes the child's stdin side: the input pipe leaves the pipe
    /// index and the poller model, and the pending body is dropped.
    /// The caller closes the descriptor itself.
    #[verifier::rlimit(100)]
    pub fn cgi_input_done(&mut self, fd: i32)
        requires
            old(self).wf(),
            forall|i: int|
                0 <= i < old(self).conns@.len() && (#[trigger] old(self).conns@[i]).fd == fd
                    ==> (old(self).conns@[i].state matches ConnState::Cgi {
                    input: Some(ip),
                    output,
                    ..
                } ==> ip != output),
        ensures
            final(self).wf(),
            final(self).listeners@ == old(self).listeners@,
            final(self).conns@.len() == old(self).conns@.len(),
            (forall|i: int|
                0 <= i < old(self).conns@.len() && (#[trigger] old(self).conns@[i]).fd == fd
                    ==> !(old(self).conns@[i].state matches ConnState::Cgi {
                    input: Some(_),
                    ..
                })) ==> *final(self) == *old(self),
            forall|i: int|
                0 <= i < old(self).conns@.len() && (#[trigger] old(self).conns@[i]).fd == fd
                    && (old(self).conns@[i].state matches ConnState::Cgi { input: Some(_), .. })
                    ==> cgi_input_closed(old(self).conns@[i], final(self).conns@[i]) && (forall|
                    j: int,
                |
                    0 <= j < old(self).conns@.len() && j != i ==> final(self).conns@[j]
                        == old(self).conns@[j]) && (old(self).conns@[i].state
                    matches ConnState::Cgi { input: Some(ip), .. } ==> !has_pipe(
                    final(self).pipe_map@,
                    ip,
                ) && !has_i32(final(self).registered@, ip) && (forall|k: int|
                    0 <= k < final(self).pipe_map@.len()
                        ==> (#[trigger] final(self).pipe_map@[k]).0 != ip && has_pipe_to(
                        old(self).pipe_map@,
                        final(self).pipe_map@[k].0,
                        final(self).pipe_map@[k].1,
                    )) && (forall|k: int|
                    0 <= k < old(self).pipe_map@.len()
                        && (#[trigger] old(self).pipe_map@[k]).0 != ip ==> has_pipe_to(
                        final(self).pipe_map@,
                        old(self).pipe_map@[k].0,
                        old(self).pipe_map@[k].1,
                    )) && (forall|y: i32|
                    y != ip ==> (has_i32(final(self).registered@, y) == has_i32(
                        old(self).registered@,
                        y,
                    )))),
    {
        let i = match self.index_of(fd) {
            Some(i) => i,
            None => {
                return ;
            },
        };
        let (pid, ip, output, data2): (i32, i32, i32, Vec<u8>) = match &self.conns[i].state {
            ConnState::Cgi { pid, input: Some(ip), output, data, .. } => (
                *pid,
                *ip,
                *output,
                vstd::slice::slice_to_vec(data.as_slice()),
            ),
            _ => {
                return ;
            },
        };
        let ghost cs = self.conns@;
        let ghost pm = self.pipe_map@;
        let ghost rg = self.registered@;
        let ghost ls = self.listeners@;
        let pm2v = remove_pipe_key(&self.pipe_map, ip);
        self.pipe_map = pm2v;
        let rg2v = remove_i32_all(&self.registered, ip);
        self.registered = rg2v;
        let mut c = self.conns.remove(i);
        c.state = ConnState::Cgi {
            pid,
            input: None,
            output,
            data: data2,
            pending: Vec::new(),
        };
        self.conns.insert(i, c);
        proof {
            let cs2 = self.conns@;
            let pm2 = self.pipe_map@;
            let rg2 = self.registered@;
            let n2 = cs.len() as int;
            assert(cs2.len() == n2) by {
                assert(cs2 =~= cs.subrange(0, i as int).push(cs2[i as int]) + cs.subrange(
                    i + 1,
                    n2,
                ));
            }
            assert(forall|k: int| 0 <= k < n2 && k != i ==> cs2[k] == cs[k]);
            assert(forall|k: int| 0 <= k < n2 ==> cs2[k].fd == cs[k].fd);
            assert(cs2[i as int].fd == fd);
            assert(cgi_input_closed(cs[i as int], cs2[i as int]));
            assert(ip != output);
            // the connection descriptors are never pipe keys
            assert forall|k: int| 0 <= k < cs2.len() implies !has_pipe(
                pm2,
                #[trigger] cs2[k].fd,
            ) && !has_i32(ls, cs2[k].fd) && has_i32(rg2, cs2[k].fd) by {
                assert(!has_pipe(pm, cs[k].fd) && !has_i32(ls, cs[k].fd));
                assert(has_i32(rg, cs[k].fd));
                assert(cs[k].fd != ip) by {
                    assert(conn_pipes_tracked(cs, pm, rg, i as int));
                    assert(has_pipe_to(pm, ip, fd));
                    let qi = choose|qi: int| 0 <= qi < pm.len() && pm[qi] == (ip, fd);
                    assert(pm[qi].0 == ip);
                    assert(has_pipe(pm, ip));
                }
                if has_pipe(pm2, cs2[k].fd) {
                    assert(has_pipe(pm, cs2[k].fd));
                }
            }
            assert forall|j: int| 0 <= j < pm2.len() implies !has_i32(ls, #[trigger] pm2[j].0)
                && has_i32(rg2, pm2[j].0) by {
                let q = choose|q: int| 0 <= q < pm.len() && pm[q] == pm2[j];
                assert(!has_i32(ls, pm[q].0) && has_i32(rg, pm[q].0));
                assert(pm[q].0 != ip);
            }
            assert forall|k: int| 0 <= k < rg2.len() implies #[trigger] registered_known(
                cs2,
                pm2,
                rg2,
                ls,
                k,
            ) by {
                assert(has_i32(rg, rg2[k]));
                let k0 = choose|k0: int| 0 <= k0 < rg.len() && rg[k0] == rg2[k];
                assert(registered_known(cs, pm, rg, ls, k0));
                if has_conn(cs, rg[k0]) {
                    let j = choose|j: int| 0 <= j < cs.len() && cs[j].fd == rg[k0];
                    assert(cs2[j].fd == rg2[k]);
                } else if has_pipe(pm, rg[k0]) && !has_i32(ls, rg[k0]) {
                    let q = choose|q: int| 0 <= q < pm.len() && pm[q].0 == rg[k0];
                    assert(rg2[k] != ip);
                    assert(has_pipe_to(pm2, pm[q].0, pm[q].1));
                    let q2 = choose|q2: int| 0 <= q2 < pm2.len() && pm2[q2] == (pm[q].0, pm[q].1);
                    assert(pm2[q2].0 == rg2[k]);
                }
            }
            assert forall|k: int| 0 <= k < pm2.len() implies #[trigger] pipe_entry_owned(
                cs2,
                pm2,
                k,
            ) by {
                let q = choose|q: int| 0 <= q < pm.len() && pm[q] == pm2[k];
                assert(pipe_entry_owned(cs, pm, q));
                let j = choose|j: int|
                    0 <= j < cs.len() && cs[j].fd == pm[q].1 && state_owns_pipe(
                        cs[j].state,
                        pm[q].0,
                    );
                if j == i {
                    assert(pm[q].0 == output || pm[q].0 == ip);
                    assert(pm2[k].0 != ip);
                    assert(state_owns_pipe(cs2[i as int].state, output));
                    assert(cs2[j].fd == pm2[k].1 && state_owns_pipe(cs2[j].state, pm2[k].0));
                } else {
                    assert(cs2[j].fd == pm2[k].1 && state_owns_pipe(cs2[j].state, pm2[k].0));
                }
            }
            assert forall|j: int| 0 <= j < cs2.len() implies #[trigger] conn_pipes_tracked(
                cs2,
                pm2,
                rg2,
                j,
            ) by {
                assert(conn_pipes_tracked(cs, pm, rg, j));
                match cs2[j].state {
                    ConnState::Cgi { input: inp0, output: out0, .. } => {
                        assert(has_pipe_to(pm, out0, cs2[j].fd));
                        assert(out0 != ip) by {
                            if out0 == ip {
                                if j == i {
                                } else {
                                    let q = choose|q: int|
                                        0 <= q < pm.len() && pm[q] == (out0, cs2[j].fd);
                                    assert(conn_pipes_tracked(cs, pm, rg, i as int));
                                    assert(has_pipe_to(pm, ip, fd));
                                    let qi = choose|qi: int|
                                        0 <= qi < pm.len() && pm[qi] == (ip, fd);
                                    assert(q == qi);
                                    assert(cs2[j].fd == fd);
                                    assert(cs[j].fd == cs[i as int].fd);
                                }
                            }
                        }
                        assert(has_pipe_to(pm2, out0, cs2[j].fd)) by {
                            let q = choose|q: int|
                                0 <= q < pm.len() && pm[q] == (out0, cs2[j].fd);
                            assert(pm[q].0 != ip);
                        }
                        assert(has_i32(rg2, out0));
                        match inp0 {
                            Some(ip0) => {
                                assert(j != i);
                                assert(has_pipe_to(pm, ip0, cs2[j].fd));
                                assert(ip0 != ip) by {
                                    if ip0 == ip {
                                        let q = choose|q: int|
                                            0 <= q < pm.len() && pm[q] == (ip0, cs2[j].fd);
                                        assert(conn_pipes_tracked(cs, pm, rg, i as int));
                                        assert(has_pipe_to(pm, ip, fd));
                                        let qi = choose|qi: int|
                                            0 <= qi < pm.len() && pm[qi] == (ip, fd);
                                        assert(q == qi);
                                        assert(cs[j].fd == cs[i as int].fd);
                                    }
                                }
                                assert(has_pipe_to(pm2, ip0, cs2[j].fd)) by {
                                    let q = choose|q: int|
                                        0 <= q < pm.len() && pm[q] == (ip0, cs2[j].fd);
                                    assert(pm[q].0 != ip);
                                }
                                assert(has_i32(rg2, ip0));
                            },
                            None => {},
                        }
                    },
                    _ => {},
                }
            }
        }
    }
}

impl ServerManager {
    /// Winds a CGI connection down without a response: its pipes
    /// leave the pipe index and the poller model and the connection
    /// turns to closing. Returns the child's process id and pipe
    /// descriptors so the caller can close them and reap the child;
    /// `None` when the descriptor has no CGI connection, leaving the
    /// table untouched.
    #[verifier::rlimit(100)]
    pub fn abort_cgi(&mut self, fd: i32) -> (r: Option<(i32, i32, Option<i32>)>)
        requires
            old(self).wf(),
        ensures
            final(self).wf(),
            final(self).listeners@ == old(self).listeners@,
            forall|p: i32| !has_pipe_to(final(self).pipe_map@, p, fd),
            r is None ==> *final(self) == *old(self),
            forall|i: int|
                0 <= i < old(self).conns@.len() && (#[trigger] old(self).conns@[i]).fd == fd
                    && old(self).conns@[i].state is Cgi ==> (old(self).conns@[i].state
                    matches ConnState::Cgi { pid, input, output, .. } ==> r == Some(
                    (pid, output, input),
                )) && cgi_aborted(old(self).conns@[i], final(self).conns@[i])
                    && final(self).conns@.len() == old(self).conns@.len() && (forall|j: int|
                    0 <= j < old(self).conns@.len() && j != i ==> final(self).conns@[j]
                        == old(self).conns@[j]) && (forall|k: int|
                    0 <= k < final(self).pipe_map@.len()
                        ==> (#[trigger] final(self).pipe_map@[k]).1 != fd && has_pipe_to(
                        old(self).pipe_map@,
                        final(self).pipe_map@[k].0,
                        final(self).pipe_map@[k].1,
                    )) && (forall|k: int|
                    0 <= k < old(self).pipe_map@.len()
                        && (#[trigger] old(self).pipe_map@[k]).1 != fd ==> has_pipe_to(
                        final(self).pipe_map@,
                        old(self).pipe_map@[k].0,
                        old(self).pipe_map@[k].1,
                    )) && (forall|y: i32|
                    has_i32(final(self).registered@, y) ==> has_i32(old(self).registered@, y)
                        && !state_owns_pipe(old(self).conns@[i].state, y)) && (forall|y: i32|
                    has_i32(old(self).registered@, y) && !state_owns_pipe(
                        old(self).conns@[i].state,
                        y,
                    ) ==> has_i32(final(self).registered@, y)),
    {
        let i = match self.index_of(fd) {
            Some(i) => i,
            None => {
                proof {
                    assert forall|p: i32| !has_pipe_to(self.pipe_map@, p, fd) by {
                        if has_pipe_to(self.pipe_map@, p, fd) {
                            let q = choose|q: int|
                                0 <= q < self.pipe_map@.len() && self.pipe_map@[q] == (p, fd);
                            assert(pipe_entry_owned(self.conns@, self.pipe_map@, q));
                            let j = choose|j: int|
                                0 <= j < self.conns@.len() && self.conns@[j].fd
                                    == self.pipe_map@[q].1 && state_owns_pipe(
                                    self.conns@[j].state,
                                    self.pipe_map@[q].0,
                                );
                        }
                    }
                }
                return None;
            },
        };
        let (pid, input, output) = match &self.conns[i].state {
            ConnState::Cgi { pid, input, output, .. } => (*pid, *input, *output),
            _ => {
                proof {
                    assert forall|p: i32| !has_pipe_to(self.pipe_map@, p, fd) by {
                        if has_pipe_to(self.pipe_map@, p, fd) {
                            let q = choose|q: int|
                                0 <= q < self.pipe_map@.len() && self.pipe_map@[q] == (p, fd);
                            assert(pipe_entry_owned(self.conns@, self.pipe_map@, q));
                            let j = choose|j: int|
                                0 <= j < self.conns@.len() && self.conns@[j].fd
                                    == self.pipe_map@[q].1 && state_owns_pipe(
                                    self.conns@[j].state,
                                    self.pipe_map@[q].0,
                                );
                            assert(j == i);
                        }
                    }
                }
                return None;
            },
        };
        let ghost cs = self.conns@;
        let ghost pm = self.pipe_map@;
        let ghost rg = self.registered@;
        let ghost ls = self.listeners@;
        let pm2v = remove_pipes_to(&self.pipe_map, fd);
        self.pipe_map = pm2v;
        let rg1 = remove_i32_all(&self.registered, output);
        self.registered = rg1;
        match input {
            Some(ip) => {
                let rg2 = remove_i32_all(&self.registered, ip);
                self.registered = rg2;
            },
            None => {},
        }
        let mut c = self.conns.remove(i);
        c.state = ConnState::Closing;
        self.conns.insert(i, c);
        proof {
            let cs2 = self.conns@;
            let pm2 = self.pipe_map@;
            let rg2 = self.registered@;
            let n = cs.len() as int;
            assert(cs2.len() == n) by {
                assert(cs2 =~= cs.subrange(0, i as int).push(cs2[i as int]) + cs.subrange(
                    i + 1,
                    n,
                ));
            }
            assert(forall|k: int| 0 <= k < n && k != i ==> cs2[k] == cs[k]);
            assert(cs2[i as int].fd == fd && cs2[i as int].state is Closing);
            assert(cgi_aborted(cs[i as int], cs2[i as int]));
            assert forall|a: int, b2: int| 0 <= a < b2 < n implies cs2[a].fd != cs2[b2].fd by {
                assert(cs2[a].fd == cs[a].fd && cs2[b2].fd == cs[b2].fd);
            }
            assert forall|y: i32| has_i32(rg, y) && y != output && (input matches Some(ip)
                ==> y != ip) implies has_i32(rg2, y) by {}
            assert forall|q: int| 0 <= q < pm.len() && (#[trigger] pm[q]).1 != fd implies pm[q].0
                != output && (input matches Some(ip) ==> pm[q].0 != ip) by {
                assert(conn_pipes_tracked(cs, pm, rg, i as int));
                assert(has_pipe_to(pm, output, fd));
                let qo = choose|qo: int| 0 <= qo < pm.len() && pm[qo] == (output, fd);
                assert(qo != q);
                match input {
                    Some(ip) => {
                        assert(has_pipe_to(pm, ip, fd));
                        let qi = choose|qi: int| 0 <= qi < pm.len() && pm[qi] == (ip, fd);
                        assert(qi != q);
                    },
                    None => {},
                }
            }
            assert forall|k: int| 0 <= k < cs2.len() implies !has_pipe(
                pm2,
                #[trigger] cs2[k].fd,
            ) && !has_i32(ls, cs2[k].fd) && has_i32(rg2, cs2[k].fd) by {
                assert(cs2[k].fd == cs[k].fd);
                assert(!has_pipe(pm, cs[k].fd) && !has_i32(ls, cs[k].fd));
                assert(has_i32(rg, cs[k].fd));
                assert(cs[k].fd != output && (input matches Some(ip) ==> cs[k].fd != ip)) by {
                    assert(conn_pipes_tracked(cs, pm, rg, i as int));
                    assert(has_pipe_to(pm, output, fd));
                    let qo = choose|qo: int| 0 <= qo < pm.len() && pm[qo] == (output, fd);
                    assert(pm[qo].0 == output);
                    assert(has_pipe(pm, output));
                    match input {
                        Some(ip) => {
                            assert(has_pipe_to(pm, ip, fd));
                            let qi = choose|qi: int| 0 <= qi < pm.len() && pm[qi] == (ip, fd);
                            assert(pm[qi].0 == ip);
                            assert(has_pipe(pm, ip));
                        },
                        None => {},
                    }
                }
                if has_pipe(pm2, cs2[k].fd) {
                    assert(has_pipe(pm, cs2[k].fd));
                }
            }
            assert forall|j: int| 0 <= j < pm2.len() implies !has_i32(ls, #[trigger] pm2[j].0)
                && has_i32(rg2, pm2[j].0) by {
                let q = choose|q: int| 0 <= q < pm.len() && pm[q] == pm2[j];
                assert(!has_i32(ls, pm[q].0) && has_i32(rg, pm[q].0));
                assert(pm[q].0 != output && (input matches Some(ip) ==> pm[q].0 != ip));
            }
            assert forall|k: int| 0 <= k < rg2.len() implies #[trigger] registered_known(
                cs2,
                pm2,
                rg2,
                ls,
                k,
            ) by {
                assert(has_i32(rg, rg2[k]));
                let k0 = choose|k0: int| 0 <= k0 < rg.len() && rg[k0] == rg2[k];
                assert(registered_known(cs, pm, rg, ls, k0));
                if has_conn(cs, rg[k0]) {
                    let j = choose|j: int| 0 <= j < cs.len() && cs[j].fd == rg[k0];
                    assert(cs2[j].fd == rg2[k]);
                } else if has_pipe(pm, rg[k0]) && !has_i32(ls, rg[k0]) {
                    let q = choose|q: int| 0 <= q < pm.len() && pm[q].0 == rg[k0];
                    assert(rg2[k] != output && (input matches Some(ip) ==> rg2[k] != ip));
                    assert(pm[q].1 != fd) by {
                        if pm[q].1 == fd {
                            assert(pipe_entry_owned(cs, pm, q));
                            let j = choose|j: int|
                                0 <= j < cs.len() && cs[j].fd == pm[q].1 && state_owns_pipe(
                                    cs[j].state,
                                    pm[q].0,
                                );
                            assert(j == i);
                            assert(pm[q].0 == output || input == Some(pm[q].0));
                        }
                    }
                    assert(has_pipe_to(pm2, pm[q].0, pm[q].1));
                    let q2 = choose|q2: int| 0 <= q2 < pm2.len() && pm2[q2] == (pm[q].0, pm[q].1);
                    assert(pm2[q2].0 == rg2[k]);
                }
            }
            assert forall|k: int| 0 <= k < pm2.len() implies #[trigger] pipe_entry_owned(
                cs2,
                pm2,
                k,
            ) by {
                let q = choose|q: int| 0 <= q < pm.len() && pm[q] == pm2[k];
                assert(pipe_entry_owned(cs, pm, q));
                let j = choose|j: int|
                    0 <= j < cs.len() && cs[j].fd == pm[q].1 && state_owns_pipe(
                        cs[j].state,
                        pm[q].0,
                    );
                assert(j != i) by {
                    if j == i {
                        assert(pm[q].1 == fd);
                        assert(pm2[k].1 != fd);
                    }
                }
                assert(cs2[j].fd == pm2[k].1 && state_owns_pipe(cs2[j].state, pm2[k].0));
            }
            assert forall|j: int| 0 <= j < cs2.len() implies #[trigger] conn_pipes_tracked(
                cs2,
                pm2,
                rg2,
                j,
            ) by {
                if j != i {
                    assert(cs2[j] == cs[j]);
                    assert(conn_pipes_tracked(cs, pm, rg, j));
                    match cs2[j].state {
                        ConnState::Cgi { input: inp0, output: out0, .. } => {
                            assert(has_pipe_to(pm, out0, cs2[j].fd));
                            assert(cs2[j].fd != fd);
                            assert(has_pipe_to(pm2, out0, cs2[j].fd)) by {
                                let q = choose|q: int|
                                    0 <= q < pm.len() && pm[q] == (out0, cs2[j].fd);
                                assert(pm[q].1 != fd);
                            }
                            assert(has_i32(rg2, out0)) by {
                                assert(has_i32(rg, out0));
                                let q = choose|q: int|
                                    0 <= q < pm.len() && pm[q] == (out0, cs2[j].fd);
                                assert(out0 != output && (input matches Some(ip) ==> out0 != ip));
                            }
                            match inp0 {
                                Some(ip0) => {
                                    assert(has_pipe_to(pm, ip0, cs2[j].fd));
                                    assert(has_pipe_to(pm2, ip0, cs2[j].fd)) by {
                                        let q = choose|q: int|
                                            0 <= q < pm.len() && pm[q] == (ip0, cs2[j].fd);
                                        assert(pm[q].1 != fd);
                                    }
                                    assert(has_i32(rg2, ip0)) by {
                                        assert(has_i32(rg, ip0));
                                        let q = choose|q: int|
                                            0 <= q < pm.len() && pm[q] == (ip0, cs2[j].fd);
                                        assert(ip0 != output && (input matches Some(ip) ==> ip0
                                            != ip));
                                    }
                                },
                                None => {},
                            }
                        },
                        _ => {},
                    }
                }
            }
            assert forall|p: i32| !has_pipe_to(pm2, p, fd) by {
                if has_pipe_to(pm2, p, fd) {
                    let k = choose|k: int| 0 <= k < pm2.len() && pm2[k] == (p, fd);
                }
            }
            assert forall|y: i32| has_i32(rg2, y) implies has_i32(rg, y) && !state_owns_pipe(
                cs[i as int].state,
                y,
            ) by {}
            assert forall|y: i32| has_i32(rg, y) && !state_owns_pipe(
                cs[i as int].state,
                y,
            ) implies has_i32(rg2, y) by {}
        }
        Some((pid, output, input))
    }
}

/// The connection after a CGI abort: the same session, now closing.
pub open spec fn cgi_aborted(c0: Connection, c1: Connection) -> bool {
    &&& c1.fd == c0.fd
    &&& c1.local_addr == c0.local_addr
    &&& c1.read_buf == c0.read_buf
    &&& c1.write_buf == c0.write_buf
    &&& c1.state is Closing
    &&& c1.last_activity == c0.last_activity
    &&& c1.keep_alive == c0.keep_alive
    &&& c1.timeout_ms == c0.timeout_ms
}

impl ServerManager {
    /// Appends bytes the CGI child wrote to the captured output.
    /// Nothing else changes.
    #[verifier::rlimit(100)]
    pub fn cgi_output_data(&mut self, fd: i32, chunk: &[u8])
        requires
            old(self).wf(),
        ensures
            final(self).wf(),
            final(self).pipe_map@ == old(self).pipe_map@,
            final(self).registered@ == old(self).registered@,
            final(self).listeners@ == old(self).listeners@,
            final(self).conns@.len() == old(self).conns@.len(),
            (forall|i: int|
                0 <= i < old(self).conns@.len() && (#[trigger] old(self).conns@[i]).fd == fd
                    ==> !(old(self).conns@[i].state is Cgi)) ==> *final(self) == *old(self),
            forall|i: int|
                0 <= i < old(self).conns@.len() && (#[trigger] old(self).conns@[i]).fd == fd
                    && old(self).conns@[i].state is Cgi ==> cgi_data_extended(
                    old(self).conns@[i],
                    final(self).conns@[i],
                    chunk@,
                ) && (forall|j: int|
                    0 <= j < old(self).conns@.len() && j != i ==> final(self).conns@[j]
                        == old(self).conns@[j]),
    {
        let i = match self.index_of(fd) {
            Some(i) => i,
            None => {
                return ;
            },
        };
        let (pid, input, output, data2, pending2): (
            i32,
            Option<i32>,
            i32,
            Vec<u8>,
            Vec<u8>,
        ) = match &self.conns[i].state {
            ConnState::Cgi { pid, input, output, data, pending } => {
                let mut d = vstd::slice::slice_to_vec(data.as_slice());
                d.extend_from_slice(chunk);
                (
                    *pid,
                    *input,
                    *output,
                    d,
                    vstd::slice::slice_to_vec(pending.as_slice()),
                )
            },
            _ => {
                return ;
            },
        };
        let ghost cs = self.conns@;
        let ghost pm = self.pipe_map@;
        let ghost rg = self.registered@;
        let mut c = self.conns.remove(i);
        c.state = ConnState::Cgi { pid, input, output, data: data2, pending: pending2 };
        self.conns.insert(i, c);
        proof {
            let cs2 = self.conns@;
            let n2 = cs.len() as int;
            assert(cs2.len() == n2) by {
                assert(cs2 =~= cs.subrange(0, i as int).push(cs2[i as int]) + cs.subrange(
                    i + 1,
                    n2,
                ));
            }
            assert(forall|k: int| 0 <= k < n2 && k != i ==> cs2[k] == cs[k]);
            assert(cs2[i as int].fd == fd);
            assert(cs2[i as int].read_buf == cs[i as int].read_buf);
            match (cs[i as int].state, cs2[i as int].state) {
                (
                    ConnState::Cgi { pid: p0, input: in0, output: o0, data: d0, pending: pb0 },
                    ConnState::Cgi { pid: p1, input: in1, output: o1, data: d1, pending: pb1 },
                ) => {
                    assert(p1 == p0 && in1 == in0 && o1 == o0);
                    assert(d1@ == d0@ + chunk@);
                    assert(pb1@ == pb0@);
                },
                _ => {
                    assert(false);
                },
            }
            assert(cgi_data_extended(cs[i as int], cs2[i as int], chunk@));
            assert forall|p: i32| state_owns_pipe(cs2[i as int].state, p) == state_owns_pipe(
                cs[i as int].state,
                p,
            ) by {}
            assert(forall|k: int| 0 <= k < n2 ==> cs2[k].fd == cs[k].fd);
            assert forall|y: i32| has_conn(cs2, y) == has_conn(cs, y) by {
                if has_conn(cs, y) {
                    let j = choose|j: int| 0 <= j < cs.len() && cs[j].fd == y;
                    assert(cs2[j].fd == y);
                }
                if has_conn(cs2, y) {
                    let j = choose|j: int| 0 <= j < cs2.len() && cs2[j].fd == y;
                    assert(cs[j].fd == y);
                }
            }
            assert forall|k: int| 0 <= k < rg.len() implies #[trigger] registered_known(
                cs2,
                pm,
                rg,
                self.listeners@,
                k,
            ) by {
                assert(registered_known(cs, pm, rg, self.listeners@, k));
            }
            assert forall|k: int| 0 <= k < pm.len() implies #[trigger] pipe_entry_owned(
                cs2,
                pm,
                k,
            ) by {
                assert(pipe_entry_owned(cs, pm, k));
                let j = choose|j: int|
                    0 <= j < cs.len() && cs[j].fd == pm[k].1 && state_owns_pipe(
                        cs[j].state,
                        pm[k].0,
                    );
                assert(cs2[j].fd == pm[k].1 && state_owns_pipe(cs2[j].state, pm[k].0));
            }
            assert forall|j: int| 0 <= j < cs2.len() implies #[trigger] conn_pipes_tracked(
                cs2,
                pm,
                rg,
                j,
            ) by {
                assert(conn_pipes_tracked(cs, pm, rg, j));
            }
        }
    }
}

/// The connection after output arrived from the child: only the
/// captured data grew, at the back.
pub open spec fn cgi_data_extended(c0: Connection, c1: Connection, chunk: Seq<u8>) -> bool {
    &&& c1.fd == c0.fd
    &&& c1.local_addr == c0.local_addr
    &&& c1.read_buf == c0.read_buf
    &&& c1.write_buf == c0.write_buf
    &&& c1.last_activity == c0.last_activity
    &&& c1.keep_alive == c0.keep_alive
    &&& c1.timeout_ms == c0.timeout_ms
    &&& (match (c0.state, c1.state) {
        (
            ConnState::Cgi { pid: p0, input: in0, output: o0, data: d0, pending: pb0 },
            ConnState::Cgi { pid: p1, input: in1, output: o1, data: d1, pending: pb1 },
        ) => p1 == p0 && in1 == in0 && o1 == o0 && d1@ == d0@ + chunk && pb1@ == pb0@,
        _ => false,
    })
}

/// The connection after one write toward the child: only the pending
/// body shrank, from the front.
pub open spec fn cgi_body_drained(c0: Connection, c1: Connection, n: int) -> bool {
    &&& c1.fd == c0.fd
    &&& c1.local_addr == c0.local_addr
    &&& c1.read_buf == c0.read_buf
    &&& c1.write_buf == c0.write_buf
    &&& c1.last_activity == c0.last_activity
    &&& c1.keep_alive == c0.keep_alive
    &&& c1.timeout_ms == c0.timeout_ms
    &&& (match (c0.state, c1.state) {
        (
            ConnState::Cgi { pid: p0, input: in0, output: o0, data: d0, pending: pb0 },
            ConnState::Cgi { pid: p1, input: in1, output: o1, data: d1, pending: pb1 },
        ) => p1 == p0 && in1 == in0 && o1 == o0 && d1@ == d0@ && pb1@ == pb0@.skip(
            if n <= pb0@.len() {
                n
            } else {
                pb0@.len() as int
            },
        ),
        _ => false,
    })
}

/// The connection after its input pipe closed: input gone, pending
/// body dropped, everything else as it was.
pub open spec fn cgi_input_closed(c0: Connection, c1: Connection) -> bool {
    &&& c1.fd == c0.fd
    &&& c1.local_addr == c0.local_addr
    &&& c1.read_buf == c0.read_buf
    &&& c1.write_buf == c0.write_buf
    &&& c1.last_activity == c0.last_activity
    &&& c1.keep_alive == c0.keep_alive
    &&& c1.timeout_ms == c0.timeout_ms
    &&& (match (c0.state, c1.state) {
        (
            ConnState::Cgi { pid: p0, input: in0, output: o0, data: d0, .. },
            ConnState::Cgi { pid: p1, input: in1, output: o1, data: d1, pending: pb1 },
        ) => p1 == p0 && in0 is Some && in1 is None && o1 == o0 && d1@ == d0@ && pb1@.len() == 0,
        _ => false,
    })
}

/// `v` with every occurrence of `x` removed.
fn remove_i32_all(v: &Vec<i32>, x: i32) -> (r: Vec<i32>)
    ensures
        !has_i32(r@, x),
        forall|y: i32| has_i32(r@, y) ==> has_i32(v@, y),
        forall|y: i32| has_i32(v@, y) && y != x ==> has_i32(r@, y),
{
    let mut out: Vec<i32> = Vec::new();
    let mut i: usize = 0;
    while i < v.len()
        invariant
            0 <= i <= v@.len(),
            forall|k: int| 0 <= k < out@.len() ==> out@[k] != x && has_i32(v@, #[trigger] out@[k]),
            forall|j: int|
                0 <= j < i && v@[j] != x ==> has_i32(out@, #[trigger] v@[j]),
        decreases v@.len() - i,
    {
        let ghost out_old = out@;
        if v[i] != x {
            out.push(v[i]);
            proof {
                lemma_push_has(out_old, v@[i as int]);
                assert(forall|k: int| 0 <= k < out_old.len() ==> out@[k] == out_old[k]);
                assert forall|j: int| 0 <= j < i + 1 && v@[j] != x implies has_i32(
                    out@,
                    #[trigger] v@[j],
                ) by {
                    if j < i {
                        let k = choose|k: int| 0 <= k < out_old.len() && out_old[k] == v@[j];
                        assert(out@[k] == v@[j]);
                    }
                }
            }
        }
        i += 1;
    }
    proof {
        assert forall|y: i32| has_i32(out@, y) implies has_i32(v@, y) by {}
        assert forall|y: i32| has_i32(v@, y) && y != x implies has_i32(out@, y) by {
            let j = choose|j: int| 0 <= j < v@.len() && v@[j] == y;
            assert(has_i32(out@, v@[j]));
        }
        assert(!has_i32(out@, x));
    }
    out
}

impl ServerManager {
    /// Closes a connection that holds no pipes: removes it from the
    /// table and withdraws its poller registration. The caller closes
    /// the descriptor itself; a connection still in the CGI state must
    /// first have its child wound down.
    pub fn close_conn(&mut self, fd: i32)
        requires
            old(self).wf(),
            forall|j: int|
                0 <= j < old(self).conns@.len() && old(self).conns@[j].fd == fd ==> !((
                #[trigger] old(self).conns@[j]).state is Cgi),
        ensures
            final(self).wf(),
            !has_conn(final(self).conns@, fd),
            final(self).pipe_map@ == old(self).pipe_map@,
            final(self).listeners@ == old(self).listeners@,
            has_conn(old(self).conns@, fd) ==> !has_i32(final(self).registered@, fd),
            !has_conn(old(self).conns@, fd) ==> *final(self) == *old(self),
            forall|i: int|
                0 <= i < old(self).conns@.len() && (#[trigger] old(self).conns@[i]).fd == fd
                    ==> final(self).conns@ == old(self).conns@.remove(i),
            forall|y: i32|
                y != fd ==> (has_i32(final(self).registered@, y) == has_i32(
                    old(self).registered@,
                    y,
                )),
    {
        let i = match self.index_of(fd) {
            Some(i) => i,
            None => {
                return ;
            },
        };
        proof {
            assert forall|i2: int|
                0 <= i2 < self.conns@.len() && (#[trigger] self.conns@[i2]).fd == fd implies i2
                == i as int by {}
        }
        let ghost cs = self.conns@;
        let ghost rg = self.registered@;
        let ghost pm = self.pipe_map@;
        let ghost ls = self.listeners@;
        self.conns.remove(i);
        let rg2 = remove_i32_all(&self.registered, fd);
        self.registered = rg2;
        proof {
            let cs2 = self.conns@;
            let rgn = self.registered@;
            assert(cs2 =~= cs.subrange(0, i as int) + cs.subrange(i + 1, cs.len() as int));
            assert(forall|k: int| 0 <= k < i ==> cs2[k] == cs[k]);
            assert(forall|k: int| i <= k < cs2.len() ==> cs2[k] == cs[k + 1]);
            assert forall|a: int, b: int| 0 <= a < b < cs2.len() implies cs2[a].fd != cs2[b].fd by {
                let a0: int = if a < i {
                    a
                } else {
                    a + 1
                };
                let b0: int = if b < i {
                    b
                } else {
                    b + 1
                };
                assert(cs2[a] == cs[a0] && cs2[b] == cs[b0]);
            }
            assert forall|k: int| 0 <= k < cs2.len() implies !has_pipe(pm, #[trigger] cs2[k].fd)
                && !has_i32(ls, cs2[k].fd) && has_i32(rgn, cs2[k].fd) && cs2[k].fd != fd by {
                let k0: int = if k < i {
                    k
                } else {
                    k + 1
                };
                assert(cs2[k] == cs[k0]);
                assert(cs[k0].fd != cs[i as int].fd);
                assert(has_i32(rg, cs[k0].fd));
            }
            assert forall|k: int| 0 <= k < pm.len() implies has_i32(rgn, #[trigger] pm[k].0) by {
                assert(has_i32(rg, pm[k].0));
                assert(!has_conn(cs, pm[k].0) ==> pm[k].0 != fd);
                assert(pm[k].0 != fd) by {
                    if pm[k].0 == fd {
                        assert(has_conn(cs, fd));
                        let j = choose|j: int| 0 <= j < cs.len() && cs[j].fd == fd;
                        assert(!has_pipe(pm, cs[j].fd));
                    }
                }
            }
            assert forall|k: int| 0 <= k < rgn.len() implies #[trigger] registered_known(
                cs2,
                pm,
                rgn,
                ls,
                k,
            ) by {
                assert(has_i32(rg, rgn[k]));
                let k0 = choose|k0: int| 0 <= k0 < rg.len() && rg[k0] == rgn[k];
                assert(registered_known(cs, pm, rg, ls, k0));
                assert(rgn[k] != fd);
                if has_conn(cs, rg[k0]) {
                    let j = choose|j: int| 0 <= j < cs.len() && cs[j].fd == rg[k0];
                    assert(j != i);
                    let j2: int = if j < i {
                        j
                    } else {
                        j - 1
                    };
                    assert(cs2[j2].fd == rgn[k]);
                }
            }
            assert forall|k: int| 0 <= k < pm.len() implies #[trigger] pipe_entry_owned(
                cs2,
                pm,
                k,
            ) by {
                assert(pipe_entry_owned(cs, pm, k));
                let j = choose|j: int|
                    0 <= j < cs.len() && cs[j].fd == pm[k].1 && state_owns_pipe(
                        cs[j].state,
                        pm[k].0,
                    );
                assert(j != i) by {
                    if j == i {
                        assert(cs[i as int].state is Cgi);
                    }
                }
                let j2: int = if j < i {
                    j
                } else {
                    j - 1
                };
                assert(cs2[j2].fd == pm[k].1 && state_owns_pipe(cs2[j2].state, pm[k].0));
            }
            assert forall|j: int| 0 <= j < cs2.len() implies #[trigger] conn_pipes_tracked(
                cs2,
                pm,
                rgn,
                j,
            ) by {
                let j0: int = if j < i {
                    j
                } else {
                    j + 1
                };
                assert(cs2[j] == cs[j0]);
                assert(conn_pipes_tracked(cs, pm, rg, j0));
                match cs2[j].state {
                    ConnState::Cgi { input, output, .. } => {
                        assert(has_i32(rg, output));
                        assert(output != fd) by {
                            if output == fd {
                                assert(has_pipe_to(pm, output, cs[j0].fd));
                                let q = choose|q: int|
                                    0 <= q < pm.len() && pm[q] == (output, cs[j0].fd);
                                assert(has_pipe(pm, cs[i as int].fd));
                                assert(!has_pipe(pm, cs[i as int].fd));
                            }
                        }
                        match input {
                            Some(ip) => {
                                assert(has_i32(rg, ip));
                                assert(ip != fd) by {
                                    if ip == fd {
                                        assert(has_pipe_to(pm, ip, cs[j0].fd));
                                        let q = choose|q: int|
                                            0 <= q < pm.len() && pm[q] == (ip, cs[j0].fd);
                                        assert(has_pipe(pm, cs[i as int].fd));
                                        assert(!has_pipe(pm, cs[i as int].fd));
                                    }
                                }
                            },
                            None => {},
                        }
                    },
                    _ => {},
                }
            }
            assert(!has_conn(cs2, fd)) by {
                if has_conn(cs2, fd) {
                    let j = choose|j: int| 0 <= j < cs2.len() && cs2[j].fd == fd;
                }
            }
        }
    }
}

/// A connection idle at least its timeout.
pub open spec fn timed_out(c: Connection, now_ms: u64) -> bool {
    now_ms >= c.last_activity && now_ms - c.last_activity >= c.timeout_ms
}

/// Every listed descriptor belongs to a timed-out connection.
pub open spec fn sweep_sound(cs: Seq<Connection>, r: Seq<i32>, now_ms: u64) -> bool {
    forall|k: int|
        0 <= k < r.len() ==> exists|j: int|
            0 <= j < cs.len() && #[trigger] r[k] == cs[j].fd && timed_out(cs[j], now_ms)
}

/// Every timed-out connection is listed.
pub open spec fn sweep_complete(cs: Seq<Connection>, r: Seq<i32>, now_ms: u64, upto: int) -> bool {
    forall|j: int|
        0 <= j < upto && timed_out(#[trigger] cs[j], now_ms) ==> has_i32(r, cs[j].fd)
}

/// Pushing puts the element in, and disturbs nothing else.
proof fn lemma_push_has(s: Seq<i32>, x: i32)
    ensures
        has_i32(s.push(x), x),
        forall|y: i32| has_i32(s, y) ==> has_i32(s.push(x), y),
        forall|y: i32| has_i32(s.push(x), y) ==> y == x || has_i32(s, y),
{
    assert(s.push(x)[s.len() as int] == x);
    assert forall|y: i32| has_i32(s, y) implies has_i32(s.push(x), y) by {
        let k = choose|k: int| 0 <= k < s.len() && s[k] == y;
        assert(s.push(x)[k] == y);
    }
    assert forall|y: i32| has_i32(s.push(x), y) implies y == x || has_i32(s, y) by {
        let k = choose|k: int| 0 <= k < s.push(x).len() && s.push(x)[k] == y;
        if k < s.len() {
            assert(s[k] == y);
        }
    }
}

} // verus!
