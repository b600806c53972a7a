//! The configuration tree: servers, their listen addresses, and
//! per-path-prefix location rules.

use vstd::prelude::*;
use crate::search::{spec_find, find_sub, bytes_eq, starts_with, bytes_start_with};
use crate::text::str_bytes;
use crate::http::method::Method;

verus! {

/// A listen address: a host as written in the configuration, and a port.
#[derive(Debug)]
pub struct Addr {
    pub host: String,
    pub port: u16,
}

/// The two addresses name the same endpoint text.
pub open spec fn addr_matches(a: Addr, b: Addr) -> bool {
    a.host@ == b.host@ && a.port == b.port
}

/// Address equality.
pub fn addr_eq(a: &Addr, b: &Addr) -> (r: bool)
    ensures
        r == addr_matches(*a, *b),
{
    proof {
        crate::text::lemma_str_bytes_eq(a.host@, b.host@);
    }
    a.port == b.port && bytes_eq(a.host.as_str().as_bytes(), b.host.as_str().as_bytes())
}

#[derive(Debug, Clone, Copy, PartialEq, Eq, Structural)]
pub enum HttpMethod {
    Get,
    Post,
    Delete,
}

impl HttpMethod {
    /// The routing-level method of a parsed request method.
    pub fn of_method(m: Method) -> (r: HttpMethod)
        ensures
            r == spec_of_method(m),
    {
        match m {
            Method::Get => HttpMethod::Get,
            Method::Post => HttpMethod::Post,
            Method::Delete => HttpMethod::Delete,
        }
    }
}

/// The routing-level method of a parsed request method.
pub open spec fn spec_of_method(m: Method) -> HttpMethod {
    match m {
        Method::Get => HttpMethod::Get,
        Method::Post => HttpMethod::Post,
        Method::Delete => HttpMethod::Delete,
    }
}

/// A configured error page: a status code and the file that renders it.
#[derive(Debug)]
pub struct ErrorPage {
    pub code: u16,
    pub path: String,
}

/// A CGI rule: scripts with this extension run under this interpreter.
#[derive(Debug)]
pub struct Cgi {
    pub extension: String,
    pub interpreter: String,
}

/// A location: a request-path prefix with its overrides.
#[derive(Debug)]
pub struct Location {
    pub path: String,
    pub root: Option<String>,
    pub methods: Option<Vec<HttpMethod>>,
    pub redirect: Option<String>,
    pub autoindex: Option<bool>,
    pub default_file: Option<String>,
    pub cgi: Option<Cgi>,
    pub body_limit: Option<u64>,
}

/// One server block.
#[derive(Debug)]
pub struct Server {
    pub listen: Vec<Addr>,
    pub server_names: Vec<String>,
    pub root: Option<String>,
    pub index: Vec<String>,
    pub errors: Vec<ErrorPage>,
    pub client_max_body_size: Option<u64>,
    pub keep_alive_timeout: Option<u64>,
    pub locations: Vec<Location>,
}

/// The whole configuration.
#[derive(Debug)]
pub struct Config {
    pub servers: Vec<Server>,
}

/// `s` listens on `a`.
pub open spec fn listen_contains(s: Server, a: Addr) -> bool {
    exists|j: int| 0 <= j < s.listen@.len() && addr_matches(s.listen@[j], a)
}

/// `s` names the bare host `h` (given as UTF-8 bytes).
pub open spec fn names_contain(s: Server, h: Seq<u8>) -> bool {
    exists|j: int| 0 <= j < s.server_names@.len() && str_bytes(s.server_names@[j]@) == h
}

/// The bare host of a `Host` header value: everything before the
/// first colon.
pub open spec fn bare_host(h: Seq<u8>) -> Seq<u8> {
    match spec_find(h, seq![58u8]) {
        Some(i) => h.take(i),
        None => h,
    }
}

/// The server index `find_server` must pick for `(addr, host)`: the
/// first server listening on `addr` whose names hold the bare host;
/// else the first server listening on `addr`; else the first server.
pub open spec fn spec_find_server(cfg: Config, addr: Addr, host: Seq<u8>) -> int {
    if exists|i: int|
        0 <= i < cfg.servers@.len() && listen_contains(#[trigger] cfg.servers@[i], addr)
            && names_contain(cfg.servers@[i], host) {
        first_name_match(cfg, addr, host)
    } else if exists|i: int|
        0 <= i < cfg.servers@.len() && listen_contains(#[trigger] cfg.servers@[i], addr) {
        first_listen_match(cfg, addr)
    } else {
        0
    }
}

/// The least index whose server matches both address and host.
pub open spec fn first_name_match(cfg: Config, addr: Addr, host: Seq<u8>) -> int {
    choose|i: int|
        0 <= i < cfg.servers@.len() && listen_contains(cfg.servers@[i], addr) && names_contain(
            cfg.servers@[i],
            host,
        ) && (forall|k: int|
            0 <= k < i ==> !(listen_contains(#[trigger] cfg.servers@[k], addr) && names_contain(
                cfg.servers@[k],
                host,
            )))
}

/// The least index whose server matches the address.
pub open spec fn first_listen_match(cfg: Config, addr: Addr) -> int {
    choose|i: int|
        0 <= i < cfg.servers@.len() && listen_contains(cfg.servers@[i], addr) && (forall|k: int|
            0 <= k < i ==> !listen_contains(#[trigger] cfg.servers@[k], addr))
}

impl Server {
    /// `addr` is among this server's listen addresses.
    pub fn listens_on(&self, addr: &Addr) -> (r: bool)
        ensures
            r == listen_contains(*self, *addr),
    {
        let mut j: usize = 0;
        while j < self.listen.len()
            invariant
                0 <= j <= self.listen@.len(),
                forall|k: int| 0 <= k < j ==> !addr_matches(self.listen@[k], *addr),
            decreases self.listen@.len() - j,
        {
            if addr_eq(&self.listen[j], addr) {
                return true;
            }
            j += 1;
        }
        false
    }

    /// Some server name equals the bare host bytes.
    fn has_name(&self, host: &[u8]) -> (r: bool)
        ensures
            r == names_contain(*self, host@),
    {
        let mut j: usize = 0;
        while j < self.server_names.len()
            invariant
                0 <= j <= self.server_names@.len(),
                forall|k: int| 0 <= k < j ==> str_bytes(self.server_names@[k]@) != host@,
            decreases self.server_names@.len() - j,
        {
            if bytes_eq(self.server_names[j].as_str().as_bytes(), host) {
                return true;
            }
            j += 1;
        }
        false
    }

    /// The location whose prefix is the longest prefix of `path`, if
    /// any prefix matches at all.
    pub fn find_location(&self, path: &str) -> (r: Option<&Location>)
        ensures
            match r {
                Some(loc) => exists|i: int|
                    0 <= i < self.locations@.len() && loc == &self.locations@[i]
                        && is_best_location(*self, str_bytes(path@), i),
                None => forall|i: int|
                    0 <= i < self.locations@.len() ==> !starts_with(
                        str_bytes(path@),
                        str_bytes(#[trigger] self.locations@[i].path@),
                    ),
            },
    {
        let path_b = path.as_bytes();
        let mut best: Option<usize> = None;
        let mut i: usize = 0;
        while i < self.locations.len()
            invariant
                0 <= i <= self.locations@.len(),
                match best {
                    Some(b) => 0 <= b < i && is_best_location_upto(
                        *self,
                        str_bytes(path@),
                        b as int,
                        i as int,
                    ),
                    None => forall|k: int|
                        0 <= k < i ==> !starts_with(
                            str_bytes(path@),
                            str_bytes(#[trigger] self.locations@[k].path@),
                        ),
                },
                path_b@ == str_bytes(path@),
            decreases self.locations@.len() - i,
        {
            if bytes_start_with(path_b, self.locations[i].path.as_str().as_bytes()) {
                match best {
                    Some(b) => {
                        if self.locations[i].path.as_str().as_bytes().len()
                            > self.locations[b].path.as_str().as_bytes().len() {
                            best = Some(i);
                        }
                    },
                    None => {
                        best = Some(i);
                    },
                }
            }
            i += 1;
        }
        match best {
            Some(b) => Some(&self.locations[b]),
            None => None,
        }
    }
}

/// Location `b` matches `path` and no other location among the first
/// `n` matches with a strictly longer prefix, nor an earlier one with
/// the same length.
pub open spec fn is_best_location_upto(s: Server, path: Seq<u8>, b: int, n: int) -> bool {
    &&& starts_with(path, str_bytes(s.locations@[b].path@))
    &&& forall|k: int|
        0 <= k < n && starts_with(path, str_bytes(#[trigger] s.locations@[k].path@)) ==> {
            ||| str_bytes(s.locations@[k].path@).len() < str_bytes(s.locations@[b].path@).len()
            ||| (str_bytes(s.locations@[k].path@).len() == str_bytes(s.locations@[b].path@).len()
                && b <= k)
        }
}

/// Location `b` is the one `find_location` picks for `path`.
pub open spec fn is_best_location(s: Server, path: Seq<u8>, b: int) -> bool {
    is_best_location_upto(s, path, b, s.locations@.len() as int)
}


/// When `i` is the first index matching both address and host, the
/// selection falls on `i`.
proof fn lemma_pick_name_match(cfg: Config, addr: Addr, host: Seq<u8>, i: int)
    requires
        0 <= i < cfg.servers@.len(),
        listen_contains(cfg.servers@[i], addr),
        names_contain(cfg.servers@[i], host),
        forall|k: int|
            0 <= k < i ==> !(listen_contains(#[trigger] cfg.servers@[k], addr) && names_contain(
                cfg.servers@[k],
                host,
            )),
    ensures
        spec_find_server(cfg, addr, host) == i,
{
    assert(exists|j: int|
        0 <= j < cfg.servers@.len() && listen_contains(#[trigger] cfg.servers@[j], addr)
            && names_contain(cfg.servers@[j], host));
    let w = first_name_match(cfg, addr, host);
    assert(0 <= w < cfg.servers@.len() && listen_contains(cfg.servers@[w], addr) && names_contain(
        cfg.servers@[w],
        host,
    ) && (forall|k: int|
        0 <= k < w ==> !(listen_contains(#[trigger] cfg.servers@[k], addr) && names_contain(
            cfg.servers@[k],
            host,
        )))) by {
        assert(0 <= i < cfg.servers@.len() && listen_contains(cfg.servers@[i], addr)
            && names_contain(cfg.servers@[i], host) && (forall|k: int|
            0 <= k < i ==> !(listen_contains(#[trigger] cfg.servers@[k], addr) && names_contain(
                cfg.servers@[k],
                host,
            ))));
    }
}

/// When nothing matches both and `i` is the first index matching the
/// address, the selection falls on `i`.
proof fn lemma_pick_listen_match(cfg: Config, addr: Addr, host: Seq<u8>, i: int)
    requires
        0 <= i < cfg.servers@.len(),
        listen_contains(cfg.servers@[i], addr),
        forall|k: int|
            0 <= k < cfg.servers@.len() ==> !(listen_contains(#[trigger] cfg.servers@[k], addr)
                && names_contain(cfg.servers@[k], host)),
        forall|k: int| 0 <= k < i ==> !listen_contains(#[trigger] cfg.servers@[k], addr),
    ensures
        spec_find_server(cfg, addr, host) == i,
{
    let w = first_listen_match(cfg, addr);
    assert(0 <= w < cfg.servers@.len() && listen_contains(cfg.servers@[w], addr) && (forall|k: int|
        0 <= k < w ==> !listen_contains(#[trigger] cfg.servers@[k], addr))) by {
        assert(0 <= i < cfg.servers@.len() && listen_contains(cfg.servers@[i], addr) && (forall|
            k: int,
        |
            0 <= k < i ==> !listen_contains(#[trigger] cfg.servers@[k], addr)));
    }
}

/// When no server matches the address, the selection falls on 0.
proof fn lemma_pick_default(cfg: Config, addr: Addr, host: Seq<u8>)
    requires
        forall|k: int|
            0 <= k < cfg.servers@.len() ==> !listen_contains(#[trigger] cfg.servers@[k], addr),
    ensures
        spec_find_server(cfg, addr, host) == 0,
{
}

impl Config {
    /// Selects the server for `(addr, Host header)` as
    /// `spec_find_server` prescribes.
    #[verifier::rlimit(100)]
    pub fn find_server(&self, addr: &Addr, host_header: Option<&String>) -> (r: &Server)
        requires
            self.servers@.len() > 0,
        ensures
            ({
                let host = match host_header {
                    Some(h) => bare_host(str_bytes(h@)),
                    None => str_bytes(""@),
                };
                let i = spec_find_server(*self, *addr, host);
                0 <= i < self.servers@.len() && r == &self.servers@[i]
            }),
    {
        let host: Vec<u8> = match host_header {
            Some(h) => {
                let hb = h.as_str().as_bytes();
                let mut colon: Vec<u8> = Vec::new();
                colon.push(58);
                assert(colon@ =~= seq![58u8]);
                match find_sub(hb, colon.as_slice()) {
                    Some(i) => vstd::slice::slice_to_vec(
                        vstd::slice::slice_subrange(hb, 0, i),
                    ),
                    None => vstd::slice::slice_to_vec(hb),
                }
            },
            None => {
                let v: Vec<u8> = Vec::new();
                proof {
                    vstd::utf8::encode_utf8_valid_utf8(""@);
                    reveal_strlit("");
                    assert(str_bytes(""@) =~= Seq::<u8>::empty());
                }
                v
            },
        };
        let ghost ghost_host = host@;
        proof {
            let spec_host = match host_header {
                Some(h) => bare_host(str_bytes(h@)),
                None => str_bytes(""@),
            };
            assert(ghost_host == spec_host);
        }
        let mut i: usize = 0;
        while i < self.servers.len()
            invariant
                0 <= i <= self.servers@.len(),
                host@ == ghost_host,
                ghost_host == (match host_header {
                    Some(h) => bare_host(str_bytes(h@)),
                    None => str_bytes(""@),
                }),
                forall|k: int|
                    0 <= k < i ==> !(listen_contains(#[trigger] self.servers@[k], *addr)
                        && names_contain(self.servers@[k], ghost_host)),
            decreases self.servers@.len() - i,
        {
            if self.servers[i].listens_on(addr) && self.servers[i].has_name(host.as_slice()) {
                proof {
                    lemma_pick_name_match(*self, *addr, ghost_host, i as int);
                }
                return &self.servers[i];
            }
            i += 1;
        }
        let mut i2: usize = 0;
        while i2 < self.servers.len()
            invariant
                0 <= i2 <= self.servers@.len(),
                host@ == ghost_host,
                ghost_host == (match host_header {
                    Some(h) => bare_host(str_bytes(h@)),
                    None => str_bytes(""@),
                }),
                forall|k: int|
                    0 <= k < self.servers@.len() ==> !(listen_contains(
                        #[trigger] self.servers@[k],
                        *addr,
                    ) && names_contain(self.servers@[k], ghost_host)),
                forall|k: int| 0 <= k < i2 ==> !listen_contains(#[trigger] self.servers@[k], *addr),
            decreases self.servers@.len() - i2,
        {
            if self.servers[i2].listens_on(addr) {
                proof {
                    lemma_pick_listen_match(*self, *addr, ghost_host, i2 as int);
                }
                return &self.servers[i2];
            }
            i2 += 1;
        }
        proof {
            lemma_pick_default(*self, *addr, ghost_host);
        }
        &self.servers[0]
    }
}

} // verus!
