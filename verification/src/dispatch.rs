//! Routing: which handler serves a parsed request, per the selected
//! server and its best-matching location.

use vstd::prelude::*;
use crate::config::ast::{Config, Server, Location, Addr, HttpMethod, spec_of_method};
use crate::config::ast::{spec_find_server, is_best_location, bare_host};
use crate::http::headers::hdr_lookup;
use crate::http::method::Method;
use crate::http::request::Request;
use crate::http::response::Response;
use crate::http::status::StatusCode;
use crate::search::{starts_with, spec_find};
use crate::text::str_bytes;

verus! {

/// What the dispatcher does with a routed request.
pub enum RoutePlan {
    /// Fail with this status, rendered against this root.
    Reject(StatusCode, String),
    /// Answer immediately with this response.
    Respond(Response),
    /// Start the configured CGI child under this root.
    RunCgi { root: String, extension: String, interpreter: String },
    /// Store an upload under this root.
    RunUpload { root: String },
    /// Delete under this root, relative to this location prefix.
    RunDelete { root: String, prefix: String },
    /// Serve a file or listing under this root.
    RunStatic {
        root: String,
        prefix: String,
        strip_prefix: bool,
        indices: Vec<String>,
        autoindex: bool,
    },
}

/// The ceiling the dispatcher parses under before a request's host
/// and location are known; the effective limit is enforced when the
/// request routes.
pub fn parse_body_ceiling() -> (r: usize)
    ensures
        r == 104857600,
{
    104857600
}

/// The fallback web root when the configuration names none.
pub open spec fn default_root() -> Seq<char> {
    "www"@
}

/// The absolute ceiling on request bodies when the configuration
/// names no limit.
pub open spec fn default_body_limit() -> u64 {
    20971520
}

/// The effective root text for a server and optional location.
pub open spec fn eff_root(srv: Server, loc: Option<Location>) -> Seq<char> {
    match loc {
        Some(l) => match l.root {
            Some(r) => r@,
            None => match srv.root {
                Some(r) => r@,
                None => default_root(),
            },
        },
        None => match srv.root {
            Some(r) => r@,
            None => default_root(),
        },
    }
}

/// The effective body limit for a server and optional location.
pub open spec fn eff_limit(srv: Server, loc: Option<Location>) -> u64 {
    match loc {
        Some(l) => match l.body_limit {
            Some(n) => n,
            None => match srv.client_max_body_size {
                Some(n) => n,
                None => default_body_limit(),
            },
        },
        None => match srv.client_max_body_size {
            Some(n) => n,
            None => default_body_limit(),
        },
    }
}

/// The location's declared methods admit the request method; no
/// declaration admits everything.
pub open spec fn method_admitted(loc: Option<Location>, m: Method) -> bool {
    match loc {
        Some(l) => match l.methods {
            Some(ms) => exists|i: int| 0 <= i < ms@.len() && ms@[i] == spec_of_method(m),
            None => true,
        },
        None => true,
    }
}

/// The request path before any query string.
pub open spec fn path_no_query(p: Seq<u8>) -> Seq<u8> {
    match spec_find(p, seq![63u8]) {
        Some(q) => p.take(q),
        None => p,
    }
}

/// How the dispatcher must route `req` against server `srv` and the
/// best location `loc`, in order: the body limit, the allowed
/// methods, a redirect, CGI, the upload path, deletion, and static
/// serving.
pub open spec fn plan_matches(srv: Server, loc: Option<Location>, req: Request, r: RoutePlan) -> bool {
    let root = eff_root(srv, loc);
    if req.body@.len() > eff_limit(srv, loc) {
        r matches RoutePlan::Reject(st, rt) && st == StatusCode::PayloadTooLarge && rt@ == root
    } else if !method_admitted(loc, req.method) {
        r matches RoutePlan::Reject(st, rt) && st == StatusCode::MethodNotAllowed && rt@ == root
    } else if loc matches Some(l) && l.redirect is Some {
        r matches RoutePlan::Respond(resp) && resp.status == StatusCode::MovedPermanently
            && hdr_lookup(resp.headers@, "Location"@) == Some(loc.unwrap().redirect.unwrap()@)
            && resp.body@.len() == 0
    } else if loc matches Some(l) && l.cgi is Some {
        r matches RoutePlan::RunCgi { root: rt, extension, interpreter } && rt@ == root
            && extension@ == loc.unwrap().cgi.unwrap().extension@ && interpreter@ == loc.unwrap()
            .cgi.unwrap().interpreter@
    } else if path_no_query(str_bytes(req.path@)) == str_bytes("/upload"@) {
        r matches RoutePlan::RunUpload { root: rt } && rt@ == root
    } else if req.method is Delete {
        r matches RoutePlan::RunDelete { root: rt, prefix } && rt@ == root && (match loc {
            Some(l) => prefix@ == l.path@,
            None => prefix@.len() == 0,
        })
    } else {
        r matches RoutePlan::RunStatic { root: rt, prefix, strip_prefix, indices, autoindex }
            && rt@ == root && (match loc {
            Some(l) => prefix@ == l.path@ && autoindex == (match l.autoindex {
                Some(b) => b,
                None => false,
            }),
            None => prefix@.len() == 0 && autoindex == false,
        }) && indices@.len() > 0
    }
}

/// The location argument is the request's best match in `srv`.
pub open spec fn loc_selected(srv: Server, path: Seq<u8>, loc: Option<Location>) -> bool {
    match loc {
        Some(l) => exists|b: int|
            0 <= b < srv.locations@.len() && l == srv.locations@[b] && is_best_location(
                srv,
                path,
                b,
            ),
        None => forall|i: int|
            0 <= i < srv.locations@.len() ==> !starts_with(
                path,
                str_bytes(#[trigger] srv.locations@[i].path@),
            ),
    }
}

/// The best location is unique: two selections agree.
pub proof fn lemma_loc_selected_unique(
    srv: Server,
    path: Seq<u8>,
    a: Option<Location>,
    b: Option<Location>,
)
    requires
        loc_selected(srv, path, a),
        loc_selected(srv, path, b),
    ensures
        a == b,
{
    match (a, b) {
        (Some(la), Some(lb)) => {
            let ba = choose|i: int|
                0 <= i < srv.locations@.len() && la == srv.locations@[i] && is_best_location(
                    srv,
                    path,
                    i,
                );
            let bb = choose|i: int|
                0 <= i < srv.locations@.len() && lb == srv.locations@[i] && is_best_location(
                    srv,
                    path,
                    i,
                );
            assert(starts_with(path, str_bytes(srv.locations@[ba].path@)));
            assert(starts_with(path, str_bytes(srv.locations@[bb].path@)));
            assert(ba == bb);
        },
        (Some(la), None) => {
            let ba = choose|i: int|
                0 <= i < srv.locations@.len() && la == srv.locations@[i] && is_best_location(
                    srv,
                    path,
                    i,
                );
            assert(starts_with(path, str_bytes(srv.locations@[ba].path@)));
        },
        (None, Some(lb)) => {
            let bb = choose|i: int|
                0 <= i < srv.locations@.len() && lb == srv.locations@[i] && is_best_location(
                    srv,
                    path,
                    i,
                );
            assert(starts_with(path, str_bytes(srv.locations@[bb].path@)));
        },
        (None, None) => {},
    }
}

/// Routes one request: selects the server by address and host, the
/// location by longest prefix, and the plan in the order
/// `plan_matches` prescribes.
#[verifier::rlimit(100)]
pub fn route(cfg: &Config, local: &Addr, req: &Request) -> (r: RoutePlan)
    requires
        cfg.servers@.len() > 0,
    ensures
        ({
            let host = match hdr_lookup(req.headers@, "Host"@) {
                Some(h) => bare_host(str_bytes(h)),
                None => str_bytes(""@),
            };
            let srv = cfg.servers@[spec_find_server(*cfg, *local, host)];
            forall|loc: Option<Location>|
                #[trigger] loc_selected(srv, str_bytes(req.path@), loc) ==> plan_matches(
                    srv,
                    loc,
                    *req,
                    r,
                )
        }),
{
    let srv = cfg.find_server(local, req.headers.get("Host"));
    let loc = srv.find_location(req.path.as_str());
    let ghost gloc: Option<Location> = match loc {
        Some(l) => Some(*l),
        None => None,
    };
    proof {
        assert(loc_selected(*srv, str_bytes(req.path@), gloc));
    }
    let root: String = match loc {
        Some(l) => match &l.root {
            Some(rt) => rt.clone(),
            None => match &srv.root {
                Some(rt) => rt.clone(),
                None => String::from_str("www"),
            },
        },
        None => match &srv.root {
            Some(rt) => rt.clone(),
            None => String::from_str("www"),
        },
    };
    assert(root@ == eff_root(*srv, gloc));
    let limit: u64 = match loc {
        Some(l) => match l.body_limit {
            Some(n) => n,
            None => match srv.client_max_body_size {
                Some(n) => n,
                None => 20971520,
            },
        },
        None => match srv.client_max_body_size {
            Some(n) => n,
            None => 20971520,
        },
    };
    assert(limit == eff_limit(*srv, gloc));
    if req.body.len() as u64 > limit {
        let plan = RoutePlan::Reject(StatusCode::PayloadTooLarge, root);
        proof {
            assert(plan_matches(*srv, gloc, *req, plan));
            assert forall|loc: Option<Location>|
                #[trigger] loc_selected(*srv, str_bytes(req.path@), loc) implies plan_matches(
                *srv,
                loc,
                *req,
                plan,
            ) by {
                lemma_loc_selected_unique(*srv, str_bytes(req.path@), loc, gloc);
            }
        }
        return plan;
    }
    let admitted: bool = match loc {
        Some(l) => match &l.methods {
            Some(ms) => {
                let want = crate::config::ast::HttpMethod::of_method(req.method);
                let mut found = false;
                let mut i: usize = 0;
                while i < ms.len()
                    invariant
                        0 <= i <= ms@.len(),
                        found == exists|k: int| 0 <= k < i && ms@[k] == want,
                        want == spec_of_method(req.method),
                    decreases ms@.len() - i,
                {
                    if matches!((ms[i], want), (HttpMethod::Get, HttpMethod::Get) | (
                        HttpMethod::Post,
                        HttpMethod::Post,
                    ) | (HttpMethod::Delete, HttpMethod::Delete)) {
                        found = true;
                        assert(ms@[i as int] == want);
                    }
                    i += 1;
                }
                found
            },
            None => true,
        },
        None => true,
    };
    assert(admitted == method_admitted(gloc, req.method));
    if !admitted {
        let plan = RoutePlan::Reject(StatusCode::MethodNotAllowed, root);
        proof {
            assert(plan_matches(*srv, gloc, *req, plan));
            assert forall|loc: Option<Location>|
                #[trigger] loc_selected(*srv, str_bytes(req.path@), loc) implies plan_matches(
                *srv,
                loc,
                *req,
                plan,
            ) by {
                lemma_loc_selected_unique(*srv, str_bytes(req.path@), loc, gloc);
            }
        }
        return plan;
    }
    match loc {
        Some(l) => {
            match &l.redirect {
                Some(target) => {
                    let mut resp = Response::new(StatusCode::MovedPermanently);
                    resp.headers.insert(String::from_str("Location"), target.clone());
                    proof {
                        crate::http::headers::lemma_hdr_insert_lookup(
                            Seq::empty(),
                            "Location"@,
                            target@,
                            "Location"@,
                        );
                    }
                    let plan = RoutePlan::Respond(resp);
                    proof {
                        assert(plan_matches(*srv, gloc, *req, plan));
            assert forall|loc: Option<Location>|
                #[trigger] loc_selected(*srv, str_bytes(req.path@), loc) implies plan_matches(
                *srv,
                loc,
                *req,
                plan,
            ) by {
                lemma_loc_selected_unique(*srv, str_bytes(req.path@), loc, gloc);
            }
                    }
                    return plan;
                },
                None => {},
            }
            match &l.cgi {
                Some(c) => {
                    let plan = RoutePlan::RunCgi {
                        root,
                        extension: c.extension.clone(),
                        interpreter: c.interpreter.clone(),
                    };
                    proof {
                        assert(plan_matches(*srv, gloc, *req, plan));
            assert forall|loc: Option<Location>|
                #[trigger] loc_selected(*srv, str_bytes(req.path@), loc) implies plan_matches(
                *srv,
                loc,
                *req,
                plan,
            ) by {
                lemma_loc_selected_unique(*srv, str_bytes(req.path@), loc, gloc);
            }
                    }
                    return plan;
                },
                None => {},
            }
        },
        None => {},
    }
    let is_upload = {
        let pb = req.path.as_str().as_bytes();
        let mut qm: Vec<u8> = Vec::new();
        qm.push(63);
        assert(qm@ =~= seq![63u8]);
        let pq: &[u8] = match crate::search::find_sub(pb, qm.as_slice()) {
            Some(q) => vstd::slice::slice_subrange(pb, 0, q),
            None => pb,
        };
        assert(pq@ == path_no_query(str_bytes(req.path@)));
        crate::search::bytes_eq(pq, "/upload".as_bytes())
    };
    if is_upload {
        let plan = RoutePlan::RunUpload { root };
        proof {
            assert(plan_matches(*srv, gloc, *req, plan));
            assert forall|loc: Option<Location>|
                #[trigger] loc_selected(*srv, str_bytes(req.path@), loc) implies plan_matches(
                *srv,
                loc,
                *req,
                plan,
            ) by {
                lemma_loc_selected_unique(*srv, str_bytes(req.path@), loc, gloc);
            }
        }
        return plan;
    }
    let prefix: String = match loc {
        Some(l) => l.path.clone(),
        None => String::new(),
    };
    proof {
        reveal_strlit("");
    }
    if matches!(req.method, Method::Delete) {
        let plan = RoutePlan::RunDelete { root, prefix };
        proof {
            assert(plan_matches(*srv, gloc, *req, plan));
            assert forall|loc: Option<Location>|
                #[trigger] loc_selected(*srv, str_bytes(req.path@), loc) implies plan_matches(
                *srv,
                loc,
                *req,
                plan,
            ) by {
                lemma_loc_selected_unique(*srv, str_bytes(req.path@), loc, gloc);
            }
        }
        return plan;
    }
    let mut indices: Vec<String> = Vec::new();
    match loc {
        Some(l) => match &l.default_file {
            Some(df) => indices.push(df.clone()),
            None => {},
        },
        None => {},
    }
    let mut si: usize = 0;
    while si < srv.index.len()
        invariant
            0 <= si <= srv.index@.len(),
        decreases srv.index@.len() - si,
    {
        indices.push(srv.index[si].clone());
        si += 1;
    }
    if indices.len() == 0 {
        indices.push(String::from_str("index.html"));
    }
    let autoindex: bool = match loc {
        Some(l) => match l.autoindex {
            Some(b) => b,
            None => false,
        },
        None => false,
    };
    let strip_prefix: bool = match loc {
        Some(l) => {
            match (&l.root, &srv.root) {
                (Some(lr), Some(sr)) => !crate::search::bytes_eq(
                    lr.as_str().as_bytes(),
                    sr.as_str().as_bytes(),
                ),
                (Some(_), None) => true,
                _ => false,
            }
        },
        None => false,
    };
    let plan = RoutePlan::RunStatic { root, prefix, strip_prefix, indices, autoindex };
    proof {
        assert(plan_matches(*srv, gloc, *req, plan));
    }
    plan
}

} // verus!
