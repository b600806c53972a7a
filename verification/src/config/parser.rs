//! The configuration text format: tokenizer and recursive-descent
//! parser.

use vstd::prelude::*;
use vstd::utf8::valid_utf8;
use crate::num::{all_dec_digits, dec_val};
use crate::search::{spec_find, lemma_spec_find};
use crate::text::{is_ws, lower_bytes, str_bytes};

verus! {

/// One lexical token of the configuration text.
pub enum Token {
    Ident(String),
    StringLit(String),
    Number(u64),
    LBrace,
    RBrace,
    Semi,
}

/// A token at the level of mathematical values; text as UTF-8 bytes.
pub enum SpecToken {
    Ident(Seq<u8>),
    Str(Seq<u8>),
    Num(u64),
    LB,
    RB,
    Semi,
}

/// The mathematical value of a token.
pub open spec fn tok_view(t: Token) -> SpecToken {
    match t {
        Token::Ident(s) => SpecToken::Ident(str_bytes(s@)),
        Token::StringLit(s) => SpecToken::Str(str_bytes(s@)),
        Token::Number(n) => SpecToken::Num(n),
        Token::LBrace => SpecToken::LB,
        Token::RBrace => SpecToken::RB,
        Token::Semi => SpecToken::Semi,
    }
}

/// A byte that ends a bare word: whitespace or structure.
pub open spec fn is_delim(b: u8) -> bool {
    is_ws(b) || b == 123 || b == 125 || b == 59
}

/// The longest delimiter-free prefix of `s`.
pub open spec fn take_word(s: Seq<u8>) -> Seq<u8>
    decreases s.len(),
{
    if s.len() > 0 && !is_delim(s[0]) {
        seq![s[0]] + take_word(s.drop_first())
    } else {
        Seq::empty()
    }
}

/// `s` without its longest delimiter-free prefix.
pub open spec fn after_word(s: Seq<u8>) -> Seq<u8>
    decreases s.len(),
{
    if s.len() > 0 && !is_delim(s[0]) {
        after_word(s.drop_first())
    } else {
        s
    }
}

proof fn lemma_word_len(s: Seq<u8>)
    ensures
        take_word(s).len() + after_word(s).len() == s.len(),
        after_word(s).len() <= s.len(),
        s.len() > 0 && !is_delim(s[0]) ==> after_word(s).len() < s.len(),
    decreases s.len(),
{
    if s.len() > 0 && !is_delim(s[0]) {
        lemma_word_len(s.drop_first());
    }
}

/// Outcome of tokenizing.
pub enum SpecTokens {
    Toks(Seq<SpecToken>),
    Fail(Seq<char>),
}

/// Prepends tokens to a tokenizing outcome.
pub open spec fn toks_prepend(ts: Seq<SpecToken>, o: SpecTokens) -> SpecTokens {
    match o {
        SpecTokens::Toks(us) => SpecTokens::Toks(ts + us),
        SpecTokens::Fail(e) => SpecTokens::Fail(e),
    }
}

/// The tokens of the configuration text `s`: braces, semicolons,
/// `#` comments to end of line, double-quoted strings, decimal
/// numbers, and bare words.
pub open spec fn spec_tokens(s: Seq<u8>) -> SpecTokens
    decreases s.len(),
    via spec_tokens_decreases
{
    if s.len() == 0 {
        SpecTokens::Toks(Seq::empty())
    } else {
        let b = s[0];
        if b == 123 {
            toks_prepend(seq![SpecToken::LB], spec_tokens(s.drop_first()))
        } else if b == 125 {
            toks_prepend(seq![SpecToken::RB], spec_tokens(s.drop_first()))
        } else if b == 59 {
            toks_prepend(seq![SpecToken::Semi], spec_tokens(s.drop_first()))
        } else if b == 35 {
            match spec_find(s, seq![10u8]) {
                Some(i) => spec_tokens(s.skip(i + 1)),
                None => SpecTokens::Toks(Seq::empty()),
            }
        } else if b == 34 {
            match spec_find(s.drop_first(), seq![34u8]) {
                Some(i) => {
                    let lit = s.drop_first().take(i);
                    if valid_utf8(lit) {
                        toks_prepend(seq![SpecToken::Str(lit)], spec_tokens(s.skip(i + 2)))
                    } else {
                        SpecTokens::Fail("invalid text in configuration"@)
                    }
                },
                None => SpecTokens::Fail("Unterminated string literal"@),
            }
        } else if is_ws(b) {
            spec_tokens(s.drop_first())
        } else {
            let w = take_word(s);
            let rest = after_word(s);
            if !valid_utf8(w) {
                SpecTokens::Fail("invalid text in configuration"@)
            } else if all_dec_digits(w) {
                if dec_val(w) <= u64::MAX {
                    toks_prepend(
                        seq![SpecToken::Num(dec_val(w) as u64)],
                        spec_tokens(rest),
                    )
                } else {
                    SpecTokens::Fail("Number out of range"@)
                }
            } else {
                toks_prepend(seq![SpecToken::Ident(w)], spec_tokens(rest))
            }
        }
    }
}

#[via_fn]
proof fn spec_tokens_decreases(s: Seq<u8>) {
    if s.len() > 0 {
        lemma_spec_find(s, seq![10u8]);
        lemma_spec_find(s.drop_first(), seq![34u8]);
        lemma_word_len(s);
    }
}

/// A location block, at the level of mathematical values; text as
/// UTF-8 bytes.
pub struct SpecLocation {
    pub path: Seq<u8>,
    pub root: Option<Seq<u8>>,
    pub methods: Option<Seq<crate::config::ast::HttpMethod>>,
    pub redirect: Option<Seq<u8>>,
    pub autoindex: Option<bool>,
    pub default_file: Option<Seq<u8>>,
    pub cgi: Option<(Seq<u8>, Seq<u8>)>,
    pub body_limit: Option<u64>,
}

/// A server block, at the level of mathematical values.
pub struct SpecServer {
    pub listen: Seq<(Seq<u8>, u16)>,
    pub server_names: Seq<Seq<u8>>,
    pub root: Option<Seq<u8>>,
    pub index: Seq<Seq<u8>>,
    pub errors: Seq<(u16, Seq<u8>)>,
    pub client_max_body_size: Option<u64>,
    pub keep_alive_timeout: Option<u64>,
    pub locations: Seq<SpecLocation>,
}

/// The empty location block with the given prefix.
pub open spec fn empty_loc(path: Seq<u8>) -> SpecLocation {
    SpecLocation {
        path,
        root: None,
        methods: None,
        redirect: None,
        autoindex: None,
        default_file: None,
        cgi: None,
        body_limit: None,
    }
}

/// The empty server block.
pub open spec fn empty_srv() -> SpecServer {
    SpecServer {
        listen: Seq::empty(),
        server_names: Seq::empty(),
        root: None,
        index: Seq::empty(),
        errors: Seq::empty(),
        client_max_body_size: None,
        keep_alive_timeout: None,
        locations: Seq::empty(),
    }
}

/// Index of the last occurrence of `b` in `s`.
pub open spec fn rfind_byte(s: Seq<u8>, b: u8) -> Option<int>
    decreases s.len(),
{
    if s.len() == 0 {
        None
    } else if s.last() == b {
        Some(s.len() - 1)
    } else {
        rfind_byte(s.drop_last(), b)
    }
}

/// One dotted group of an address: one to three digits, value at
/// most 255, no leading zero.
pub open spec fn ipv4_group_ok(g: Seq<u8>) -> bool {
    1 <= g.len() <= 3 && all_dec_digits(g) && dec_val(g) <= 255 && (g.len() == 1 || g[0] != 48)
}

/// `s` is `groups` dot-separated address groups.
pub open spec fn is_ipv4_from(s: Seq<u8>, groups: int) -> bool
    decreases groups,
{
    if groups <= 1 {
        ipv4_group_ok(s)
    } else {
        match spec_find(s, seq![46u8]) {
            Some(d) => ipv4_group_ok(s.take(d)) && is_ipv4_from(s.skip(d + 1), groups - 1),
            None => false,
        }
    }
}

/// A dotted-quad address text.
pub open spec fn is_ipv4_text(s: Seq<u8>) -> bool {
    is_ipv4_from(s, 4)
}

/// A byte that may stand inside a bracketed address.
pub open spec fn is_v6_byte(b: u8) -> bool {
    crate::num::is_hex_digit(b) || b == 58 || b == 46
}

/// A bracketed address text: brackets around hexadecimal digits,
/// colons and dots, with at least one colon. The shape is checked
/// syntactically; binding validates the address itself.
pub open spec fn is_bracketed_text(s: Seq<u8>) -> bool {
    &&& s.len() >= 3
    &&& s[0] == 91
    &&& s.last() == 93
    &&& forall|i: int| 1 <= i < s.len() - 1 ==> is_v6_byte(#[trigger] s[i])
    &&& exists|i: int| 1 <= i < s.len() - 1 && s[i] == 58
}

/// A host text a listen directive accepts: a dotted quad or a
/// bracketed address.
pub open spec fn host_text_ok(h: Seq<u8>) -> bool {
    is_ipv4_text(h) || is_bracketed_text(h)
}

/// A listen address from its text: a bare port means every interface;
/// otherwise the text splits at its last colon into an address host
/// and a port, and a name that is no address is refused.
pub open spec fn spec_parse_addr(s: Seq<u8>) -> Option<(Seq<u8>, u16)> {
    if s.len() > 0 && all_dec_digits(s) && dec_val(s) <= 65535 {
        Some((str_bytes("0.0.0.0"@), dec_val(s) as u16))
    } else {
        match rfind_byte(s, 58) {
            Some(i) => {
                let port = s.skip(i + 1);
                if i > 0 && port.len() > 0 && all_dec_digits(port) && dec_val(port) <= 65535
                    && host_text_ok(s.take(i)) && valid_utf8(s.take(i)) {
                    Some((s.take(i), dec_val(port) as u16))
                } else {
                    None
                }
            },
            None => None,
        }
    }
}

/// A path from the configuration: absolute as written, otherwise
/// resolved under the base directory.
pub open spec fn spec_resolve_path(base: Seq<u8>, p: Seq<u8>) -> Seq<u8> {
    if p.len() > 0 && p[0] == 47 {
        p
    } else {
        base + seq![47u8] + p
    }
}

/// The method named by a word, up to ASCII case.
pub open spec fn spec_method_word(w: Seq<u8>) -> Option<crate::config::ast::HttpMethod> {
    if lower_bytes(w) == lower_bytes(str_bytes("GET"@)) {
        Some(crate::config::ast::HttpMethod::Get)
    } else if lower_bytes(w) == lower_bytes(str_bytes("POST"@)) {
        Some(crate::config::ast::HttpMethod::Post)
    } else if lower_bytes(w) == lower_bytes(str_bytes("DELETE"@)) {
        Some(crate::config::ast::HttpMethod::Delete)
    } else {
        None
    }
}

/// Outcome of a word list (`server_name`, `index`).
pub enum WordsOut {
    Fail(Seq<char>),
    Done(Seq<Seq<u8>>, int),
}

/// Words or strings up to the closing semicolon, which is consumed.
pub open spec fn spec_words(ts: Seq<SpecToken>, pos: int, acc: Seq<Seq<u8>>) -> WordsOut
    decreases ts.len() - pos,
{
    if !(0 <= pos < ts.len()) {
        WordsOut::Fail("Unexpected EOF"@)
    } else {
        match ts[pos] {
            SpecToken::Semi => WordsOut::Done(acc, pos + 1),
            SpecToken::Ident(w) => spec_words(ts, pos + 1, acc.push(w)),
            SpecToken::Str(w) => spec_words(ts, pos + 1, acc.push(w)),
            _ => WordsOut::Fail("unexpected token in word list"@),
        }
    }
}

/// Outcome of a `methods` list.
pub enum MethodsOut {
    Fail(Seq<char>),
    Done(Seq<crate::config::ast::HttpMethod>, int),
}

/// Method names up to the closing semicolon, which is consumed.
pub open spec fn spec_methods(
    ts: Seq<SpecToken>,
    pos: int,
    acc: Seq<crate::config::ast::HttpMethod>,
) -> MethodsOut
    decreases ts.len() - pos,
{
    if !(0 <= pos < ts.len()) {
        MethodsOut::Fail("Unexpected EOF"@)
    } else {
        match ts[pos] {
            SpecToken::Semi => MethodsOut::Done(acc, pos + 1),
            SpecToken::Ident(w) => match spec_method_word(w) {
                Some(m) => spec_methods(ts, pos + 1, acc.push(m)),
                None => MethodsOut::Fail("Unsupported method"@),
            },
            _ => MethodsOut::Fail("unexpected token in methods"@),
        }
    }
}

/// Outcome of a location block.
pub enum LocOut {
    Fail(Seq<char>),
    Done(SpecLocation, int),
}

/// The text of a name-or-string token, if `pos` holds one.
pub open spec fn stringish_at(ts: Seq<SpecToken>, pos: int) -> Option<Seq<u8>> {
    if 0 <= pos < ts.len() {
        match ts[pos] {
            SpecToken::Ident(w) => Some(w),
            SpecToken::Str(w) => Some(w),
            _ => None,
        }
    } else {
        None
    }
}

/// `pos` holds a semicolon.
pub open spec fn semi_at(ts: Seq<SpecToken>, pos: int) -> bool {
    0 <= pos < ts.len() && ts[pos] is Semi
}

/// The directives of a location block after its opening brace, folded
/// into `acc`, ending at the closing brace.
pub open spec fn spec_location_body(
    ts: Seq<SpecToken>,
    pos: int,
    base: Seq<u8>,
    acc: SpecLocation,
) -> LocOut
    decreases ts.len() - pos, 0int,
    via spec_location_body_decreases
{
    if !(0 <= pos < ts.len()) {
        LocOut::Fail("Unexpected EOF in location block"@)
    } else {
        match ts[pos] {
            SpecToken::RB => LocOut::Done(acc, pos + 1),
            SpecToken::Ident(w) => {
                if w == str_bytes("root"@) {
                    match stringish_at(ts, pos + 1) {
                        Some(p) => {
                            if semi_at(ts, pos + 2) {
                                spec_location_body(
                                    ts,
                                    pos + 3,
                                    base,
                                    SpecLocation { root: Some(spec_resolve_path(base, p)), ..acc },
                                )
                            } else {
                                LocOut::Fail("Expected semicolon"@)
                            }
                        },
                        None => LocOut::Fail("Expected string"@),
                    }
                } else if w == str_bytes("methods"@) {
                    match spec_methods(ts, pos + 1, Seq::empty()) {
                        MethodsOut::Done(ms, p2) => spec_location_body(
                            ts,
                            p2,
                            base,
                            SpecLocation { methods: Some(ms), ..acc },
                        ),
                        MethodsOut::Fail(e) => LocOut::Fail(e),
                    }
                } else if w == str_bytes("redirect"@) {
                    match stringish_at(ts, pos + 1) {
                        Some(p) => {
                            if semi_at(ts, pos + 2) {
                                spec_location_body(
                                    ts,
                                    pos + 3,
                                    base,
                                    SpecLocation { redirect: Some(p), ..acc },
                                )
                            } else {
                                LocOut::Fail("Expected semicolon"@)
                            }
                        },
                        None => LocOut::Fail("Expected string"@),
                    }
                } else if w == str_bytes("autoindex"@) {
                    match stringish_at(ts, pos + 1) {
                        Some(v) => {
                            if 0 <= pos + 1 < ts.len() && ts[pos + 1] is Ident && (lower_bytes(v)
                                == lower_bytes(str_bytes("on"@)) || lower_bytes(v) == lower_bytes(
                                str_bytes("off"@),
                            )) {
                                if semi_at(ts, pos + 2) {
                                    spec_location_body(
                                        ts,
                                        pos + 3,
                                        base,
                                        SpecLocation {
                                            autoindex: Some(
                                                lower_bytes(v) == lower_bytes(str_bytes("on"@)),
                                            ),
                                            ..acc
                                        },
                                    )
                                } else {
                                    LocOut::Fail("Expected semicolon"@)
                                }
                            } else {
                                LocOut::Fail("autoindex expects on|off"@)
                            }
                        },
                        None => LocOut::Fail("autoindex expects on|off"@),
                    }
                } else if w == str_bytes("default_file"@) {
                    match stringish_at(ts, pos + 1) {
                        Some(p) => {
                            if semi_at(ts, pos + 2) {
                                spec_location_body(
                                    ts,
                                    pos + 3,
                                    base,
                                    SpecLocation { default_file: Some(p), ..acc },
                                )
                            } else {
                                LocOut::Fail("Expected semicolon"@)
                            }
                        },
                        None => LocOut::Fail("Expected string"@),
                    }
                } else if w == str_bytes("cgi"@) {
                    match (stringish_at(ts, pos + 1), stringish_at(ts, pos + 2)) {
                        (Some(ext), Some(interp)) => {
                            if semi_at(ts, pos + 3) {
                                spec_location_body(
                                    ts,
                                    pos + 4,
                                    base,
                                    SpecLocation { cgi: Some((ext, interp)), ..acc },
                                )
                            } else {
                                LocOut::Fail("Expected semicolon"@)
                            }
                        },
                        _ => LocOut::Fail("Expected string"@),
                    }
                } else if w == str_bytes("body_limit"@) {
                    if 0 <= pos + 1 < ts.len() && ts[pos + 1] is Num {
                        if semi_at(ts, pos + 2) {
                            spec_location_body(
                                ts,
                                pos + 3,
                                base,
                                SpecLocation { body_limit: Some(ts[pos + 1]->Num_0), ..acc },
                            )
                        } else {
                            LocOut::Fail("Expected semicolon"@)
                        }
                    } else {
                        LocOut::Fail("Expected number"@)
                    }
                } else {
                    LocOut::Fail("Unknown directive in location"@)
                }
            },
            _ => LocOut::Fail("Unknown directive in location"@),
        }
    }
}

/// `spec_words` consumes at least one token and stays in bounds.
proof fn lemma_words_advances(ts: Seq<SpecToken>, pos: int, acc: Seq<Seq<u8>>)
    ensures
        spec_words(ts, pos, acc) matches WordsOut::Done(_, p2) ==> pos < p2 <= ts.len(),
    decreases ts.len() - pos,
{
    if 0 <= pos < ts.len() {
        match ts[pos] {
            SpecToken::Ident(w) => lemma_words_advances(ts, pos + 1, acc.push(w)),
            SpecToken::Str(w) => lemma_words_advances(ts, pos + 1, acc.push(w)),
            _ => {},
        }
    }
}

/// `spec_methods` consumes at least one token and stays in bounds.
proof fn lemma_methods_advances(
    ts: Seq<SpecToken>,
    pos: int,
    acc: Seq<crate::config::ast::HttpMethod>,
)
    ensures
        spec_methods(ts, pos, acc) matches MethodsOut::Done(_, p2) ==> pos < p2 <= ts.len(),
    decreases ts.len() - pos,
{
    if 0 <= pos < ts.len() {
        match ts[pos] {
            SpecToken::Ident(w) => match spec_method_word(w) {
                Some(m) => lemma_methods_advances(ts, pos + 1, acc.push(m)),
                None => {},
            },
            _ => {},
        }
    }
}

#[via_fn]
proof fn spec_location_body_decreases(ts: Seq<SpecToken>, pos: int, base: Seq<u8>, acc: SpecLocation) {
    if 0 <= pos < ts.len() {
        lemma_methods_advances(ts, pos + 1, Seq::empty());
    }
}

/// `spec_location_body` ends past its starting point and in bounds.
proof fn lemma_location_advances(ts: Seq<SpecToken>, pos: int, base: Seq<u8>, acc: SpecLocation)
    ensures
        spec_location_body(ts, pos, base, acc) matches LocOut::Done(_, p2) ==> pos < p2 <= ts.len(),
    decreases ts.len() - pos,
{
    if 0 <= pos < ts.len() {
        match ts[pos] {
            SpecToken::Ident(w) => {
                lemma_methods_advances(ts, pos + 1, Seq::empty());
                match spec_methods(ts, pos + 1, Seq::empty()) {
                    MethodsOut::Done(ms, p2) => {
                        lemma_location_advances(
                            ts,
                            p2,
                            base,
                            SpecLocation { methods: Some(ms), ..acc },
                        );
                    },
                    MethodsOut::Fail(_) => {},
                }
                match stringish_at(ts, pos + 1) {
                    Some(p) => {
                        if pos + 3 <= ts.len() {
                            lemma_location_advances(
                                ts,
                                pos + 3,
                                base,
                                SpecLocation { root: Some(spec_resolve_path(base, p)), ..acc },
                            );
                            lemma_location_advances(
                                ts,
                                pos + 3,
                                base,
                                SpecLocation { redirect: Some(p), ..acc },
                            );
                            lemma_location_advances(
                                ts,
                                pos + 3,
                                base,
                                SpecLocation { default_file: Some(p), ..acc },
                            );
                            lemma_location_advances(
                                ts,
                                pos + 3,
                                base,
                                SpecLocation {
                                    autoindex: Some(
                                        lower_bytes(p) == lower_bytes(str_bytes("on"@)),
                                    ),
                                    ..acc
                                },
                            );
                        }
                        match stringish_at(ts, pos + 2) {
                            Some(interp) => {
                                if pos + 4 <= ts.len() {
                                    lemma_location_advances(
                                        ts,
                                        pos + 4,
                                        base,
                                        SpecLocation { cgi: Some((p, interp)), ..acc },
                                    );
                                }
                            },
                            None => {},
                        }
                    },
                    None => {},
                }
                if 0 <= pos + 1 < ts.len() && ts[pos + 1] is Num && pos + 3 <= ts.len() {
                    lemma_location_advances(
                        ts,
                        pos + 3,
                        base,
                        SpecLocation { body_limit: Some(ts[pos + 1]->Num_0), ..acc },
                    );
                }
            },
            _ => {},
        }
    }
}

/// Outcome of a server block.
pub enum SrvOut {
    Fail(Seq<char>),
    Done(SpecServer, int),
}

/// The directives of a server block after its opening brace, folded
/// into `acc`, ending at the closing brace. A location without its own
/// root inherits the server root seen so far.
pub open spec fn spec_server_body(
    ts: Seq<SpecToken>,
    pos: int,
    base: Seq<u8>,
    acc: SpecServer,
) -> SrvOut
    decreases ts.len() - pos, 1int,
    via spec_server_body_decreases
{
    if !(0 <= pos < ts.len()) {
        SrvOut::Fail("Unexpected EOF in server block"@)
    } else {
        match ts[pos] {
            SpecToken::RB => SrvOut::Done(acc, pos + 1),
            SpecToken::Ident(w) => {
                if w == str_bytes("listen"@) {
                    if !(0 <= pos + 1 < ts.len()) {
                        SrvOut::Fail("Expected listen address"@)
                    } else {
                        match ts[pos + 1] {
                            SpecToken::Ident(s) => match spec_parse_addr(s) {
                                Some(a) => {
                                    if semi_at(ts, pos + 2) {
                                        spec_server_body(
                                            ts,
                                            pos + 3,
                                            base,
                                            SpecServer { listen: acc.listen.push(a), ..acc },
                                        )
                                    } else {
                                        SrvOut::Fail("Expected semicolon"@)
                                    }
                                },
                                None => SrvOut::Fail(
                                    "Invalid listen address: "@ + vstd::utf8::decode_utf8(s),
                                ),
                            },
                            SpecToken::Str(s) => match spec_parse_addr(s) {
                                Some(a) => {
                                    if semi_at(ts, pos + 2) {
                                        spec_server_body(
                                            ts,
                                            pos + 3,
                                            base,
                                            SpecServer { listen: acc.listen.push(a), ..acc },
                                        )
                                    } else {
                                        SrvOut::Fail("Expected semicolon"@)
                                    }
                                },
                                None => SrvOut::Fail(
                                    "Invalid listen address: "@ + vstd::utf8::decode_utf8(s),
                                ),
                            },
                            SpecToken::Num(n) => {
                                if n <= 65535 {
                                    if semi_at(ts, pos + 2) {
                                        spec_server_body(
                                            ts,
                                            pos + 3,
                                            base,
                                            SpecServer {
                                                listen: acc.listen.push(
                                                    (str_bytes("0.0.0.0"@), n as u16),
                                                ),
                                                ..acc
                                            },
                                        )
                                    } else {
                                        SrvOut::Fail("Expected semicolon"@)
                                    }
                                } else {
                                    SrvOut::Fail(
                                        "Invalid listen address: 0.0.0.0:"@ + crate::num::dec_chars(
                                            n as nat,
                                        ),
                                    )
                                }
                            },
                            _ => SrvOut::Fail("Expected listen address"@),
                        }
                    }
                } else if w == str_bytes("server_name"@) {
                    match spec_words(ts, pos + 1, Seq::empty()) {
                        WordsOut::Done(ws, p2) => spec_server_body(
                            ts,
                            p2,
                            base,
                            SpecServer { server_names: acc.server_names + ws, ..acc },
                        ),
                        WordsOut::Fail(e) => SrvOut::Fail(e),
                    }
                } else if w == str_bytes("root"@) {
                    match stringish_at(ts, pos + 1) {
                        Some(p) => {
                            if semi_at(ts, pos + 2) {
                                spec_server_body(
                                    ts,
                                    pos + 3,
                                    base,
                                    SpecServer { root: Some(spec_resolve_path(base, p)), ..acc },
                                )
                            } else {
                                SrvOut::Fail("Expected semicolon"@)
                            }
                        },
                        None => SrvOut::Fail("Expected string"@),
                    }
                } else if w == str_bytes("index"@) {
                    match spec_words(ts, pos + 1, Seq::empty()) {
                        WordsOut::Done(ws, p2) => spec_server_body(
                            ts,
                            p2,
                            base,
                            SpecServer { index: acc.index + ws, ..acc },
                        ),
                        WordsOut::Fail(e) => SrvOut::Fail(e),
                    }
                } else if w == str_bytes("error_page"@) {
                    if 0 <= pos + 1 < ts.len() && ts[pos + 1] is Num {
                        if ts[pos + 1]->Num_0 <= u16::MAX {
                            match stringish_at(ts, pos + 2) {
                                Some(p) => {
                                    if semi_at(ts, pos + 3) {
                                        spec_server_body(
                                            ts,
                                            pos + 4,
                                            base,
                                            SpecServer {
                                                errors: acc.errors.push(
                                                    (ts[pos + 1]->Num_0 as u16, p),
                                                ),
                                                ..acc
                                            },
                                        )
                                    } else {
                                        SrvOut::Fail("Expected semicolon"@)
                                    }
                                },
                                None => SrvOut::Fail("Expected string"@),
                            }
                        } else {
                            SrvOut::Fail("Number out of range for u16"@)
                        }
                    } else {
                        SrvOut::Fail("Expected number"@)
                    }
                } else if w == str_bytes("location"@) {
                    match stringish_at(ts, pos + 1) {
                        Some(p) => {
                            if 0 <= pos + 2 < ts.len() && ts[pos + 2] is LB {
                                match spec_location_body(ts, pos + 3, base, empty_loc(p)) {
                                    LocOut::Done(loc, p2) => {
                                        let loc2 = if loc.root is None {
                                            SpecLocation { root: acc.root, ..loc }
                                        } else {
                                            loc
                                        };
                                        spec_server_body(
                                            ts,
                                            p2,
                                            base,
                                            SpecServer {
                                                locations: acc.locations.push(loc2),
                                                ..acc
                                            },
                                        )
                                    },
                                    LocOut::Fail(e) => SrvOut::Fail(e),
                                }
                            } else {
                                SrvOut::Fail("Expected brace"@)
                            }
                        },
                        None => SrvOut::Fail("Expected string"@),
                    }
                } else if w == str_bytes("client_max_body_size"@) {
                    if 0 <= pos + 1 < ts.len() && ts[pos + 1] is Num {
                        if semi_at(ts, pos + 2) {
                            spec_server_body(
                                ts,
                                pos + 3,
                                base,
                                SpecServer {
                                    client_max_body_size: Some(ts[pos + 1]->Num_0),
                                    ..acc
                                },
                            )
                        } else {
                            SrvOut::Fail("Expected semicolon"@)
                        }
                    } else {
                        SrvOut::Fail("Expected number"@)
                    }
                } else if w == str_bytes("keep_alive_timeout"@) {
                    if 0 <= pos + 1 < ts.len() && ts[pos + 1] is Num {
                        if semi_at(ts, pos + 2) {
                            spec_server_body(
                                ts,
                                pos + 3,
                                base,
                                SpecServer {
                                    keep_alive_timeout: Some(ts[pos + 1]->Num_0),
                                    ..acc
                                },
                            )
                        } else {
                            SrvOut::Fail("Expected semicolon"@)
                        }
                    } else {
                        SrvOut::Fail("Expected number"@)
                    }
                } else {
                    SrvOut::Fail("Unknown directive in server"@)
                }
            },
            _ => SrvOut::Fail("Unknown directive in server"@),
        }
    }
}

#[via_fn]
proof fn spec_server_body_decreases(ts: Seq<SpecToken>, pos: int, base: Seq<u8>, acc: SpecServer) {
    if 0 <= pos < ts.len() {
        lemma_words_advances(ts, pos + 1, Seq::empty());
        if ts[pos] matches SpecToken::Ident(w) && w == str_bytes("location"@) {
            match stringish_at(ts, pos + 1) {
                Some(p) => {
                    lemma_location_advances(ts, pos + 3, base, empty_loc(p));
                },
                None => {},
            }
        }
    }
}

/// Outcome of the whole token stream.
pub enum CfgOut {
    Fail(Seq<char>),
    Done(Seq<SpecServer>),
}

/// `spec_server_body` ends past its starting point and in bounds.
proof fn lemma_server_advances(ts: Seq<SpecToken>, pos: int, base: Seq<u8>, acc: SpecServer)
    ensures
        spec_server_body(ts, pos, base, acc) matches SrvOut::Done(_, p2) ==> pos < p2 <= ts.len(),
    decreases ts.len() - pos,
{
    if 0 <= pos < ts.len() {
        match ts[pos] {
            SpecToken::Ident(w) => {
                lemma_words_advances(ts, pos + 1, Seq::empty());
                match spec_words(ts, pos + 1, Seq::empty()) {
                    WordsOut::Done(ws, p2) => {
                        lemma_server_advances(
                            ts,
                            p2,
                            base,
                            SpecServer { server_names: acc.server_names + ws, ..acc },
                        );
                        lemma_server_advances(
                            ts,
                            p2,
                            base,
                            SpecServer { index: acc.index + ws, ..acc },
                        );
                    },
                    WordsOut::Fail(_) => {},
                }
                if pos + 3 <= ts.len() {
                    if 0 <= pos + 1 < ts.len() {
                        match ts[pos + 1] {
                            SpecToken::Ident(s) => {
                                match spec_parse_addr(s) {
                                    Some(a) => {
                                        lemma_server_advances(
                                            ts,
                                            pos + 3,
                                            base,
                                            SpecServer { listen: acc.listen.push(a), ..acc },
                                        );
                                    },
                                    None => {},
                                }
                            },
                            SpecToken::Str(s) => {
                                match spec_parse_addr(s) {
                                    Some(a) => {
                                        lemma_server_advances(
                                            ts,
                                            pos + 3,
                                            base,
                                            SpecServer { listen: acc.listen.push(a), ..acc },
                                        );
                                    },
                                    None => {},
                                }
                            },
                            SpecToken::Num(n) => {
                                if n <= 65535 {
                                    lemma_server_advances(
                                        ts,
                                        pos + 3,
                                        base,
                                        SpecServer {
                                            listen: acc.listen.push(
                                                (str_bytes("0.0.0.0"@), n as u16),
                                            ),
                                            ..acc
                                        },
                                    );
                                }
                                lemma_server_advances(
                                    ts,
                                    pos + 3,
                                    base,
                                    SpecServer {
                                        client_max_body_size: Some(n),
                                        ..acc
                                    },
                                );
                                lemma_server_advances(
                                    ts,
                                    pos + 3,
                                    base,
                                    SpecServer {
                                        keep_alive_timeout: Some(n),
                                        ..acc
                                    },
                                );
                            },
                            _ => {},
                        }
                    }
                    match stringish_at(ts, pos + 1) {
                        Some(p) => {
                            lemma_server_advances(
                                ts,
                                pos + 3,
                                base,
                                SpecServer { root: Some(spec_resolve_path(base, p)), ..acc },
                            );
                        },
                        None => {},
                    }
                }
                if pos + 4 <= ts.len() && 0 <= pos + 1 < ts.len() && ts[pos + 1] is Num {
                    match stringish_at(ts, pos + 2) {
                        Some(p) => {
                            lemma_server_advances(
                                ts,
                                pos + 4,
                                base,
                                SpecServer {
                                    errors: acc.errors.push((ts[pos + 1]->Num_0 as u16, p)),
                                    ..acc
                                },
                            );
                        },
                        None => {},
                    }
                }
                match stringish_at(ts, pos + 1) {
                    Some(p) => {
                        lemma_location_advances(ts, pos + 3, base, empty_loc(p));
                        match spec_location_body(ts, pos + 3, base, empty_loc(p)) {
                            LocOut::Done(loc, p2) => {
                                let loc2 = if loc.root is None {
                                    SpecLocation { root: acc.root, ..loc }
                                } else {
                                    loc
                                };
                                lemma_server_advances(
                                    ts,
                                    p2,
                                    base,
                                    SpecServer { locations: acc.locations.push(loc2), ..acc },
                                );
                            },
                            LocOut::Fail(_) => {},
                        }
                    },
                    None => {},
                }
            },
            _ => {},
        }
    }
}

/// Server blocks at the top level until the tokens run out.
pub open spec fn spec_config_toks(
    ts: Seq<SpecToken>,
    pos: int,
    base: Seq<u8>,
    acc: Seq<SpecServer>,
) -> CfgOut
    decreases ts.len() - pos, 3int,
    via spec_config_toks_decreases
{
    if !(0 <= pos < ts.len()) {
        CfgOut::Done(acc)
    } else {
        match ts[pos] {
            SpecToken::Ident(w) => {
                if w == str_bytes("server"@) {
                    if 0 <= pos + 1 < ts.len() && ts[pos + 1] is LB {
                        match spec_server_body(ts, pos + 2, base, empty_srv()) {
                            SrvOut::Done(srv, p2) => spec_config_toks(ts, p2, base, acc.push(srv)),
                            SrvOut::Fail(e) => CfgOut::Fail(e),
                        }
                    } else {
                        CfgOut::Fail("Expected brace"@)
                    }
                } else {
                    CfgOut::Fail("Unexpected token at top-level"@)
                }
            },
            _ => CfgOut::Fail("Unexpected token at top-level"@),
        }
    }
}

#[via_fn]
proof fn spec_config_toks_decreases(ts: Seq<SpecToken>, pos: int, base: Seq<u8>, acc: Seq<SpecServer>) {
    if 0 <= pos < ts.len() {
        lemma_server_advances(ts, pos + 2, base, empty_srv());
    }
}

/// Outcome of parsing a whole configuration text.
pub enum SpecConfig {
    Fail(Seq<char>),
    Done(Seq<SpecServer>),
}

/// The first server without a listen address, from `i` on, named in
/// its error message.
pub open spec fn check_listens(ss: Seq<SpecServer>, i: int) -> Option<Seq<char>>
    decreases ss.len() - i,
{
    if !(0 <= i < ss.len()) {
        None
    } else if ss[i].listen.len() == 0 {
        Some("Server #"@ + crate::num::dec_chars(i as nat) + " missing listen directive"@)
    } else {
        check_listens(ss, i + 1)
    }
}

/// What `parse_config` must produce from the text and base directory:
/// the tokenized server blocks, with at least one server and a listen
/// address on each.
pub open spec fn spec_parse_config(input: Seq<u8>, base: Seq<u8>) -> SpecConfig {
    match spec_tokens(input) {
        SpecTokens::Fail(e) => SpecConfig::Fail(e),
        SpecTokens::Toks(ts) => match spec_config_toks(ts, 0, base, Seq::empty()) {
            CfgOut::Fail(e) => SpecConfig::Fail(e),
            CfgOut::Done(ss) => {
                if ss.len() == 0 {
                    SpecConfig::Fail("No servers defined"@)
                } else {
                    match check_listens(ss, 0) {
                        Some(m) => SpecConfig::Fail(m),
                        None => SpecConfig::Done(ss),
                    }
                }
            },
        },
    }
}

/// An optional string realizes optional bytes.
pub open spec fn opt_str_models(a: Option<String>, b: Option<Seq<u8>>) -> bool {
    match (a, b) {
        (Some(x), Some(y)) => str_bytes(x@) == y,
        (None, None) => true,
        _ => false,
    }
}

/// A location realizes its mathematical value.
pub open spec fn loc_models(l: crate::config::ast::Location, s: SpecLocation) -> bool {
    &&& str_bytes(l.path@) == s.path
    &&& opt_str_models(l.root, s.root)
    &&& match (l.methods, s.methods) {
        (Some(v), Some(q)) => v@ == q,
        (None, None) => true,
        _ => false,
    }
    &&& opt_str_models(l.redirect, s.redirect)
    &&& l.autoindex == s.autoindex
    &&& opt_str_models(l.default_file, s.default_file)
    &&& match (l.cgi, s.cgi) {
        (Some(c), Some(p)) => str_bytes(c.extension@) == p.0 && str_bytes(c.interpreter@) == p.1,
        (None, None) => true,
        _ => false,
    }
    &&& l.body_limit == s.body_limit
}

/// A server realizes its mathematical value.
pub open spec fn server_models(v: crate::config::ast::Server, s: SpecServer) -> bool {
    &&& v.listen@.len() == s.listen.len()
    &&& forall|j: int|
        0 <= j < s.listen.len() ==> str_bytes(#[trigger] v.listen@[j].host@) == s.listen[j].0
            && v.listen@[j].port == s.listen[j].1
    &&& v.server_names@.map_values(|x: String| str_bytes(x@)) == s.server_names
    &&& opt_str_models(v.root, s.root)
    &&& v.index@.map_values(|x: String| str_bytes(x@)) == s.index
    &&& v.errors@.len() == s.errors.len()
    &&& forall|j: int|
        0 <= j < s.errors.len() ==> (#[trigger] v.errors@[j]).code == s.errors[j].0 && str_bytes(
            v.errors@[j].path@,
        ) == s.errors[j].1
    &&& v.client_max_body_size == s.client_max_body_size
    &&& v.keep_alive_timeout == s.keep_alive_timeout
    &&& v.locations@.len() == s.locations.len()
    &&& forall|j: int|
        0 <= j < s.locations.len() ==> loc_models(#[trigger] v.locations@[j], s.locations[j])
}

/// A configuration realizes its mathematical value.
pub open spec fn config_models(c: crate::config::ast::Config, ss: Seq<SpecServer>) -> bool {
    &&& c.servers@.len() == ss.len()
    &&& forall|j: int| 0 <= j < ss.len() ==> server_models(#[trigger] c.servers@[j], ss[j])
}

/// Resolves a configuration path under the base directory.
fn resolve_path(base: &str, p: String) -> (r: String)
    ensures
        str_bytes(r@) == spec_resolve_path(str_bytes(base@), str_bytes(p@)),
{
    let pb = p.as_str().as_bytes();
    if pb.len() > 0 && pb[0] == 47 {
        assert(str_bytes(p@)[0] == 47);
        p
    } else {
        assert(str_bytes(p@).len() == 0 || str_bytes(p@)[0] != 47);
        let mut out = String::from_str(base);
        out.append("/");
        out.append(p.as_str());
        proof {
            crate::text::lemma_str_bytes_concat(base@, "/"@);
            crate::text::lemma_str_bytes_concat(base@ + "/"@, p@);
            assert((base@ + "/"@) + p@ =~= out@);
            reveal_strlit("/");
            assert("/"@ =~= seq!['/']);
            assert(str_bytes("/"@) =~= seq![47u8]) by {
                vstd::utf8::is_ascii_chars_encode_utf8("/"@);
            }
        }
        out
    }
}

pub proof fn lemma_rfind_at(s: Seq<u8>, b: u8, k: int)
    requires
        0 <= k < s.len(),
        s[k] == b,
        forall|j: int| k < j < s.len() ==> s[j] != b,
    ensures
        rfind_byte(s, b) == Some(k),
    decreases s.len(),
{
    if k < s.len() - 1 {
        assert(s.last() != b);
        lemma_rfind_at(s.drop_last(), b, k);
    }
}

pub proof fn lemma_rfind_none(s: Seq<u8>, b: u8)
    requires
        forall|j: int| 0 <= j < s.len() ==> s[j] != b,
    ensures
        rfind_byte(s, b) is None,
    decreases s.len(),
{
    if s.len() > 0 {
        lemma_rfind_none(s.drop_last(), b);
    }
}

/// Where `rfind_byte` points, and what that means.
pub proof fn lemma_rfind_characterize(s: Seq<u8>, b: u8)
    ensures
        match rfind_byte(s, b) {
            Some(i) => 0 <= i < s.len() && s[i] == b && (forall|j: int|
                i < j < s.len() ==> s[j] != b),
            None => forall|j: int| 0 <= j < s.len() ==> s[j] != b,
        },
    decreases s.len(),
{
    if s.len() > 0 && s.last() != b {
        lemma_rfind_characterize(s.drop_last(), b);
        assert(forall|j: int| 0 <= j < s.len() - 1 ==> s[j] == s.drop_last()[j]);
    }
}

/// One dotted address group.
fn ipv4_group_check(g: &[u8]) -> (r: bool)
    ensures
        r == ipv4_group_ok(g@),
{
    match crate::num::parse_dec_u64(g) {
        Some(v) => {
            if g.len() <= 3 && v <= 255 {
                g.len() == 1 || g[0] != 48
            } else {
                proof {
                    if g@.len() > 3 {
                        assert(!ipv4_group_ok(g@));
                    }
                }
                false
            }
        },
        None => {
            proof {
                if all_dec_digits(g@) && 1 <= g@.len() <= 3 {
                    crate::num::lemma_small_dec_val(g@);
                }
            }
            false
        },
    }
}

/// A dotted-quad host text.
fn is_ipv4_host(b: &[u8]) -> (r: bool)
    ensures
        r == is_ipv4_text(b@),
{
    let mut dot: Vec<u8> = Vec::new();
    dot.push(46);
    assert(dot@ =~= seq![46u8]);
    let b_len = b.len();
    let mut pos: usize = 0;
    let mut left: usize = 4;
    proof {
        assert(b@.skip(0) =~= b@);
    }
    while left > 1
        invariant
            1 <= left <= 4,
            0 <= pos <= b@.len(),
            b_len == b@.len(),
            dot@ == seq![46u8],
            is_ipv4_text(b@) == is_ipv4_from(b@.skip(pos as int), left as int),
        decreases left,
    {
        let rest = vstd::slice::slice_subrange(b, pos, b_len);
        assert(rest@ == b@.skip(pos as int));
        match crate::search::find_sub(rest, dot.as_slice()) {
            Some(d) => {
                let g = vstd::slice::slice_subrange(rest, 0, d);
                assert(g@ == rest@.take(d as int));
                if !ipv4_group_check(g) {
                    return false;
                }
                proof {
                    assert(b@.skip(pos + d + 1) =~= rest@.skip(d + 1));
                }
                pos = pos + d + 1;
                left = left - 1;
            },
            None => {
                return false;
            },
        }
    }
    let last = vstd::slice::slice_subrange(b, pos, b_len);
    assert(last@ == b@.skip(pos as int));
    ipv4_group_check(last)
}

/// A bracketed host text.
fn is_bracket_host(b: &[u8]) -> (r: bool)
    ensures
        r == is_bracketed_text(b@),
{
    let b_len = b.len();
    if b_len < 3 || b[0] != 91 || b[b_len - 1] != 93 {
        return false;
    }
    let mut saw_colon = false;
    let mut i: usize = 1;
    while i < b_len - 1
        invariant
            1 <= i <= b@.len() - 1,
            b_len == b@.len(),
            b@.len() >= 3,
            forall|j: int| 1 <= j < i ==> is_v6_byte(#[trigger] b@[j]),
            saw_colon == exists|j: int| 1 <= j < i && b@[j] == 58,
        decreases b@.len() - i,
    {
        let c = b[i];
        let hexish = (48 <= c && c <= 57) || (97 <= c && c <= 102) || (65 <= c && c <= 70);
        if !(hexish || c == 58 || c == 46) {
            assert(!is_v6_byte(b@[i as int]));
            return false;
        }
        if c == 58 {
            saw_colon = true;
            assert(b@[i as int] == 58);
        }
        i += 1;
    }
    saw_colon
}

/// A host text a listen directive accepts.
fn host_check(b: &[u8]) -> (r: bool)
    ensures
        r == host_text_ok(b@),
{
    if is_ipv4_host(b) {
        true
    } else {
        is_bracket_host(b)
    }
}

/// Parses a listen address from its text, as `spec_parse_addr`
/// prescribes.
fn parse_addr_text(s: &String) -> (r: Option<crate::config::ast::Addr>)
    ensures
        match r {
            Some(a) => spec_parse_addr(str_bytes(s@)) == Some((str_bytes(a.host@), a.port)),
            None => spec_parse_addr(str_bytes(s@)) is None,
        },
{
    let b = s.as_str().as_bytes();
    let b_len = b.len();
    match crate::num::parse_dec_u64(b) {
        Some(n) => {
            if n <= 65535 {
                return Some(
                    crate::config::ast::Addr { host: String::from_str("0.0.0.0"), port: n as u16 },
                );
            }
        },
        None => {},
    }
    let mut k: usize = b_len;
    while k > 0 && b[k - 1] != 58
        invariant
            0 <= k <= b@.len(),
            forall|j: int| k <= j < b@.len() ==> b@[j] != 58,
        decreases k,
    {
        k -= 1;
    }
    if k == 0 {
        proof {
            lemma_rfind_none(b@, 58);
        }
        return None;
    }
    let ci = k - 1;
    proof {
        lemma_rfind_at(b@, 58, ci as int);
    }
    let port_b = vstd::slice::slice_subrange(b, ci + 1, b_len);
    assert(port_b@ =~= b@.skip(ci + 1));
    match crate::num::parse_dec_u64(port_b) {
        Some(n) => {
            if ci > 0 && n <= 65535 {
                let host_slice = vstd::slice::slice_subrange(b, 0, ci);
                assert(host_slice@ =~= b@.take(ci as int));
                if !host_check(host_slice) {
                    return None;
                }
                let host_b = vstd::slice::slice_to_vec(host_slice);
                match crate::text::bytes_to_string(host_b) {
                    Some(host) => Some(crate::config::ast::Addr { host, port: n as u16 }),
                    None => None,
                }
            } else {
                None
            }
        },
        None => None,
    }
}

proof fn lemma_toks_prepend_assoc(ts: Seq<SpecToken>, us: Seq<SpecToken>, o: SpecTokens)
    ensures
        toks_prepend(ts, toks_prepend(us, o)) == toks_prepend(ts + us, o),
{
    match o {
        SpecTokens::Toks(vs) => {
            assert(ts + (us + vs) =~= (ts + us) + vs);
        },
        SpecTokens::Fail(_) => {},
    }
}

proof fn lemma_word_subrange(s: Seq<u8>, k: int)
    requires
        0 <= k <= s.len(),
        forall|j: int| 0 <= j < k ==> !is_delim(s[j]),
        k < s.len() ==> is_delim(s[k]),
    ensures
        take_word(s) == s.subrange(0, k),
        after_word(s) == s.subrange(k, s.len() as int),
    decreases k,
{
    if k == 0 {
        assert(s.subrange(0, 0) =~= Seq::<u8>::empty());
        assert(s.subrange(0, s.len() as int) =~= s);
    } else {
        lemma_word_subrange(s.drop_first(), k - 1);
        assert(seq![s[0]] + s.drop_first().subrange(0, k - 1) =~= s.subrange(0, k));
        assert(s.drop_first().subrange(k - 1, s.drop_first().len() as int) =~= s.subrange(
            k,
            s.len() as int,
        ));
    }
}

/// The recursive-descent parser: a token list and a cursor.
pub struct Parser {
    pub tokens: Vec<Token>,
    pub pos: usize,
    pub base_dir: String,
}

impl Parser {
    /// The tokens, at the level of mathematical values.
    pub open spec fn toks(&self) -> Seq<SpecToken> {
        self.tokens@.map_values(|t: Token| tok_view(t))
    }

    /// The base directory bytes.
    pub open spec fn base(&self) -> Seq<u8> {
        str_bytes(self.base_dir@)
    }

    /// The cursor is past the last token.
    pub fn is_end(&self) -> (r: bool)
        ensures
            r == (self.pos >= self.toks().len()),
    {
        self.pos >= self.tokens.len()
    }

    /// The text of the name-or-string token at `i`, if `i` holds one.
    fn stringish(&self, i: usize) -> (r: Option<String>)
        ensures
            match r {
                Some(s) => stringish_at(self.toks(), i as int) == Some(str_bytes(s@)),
                None => stringish_at(self.toks(), i as int) is None,
            },
    {
        if i >= self.tokens.len() {
            return None;
        }
        match &self.tokens[i] {
            Token::Ident(s) => Some(s.clone()),
            Token::StringLit(s) => Some(s.clone()),
            _ => None,
        }
    }

    /// The text of the identifier at `i`, if `i` holds one.
    fn ident(&self, i: usize) -> (r: Option<String>)
        ensures
            match r {
                Some(s) => i < self.toks().len() && self.toks()[i as int] == SpecToken::Ident(
                    str_bytes(s@),
                ),
                None => !(i < self.toks().len() && self.toks()[i as int] is Ident),
            },
    {
        if i >= self.tokens.len() {
            return None;
        }
        match &self.tokens[i] {
            Token::Ident(s) => Some(s.clone()),
            _ => None,
        }
    }

    /// The number at `i`, if `i` holds one.
    fn number(&self, i: usize) -> (r: Option<u64>)
        ensures
            match r {
                Some(n) => i < self.toks().len() && self.toks()[i as int] == SpecToken::Num(n),
                None => !(i < self.toks().len() && self.toks()[i as int] is Num),
            },
    {
        if i >= self.tokens.len() {
            return None;
        }
        match &self.tokens[i] {
            Token::Number(n) => Some(*n),
            _ => None,
        }
    }

    /// `i` holds a semicolon.
    fn semi(&self, i: usize) -> (r: bool)
        ensures
            r == semi_at(self.toks(), i as int),
    {
        if i >= self.tokens.len() {
            return false;
        }
        match &self.tokens[i] {
            Token::Semi => true,
            _ => false,
        }
    }

    /// `i` holds an opening brace.
    fn lbrace(&self, i: usize) -> (r: bool)
        ensures
            r == (i < self.toks().len() && self.toks()[i as int] is LB),
    {
        if i >= self.tokens.len() {
            return false;
        }
        match &self.tokens[i] {
            Token::LBrace => true,
            _ => false,
        }
    }

    /// `i` holds a closing brace.
    fn rbrace(&self, i: usize) -> (r: bool)
        ensures
            r == (i < self.toks().len() && self.toks()[i as int] is RB),
    {
        if i >= self.tokens.len() {
            return false;
        }
        match &self.tokens[i] {
            Token::RBrace => true,
            _ => false,
        }
    }
}

impl Parser {
    /// Parses the directives of one location block, after its opening
    /// brace, exactly as `spec_location_body` prescribes.
    #[verifier::rlimit(100)]
    pub fn parse_location(&mut self, path: String) -> (r: Result<
        crate::config::ast::Location,
        String,
    >)
        requires
            old(self).pos <= old(self).toks().len(),
        ensures
            final(self).tokens@ == old(self).tokens@,
            final(self).base_dir@ == old(self).base_dir@,
            final(self).pos <= final(self).toks().len(),
            ({
                let out = spec_location_body(
                    old(self).toks(),
                    old(self).pos as int,
                    old(self).base(),
                    empty_loc(str_bytes(path@)),
                );
                match r {
                    Ok(loc) => out matches LocOut::Done(sl, p2) && loc_models(loc, sl)
                        && final(self).pos as int == p2,
                    Err(e) => out matches LocOut::Fail(m) && e@ == m,
                }
            }),
    {
        let ghost ts = self.toks();
        let ghost base = self.base();
        let ghost pos0 = self.pos as int;
        let ghost path_b = str_bytes(path@);
        let mut root: Option<String> = None;
        let mut methods: Option<Vec<crate::config::ast::HttpMethod>> = None;
        let mut redirect: Option<String> = None;
        let mut autoindex: Option<bool> = None;
        let mut default_file: Option<String> = None;
        let mut cgi: Option<crate::config::ast::Cgi> = None;
        let mut body_limit: Option<u64> = None;
        let ghost mut acc = empty_loc(path_b);
        loop
            invariant
                self.toks() == ts,
                self.base() == base,
                self.tokens@ == old(self).tokens@,
                self.base_dir@ == old(self).base_dir@,
                self.pos <= ts.len(),
                pos0 == old(self).pos as int,
                acc.path == path_b,
                path_b == str_bytes(path@),
                opt_str_models(root, acc.root),
                match (methods, acc.methods) {
                    (Some(v), Some(q)) => v@ == q,
                    (None, None) => true,
                    _ => false,
                },
                opt_str_models(redirect, acc.redirect),
                autoindex == acc.autoindex,
                opt_str_models(default_file, acc.default_file),
                match (cgi, acc.cgi) {
                    (Some(c), Some(p)) => str_bytes(c.extension@) == p.0 && str_bytes(
                        c.interpreter@,
                    ) == p.1,
                    (None, None) => true,
                    _ => false,
                },
                body_limit == acc.body_limit,
                spec_location_body(ts, pos0, base, empty_loc(path_b)) == spec_location_body(
                    ts,
                    self.pos as int,
                    base,
                    acc,
                ),
            decreases ts.len() - self.pos,
        {
            let ghost cur = self.pos as int;
            let n = self.tokens.len();
            assert(n == ts.len());
            if self.is_end() {
                return Err(String::from_str("Unexpected EOF in location block"));
            }
            assert(self.pos < n);
            if self.rbrace(self.pos) {
                self.pos = self.pos + 1;
                let loc = crate::config::ast::Location {
                    path,
                    root,
                    methods,
                    redirect,
                    autoindex,
                    default_file,
                    cgi,
                    body_limit,
                };
                assert(loc_models(loc, acc));
                return Ok(loc);
            }
            let w = match self.ident(self.pos) {
                Some(w) => w,
                None => {
                    return Err(String::from_str("Unknown directive in location"));
                },
            };
            let ghost wb = str_bytes(w@);
            if crate::search::bytes_eq(w.as_str().as_bytes(), "root".as_bytes()) {
                assert(wb == str_bytes("root"@));
                match self.stringish(self.pos + 1) {
                    Some(p) => {
                        if self.semi(self.pos + 2) {
                            let ghost pb = str_bytes(p@);
                            let rp = resolve_path(self.base_dir.as_str(), p);
                            root = Some(rp);
                            proof {
                                acc = SpecLocation {
                                    root: Some(spec_resolve_path(base, pb)),
                                    ..acc
                                };
                            }
                            self.pos = self.pos + 3;
                        } else {
                            return Err(String::from_str("Expected semicolon"));
                        }
                    },
                    None => {
                        return Err(String::from_str("Expected string"));
                    },
                }
            } else if crate::search::bytes_eq(w.as_str().as_bytes(), "methods".as_bytes()) {
                assert(wb == str_bytes("methods"@));
                let mut ms: Vec<crate::config::ast::HttpMethod> = Vec::new();
                let mut mp = self.pos + 1;
                let mut mdone = false;
                proof {
                    assert(spec_location_body(ts, cur, base, acc) == (
                    match spec_methods(ts, cur + 1, Seq::empty()) {
                        MethodsOut::Done(ms2, p2) => spec_location_body(
                            ts,
                            p2,
                            base,
                            SpecLocation { methods: Some(ms2), ..acc },
                        ),
                        MethodsOut::Fail(e) => LocOut::Fail(e),
                    }));
                }
                while !mdone
                    invariant
                        self.tokens@ == old(self).tokens@,
                        self.base_dir@ == old(self).base_dir@,
                        self.toks() == ts,
                        self.base() == base,
                        self.pos as int == cur,
                        pos0 == old(self).pos as int,
                        path_b == str_bytes(path@),
                        0 <= cur < ts.len(),
                        spec_location_body(ts, cur, base, acc) == (
                        match spec_methods(ts, cur + 1, Seq::empty()) {
                            MethodsOut::Done(ms2, p2) => spec_location_body(
                                ts,
                                p2,
                                base,
                                SpecLocation { methods: Some(ms2), ..acc },
                            ),
                            MethodsOut::Fail(e) => LocOut::Fail(e),
                        }),
                        spec_location_body(ts, pos0, base, empty_loc(path_b))
                            == spec_location_body(ts, cur, base, acc),
                        cur + 1 <= mp <= ts.len() + 1,
                        !mdone ==> mp <= ts.len() && spec_methods(ts, cur + 1, Seq::empty())
                            == spec_methods(ts, mp as int, ms@),
                        mdone ==> spec_methods(ts, cur + 1, Seq::empty()) == MethodsOut::Done(
                            ms@,
                            mp as int,
                        ) && mp <= ts.len(),
                    decreases ts.len() - mp + (if mdone { 0int } else { 1int }),
                {
                    let n2 = self.tokens.len();
                    assert(n2 == ts.len());
                    if mp >= n2 {
                        return Err(String::from_str("Unexpected EOF"));
                    }
                    if self.semi(mp) {
                        mp = mp + 1;
                        mdone = true;
                    } else {
                        match self.ident(mp) {
                            Some(m) => {
                                let ghost mb = str_bytes(m@);
                                let mbs = m.as_str().as_bytes();
                                let hm = if crate::text::bytes_eq_nocase(mbs, "GET".as_bytes()) {
                                    crate::config::ast::HttpMethod::Get
                                } else if crate::text::bytes_eq_nocase(
                                    mbs,
                                    "POST".as_bytes(),
                                ) {
                                    crate::config::ast::HttpMethod::Post
                                } else if crate::text::bytes_eq_nocase(
                                    mbs,
                                    "DELETE".as_bytes(),
                                ) {
                                    crate::config::ast::HttpMethod::Delete
                                } else {
                                    assert(spec_method_word(mb) is None);
                                    return Err(String::from_str("Unsupported method"));
                                };
                                assert(spec_method_word(mb) == Some(hm));
                                let ghost ms_old = ms@;
                                ms.push(hm);
                                assert(ms@ =~= ms_old.push(hm));
                                mp = mp + 1;
                            },
                            None => {
                                return Err(String::from_str("unexpected token in methods"));
                            },
                        }
                    }
                }
                methods = Some(ms);
                proof {
                    acc = SpecLocation { methods: Some(ms@), ..acc };
                }
                self.pos = mp;
            } else if crate::search::bytes_eq(w.as_str().as_bytes(), "redirect".as_bytes()) {
                assert(wb == str_bytes("redirect"@));
                match self.stringish(self.pos + 1) {
                    Some(p) => {
                        if self.semi(self.pos + 2) {
                            proof {
                                acc = SpecLocation { redirect: Some(str_bytes(p@)), ..acc };
                            }
                            redirect = Some(p);
                            self.pos = self.pos + 3;
                        } else {
                            return Err(String::from_str("Expected semicolon"));
                        }
                    },
                    None => {
                        return Err(String::from_str("Expected string"));
                    },
                }
            } else if crate::search::bytes_eq(w.as_str().as_bytes(), "autoindex".as_bytes()) {
                assert(wb == str_bytes("autoindex"@));
                match self.ident(self.pos + 1) {
                    Some(v) => {
                        let on = crate::text::bytes_eq_nocase(v.as_str().as_bytes(), "on".as_bytes());
                        let off = crate::text::bytes_eq_nocase(
                            v.as_str().as_bytes(),
                            "off".as_bytes(),
                        );
                        if on || off {
                            if self.semi(self.pos + 2) {
                                autoindex = Some(on);
                                proof {
                                    acc = SpecLocation { autoindex: Some(on), ..acc };
                                }
                                self.pos = self.pos + 3;
                            } else {
                                return Err(String::from_str("Expected semicolon"));
                            }
                        } else {
                            return Err(String::from_str("autoindex expects on|off"));
                        }
                    },
                    None => {
                        proof {
                            if stringish_at(ts, cur + 1) is Some {
                                assert(!(ts[cur + 1] is Ident));
                            }
                        }
                        return Err(String::from_str("autoindex expects on|off"));
                    },
                }
            } else if crate::search::bytes_eq(w.as_str().as_bytes(), "default_file".as_bytes()) {
                assert(wb == str_bytes("default_file"@));
                match self.stringish(self.pos + 1) {
                    Some(p) => {
                        if self.semi(self.pos + 2) {
                            proof {
                                acc = SpecLocation { default_file: Some(str_bytes(p@)), ..acc };
                            }
                            default_file = Some(p);
                            self.pos = self.pos + 3;
                        } else {
                            return Err(String::from_str("Expected semicolon"));
                        }
                    },
                    None => {
                        return Err(String::from_str("Expected string"));
                    },
                }
            } else if crate::search::bytes_eq(w.as_str().as_bytes(), "cgi".as_bytes()) {
                assert(wb == str_bytes("cgi"@));
                match self.stringish(self.pos + 1) {
                    Some(ext) => {
                        let interp = match self.stringish(self.pos + 2) {
                            Some(x) => x,
                            None => {
                                return Err(String::from_str("Expected string"));
                            },
                        };
                        if self.semi(self.pos + 3) {
                            proof {
                                acc = SpecLocation {
                                    cgi: Some((str_bytes(ext@), str_bytes(interp@))),
                                    ..acc
                                };
                            }
                            cgi = Some(
                                crate::config::ast::Cgi { extension: ext, interpreter: interp },
                            );
                            self.pos = self.pos + 4;
                        } else {
                            return Err(String::from_str("Expected semicolon"));
                        }
                    },
                    None => {
                        return Err(String::from_str("Expected string"));
                    },
                }
            } else if crate::search::bytes_eq(w.as_str().as_bytes(), "body_limit".as_bytes()) {
                assert(wb == str_bytes("body_limit"@));
                match self.number(self.pos + 1) {
                    Some(n) => {
                        if self.semi(self.pos + 2) {
                            body_limit = Some(n);
                            proof {
                                acc = SpecLocation { body_limit: Some(n), ..acc };
                            }
                            self.pos = self.pos + 3;
                        } else {
                            return Err(String::from_str("Expected semicolon"));
                        }
                    },
                    None => {
                        return Err(String::from_str("Expected number"));
                    },
                }
            } else {
                return Err(String::from_str("Unknown directive in location"));
            }
        }
    }
}

impl Parser {
    /// Parses names or strings up to a semicolon, as `spec_words`
    /// prescribes.
    fn parse_words(&mut self) -> (r: Result<Vec<String>, String>)
        requires
            old(self).pos <= old(self).toks().len(),
        ensures
            final(self).tokens@ == old(self).tokens@,
            final(self).base_dir@ == old(self).base_dir@,
            final(self).pos <= final(self).toks().len(),
            ({
                let out = spec_words(old(self).toks(), old(self).pos as int, Seq::empty());
                match r {
                    Ok(ws) => out == WordsOut::Done(
                        ws@.map_values(|x: String| str_bytes(x@)),
                        final(self).pos as int,
                    ),
                    Err(e) => out matches WordsOut::Fail(m) && e@ == m,
                }
            }),
    {
        let ghost ts = self.toks();
        let ghost pos0 = self.pos as int;
        let mut ws: Vec<String> = Vec::new();
        let mut done = false;
        proof {
            assert(ws@.map_values(|x: String| str_bytes(x@)) =~= Seq::<Seq<u8>>::empty());
        }
        while !done
            invariant
                self.tokens@ == old(self).tokens@,
                self.base_dir@ == old(self).base_dir@,
                self.toks() == ts,
                pos0 == old(self).pos as int,
                self.pos <= ts.len() + (if done { 1int } else { 0int }),
                !done ==> self.pos <= ts.len() && spec_words(ts, pos0, Seq::empty()) == spec_words(
                    ts,
                    self.pos as int,
                    ws@.map_values(|x: String| str_bytes(x@)),
                ),
                done ==> self.pos <= ts.len() && spec_words(ts, pos0, Seq::empty())
                    == WordsOut::Done(
                    ws@.map_values(|x: String| str_bytes(x@)),
                    self.pos as int,
                ),
            decreases ts.len() - self.pos + (if done { 0int } else { 1int }),
        {
            let n = self.tokens.len();
            assert(n == ts.len());
            if self.pos >= n {
                return Err(String::from_str("Unexpected EOF"));
            }
            if self.semi(self.pos) {
                self.pos = self.pos + 1;
                done = true;
            } else {
                match self.stringish(self.pos) {
                    Some(s) => {
                        proof {
                            assert(self.toks()[self.pos as int] is Ident || self.toks()[
                                self.pos as int] is Str || self.toks()[self.pos as int] is Semi
                                || !(stringish_at(ts, self.pos as int) is Some));
                        }
                        assert(ts[self.pos as int] matches SpecToken::Ident(w2) ==> w2
                            == str_bytes(s@));
                        assert(ts[self.pos as int] matches SpecToken::Str(w2) ==> w2 == str_bytes(
                            s@,
                        ));
                        let ghost ws_old = ws@;
                        ws.push(s);
                        proof {
                            assert(ws@.map_values(|x: String| str_bytes(x@)) =~= ws_old.map_values(
                                |x: String| str_bytes(x@),
                            ).push(str_bytes(ws@.last()@)));
                        }
                        self.pos = self.pos + 1;
                    },
                    None => {
                        return Err(String::from_str("unexpected token in word list"));
                    },
                }
            }
        }
        Ok(ws)
    }

    /// Handles one `listen` directive of a server block.
    #[verifier::rlimit(100)]
    fn dir_listen(
        &mut self,
        srv: &mut crate::config::ast::Server,
        Ghost(acc): Ghost<SpecServer>,
    ) -> (r: Result<Ghost<SpecServer>, String>)
        requires
            old(self).pos < old(self).toks().len(),
            old(self).toks()[old(self).pos as int] == SpecToken::Ident(str_bytes("listen"@)),
            server_models(*old(srv), acc),
        ensures
            final(self).tokens@ == old(self).tokens@,
            final(self).base_dir@ == old(self).base_dir@,
            final(self).pos <= final(self).toks().len(),
            ({
                let out = spec_server_body(
                    old(self).toks(),
                    old(self).pos as int,
                    old(self).base(),
                    acc,
                );
                match r {
                    Ok(acc2) => out == spec_server_body(
                        old(self).toks(),
                        final(self).pos as int,
                        old(self).base(),
                        acc2@,
                    ) && server_models(*final(srv), acc2@) && old(self).pos < final(self).pos
                        && final(self).pos <= final(self).toks().len(),
                    Err(e) => out matches SrvOut::Fail(m) && e@ == m,
                }
            }),
    {
        proof {
            lemma_directive_names_distinct();
        }
        let ghost ts = self.toks();
        let ghost base = self.base();
        let ghost cur = self.pos as int;
        let n0 = self.tokens.len();
        assert(self.pos < n0);
        let a: crate::config::ast::Addr = match self.number(self.pos + 1) {
            Some(nv) => {
                if nv <= 65535 {
                    crate::config::ast::Addr { host: String::from_str("0.0.0.0"), port: nv as u16 }
                } else {
                    let mut msg = String::from_str("Invalid listen address: 0.0.0.0:");
                    let digits = crate::num::u64_to_dec_string(nv);
                    msg.append(digits.as_str());
                    return Err(msg);
                }
            },
            None => {
                match self.stringish(self.pos + 1) {
                    Some(s) => {
                        match parse_addr_text(&s) {
                            Some(a) => a,
                            None => {
                                proof {
                                    vstd::utf8::encode_utf8_decode_utf8(s@);
                                }
                                let mut msg = String::from_str("Invalid listen address: ");
                                msg.append(s.as_str());
                                return Err(msg);
                            },
                        }
                    },
                    None => {
                        return Err(String::from_str("Expected listen address"));
                    },
                }
            },
        };
        if self.semi(self.pos + 2) {
            let ghost acc2 = SpecServer { listen: acc.listen.push((str_bytes(a.host@), a.port)), ..acc };
            let ghost listen_old = srv.listen@;
            srv.listen.push(a);
            assert(server_models(*srv, acc2));
            self.pos = self.pos + 3;
            Ok(Ghost(acc2))
        } else {
            Err(String::from_str("Expected semicolon"))
        }
    }

    /// Handles one `server_name` directive of a server block.
    #[verifier::rlimit(100)]
    fn dir_server_name(
        &mut self,
        srv: &mut crate::config::ast::Server,
        Ghost(acc): Ghost<SpecServer>,
    ) -> (r: Result<Ghost<SpecServer>, String>)
        requires
            old(self).pos < old(self).toks().len(),
            old(self).toks()[old(self).pos as int] == SpecToken::Ident(str_bytes("server_name"@)),
            server_models(*old(srv), acc),
        ensures
            final(self).tokens@ == old(self).tokens@,
            final(self).base_dir@ == old(self).base_dir@,
            final(self).pos <= final(self).toks().len(),
            ({
                let out = spec_server_body(
                    old(self).toks(),
                    old(self).pos as int,
                    old(self).base(),
                    acc,
                );
                match r {
                    Ok(acc2) => out == spec_server_body(
                        old(self).toks(),
                        final(self).pos as int,
                        old(self).base(),
                        acc2@,
                    ) && server_models(*final(srv), acc2@) && old(self).pos < final(self).pos
                        && final(self).pos <= final(self).toks().len(),
                    Err(e) => out matches SrvOut::Fail(m) && e@ == m,
                }
            }),
    {
        proof {
            lemma_directive_names_distinct();
        }
        let ghost ts = self.toks();
        let ghost base = self.base();
        let ghost cur = self.pos as int;
        let n0 = self.tokens.len();
        assert(self.pos < n0);
        self.pos = self.pos + 1;
        let mut ws = match self.parse_words() {
            Ok(ws) => ws,
            Err(e) => {
                return Err(e);
            },
        };
        proof {
            lemma_words_advances(ts, cur + 1, Seq::empty());
        }
        let ghost ws_v = ws@.map_values(|x: String| str_bytes(x@));
        let ghost names_old = srv.server_names@;
        srv.server_names.append(&mut ws);
        let ghost acc2 = SpecServer { server_names: acc.server_names + ws_v, ..acc };
        proof {
            assert(srv.server_names@.map_values(|x: String| str_bytes(x@)) =~= names_old.map_values(
                |x: String| str_bytes(x@),
            ) + ws_v);
            assert(server_models(*srv, acc2));
        }
        Ok(Ghost(acc2))
    }

    /// Handles one `root` directive of a server block.
    #[verifier::rlimit(100)]
    fn dir_root(
        &mut self,
        srv: &mut crate::config::ast::Server,
        Ghost(acc): Ghost<SpecServer>,
    ) -> (r: Result<Ghost<SpecServer>, String>)
        requires
            old(self).pos < old(self).toks().len(),
            old(self).toks()[old(self).pos as int] == SpecToken::Ident(str_bytes("root"@)),
            server_models(*old(srv), acc),
        ensures
            final(self).tokens@ == old(self).tokens@,
            final(self).base_dir@ == old(self).base_dir@,
            final(self).pos <= final(self).toks().len(),
            ({
                let out = spec_server_body(
                    old(self).toks(),
                    old(self).pos as int,
                    old(self).base(),
                    acc,
                );
                match r {
                    Ok(acc2) => out == spec_server_body(
                        old(self).toks(),
                        final(self).pos as int,
                        old(self).base(),
                        acc2@,
                    ) && server_models(*final(srv), acc2@) && old(self).pos < final(self).pos
                        && final(self).pos <= final(self).toks().len(),
                    Err(e) => out matches SrvOut::Fail(m) && e@ == m,
                }
            }),
    {
        proof {
            lemma_directive_names_distinct();
        }
        let ghost ts = self.toks();
        let ghost base = self.base();
        let ghost cur = self.pos as int;
        let n0 = self.tokens.len();
        assert(self.pos < n0);
        match self.stringish(self.pos + 1) {
            Some(p) => {
                if self.semi(self.pos + 2) {
                    let ghost pb = str_bytes(p@);
                    let rp = resolve_path(self.base_dir.as_str(), p);
                    srv.root = Some(rp);
                    let ghost acc2 = SpecServer { root: Some(spec_resolve_path(base, pb)), ..acc };
                    assert(server_models(*srv, acc2));
                    self.pos = self.pos + 3;
                    Ok(Ghost(acc2))
                } else {
                    Err(String::from_str("Expected semicolon"))
                }
            },
            None => Err(String::from_str("Expected string")),
        }
    }

    /// Handles one `index` directive of a server block.
    #[verifier::rlimit(100)]
    fn dir_index(
        &mut self,
        srv: &mut crate::config::ast::Server,
        Ghost(acc): Ghost<SpecServer>,
    ) -> (r: Result<Ghost<SpecServer>, String>)
        requires
            old(self).pos < old(self).toks().len(),
            old(self).toks()[old(self).pos as int] == SpecToken::Ident(str_bytes("index"@)),
            server_models(*old(srv), acc),
        ensures
            final(self).tokens@ == old(self).tokens@,
            final(self).base_dir@ == old(self).base_dir@,
            final(self).pos <= final(self).toks().len(),
            ({
                let out = spec_server_body(
                    old(self).toks(),
                    old(self).pos as int,
                    old(self).base(),
                    acc,
                );
                match r {
                    Ok(acc2) => out == spec_server_body(
                        old(self).toks(),
                        final(self).pos as int,
                        old(self).base(),
                        acc2@,
                    ) && server_models(*final(srv), acc2@) && old(self).pos < final(self).pos
                        && final(self).pos <= final(self).toks().len(),
                    Err(e) => out matches SrvOut::Fail(m) && e@ == m,
                }
            }),
    {
        proof {
            lemma_directive_names_distinct();
        }
        let ghost ts = self.toks();
        let ghost base = self.base();
        let ghost cur = self.pos as int;
        let n0 = self.tokens.len();
        assert(self.pos < n0);
        self.pos = self.pos + 1;
        let mut ws = match self.parse_words() {
            Ok(ws) => ws,
            Err(e) => {
                return Err(e);
            },
        };
        proof {
            lemma_words_advances(ts, cur + 1, Seq::empty());
        }
        let ghost ws_v = ws@.map_values(|x: String| str_bytes(x@));
        let ghost index_old = srv.index@;
        srv.index.append(&mut ws);
        let ghost acc2 = SpecServer { index: acc.index + ws_v, ..acc };
        proof {
            assert(srv.index@.map_values(|x: String| str_bytes(x@)) =~= index_old.map_values(
                |x: String| str_bytes(x@),
            ) + ws_v);
            assert(server_models(*srv, acc2));
        }
        Ok(Ghost(acc2))
    }

    /// Handles one `error_page` directive of a server block.
    #[verifier::rlimit(100)]
    fn dir_error_page(
        &mut self,
        srv: &mut crate::config::ast::Server,
        Ghost(acc): Ghost<SpecServer>,
    ) -> (r: Result<Ghost<SpecServer>, String>)
        requires
            old(self).pos < old(self).toks().len(),
            old(self).toks()[old(self).pos as int] == SpecToken::Ident(str_bytes("error_page"@)),
            server_models(*old(srv), acc),
        ensures
            final(self).tokens@ == old(self).tokens@,
            final(self).base_dir@ == old(self).base_dir@,
            final(self).pos <= final(self).toks().len(),
            ({
                let out = spec_server_body(
                    old(self).toks(),
                    old(self).pos as int,
                    old(self).base(),
                    acc,
                );
                match r {
                    Ok(acc2) => out == spec_server_body(
                        old(self).toks(),
                        final(self).pos as int,
                        old(self).base(),
                        acc2@,
                    ) && server_models(*final(srv), acc2@) && old(self).pos < final(self).pos
                        && final(self).pos <= final(self).toks().len(),
                    Err(e) => out matches SrvOut::Fail(m) && e@ == m,
                }
            }),
    {
        proof {
            lemma_directive_names_distinct();
        }
        let ghost ts = self.toks();
        let ghost base = self.base();
        let ghost cur = self.pos as int;
        let n0 = self.tokens.len();
        assert(self.pos < n0);
        match self.number(self.pos + 1) {
            Some(code64) => {
                if code64 <= 65535 {
                    match self.stringish(self.pos + 2) {
                        Some(p) => {
                            if self.semi(self.pos + 3) {
                                let ghost pb = str_bytes(p@);
                                let ghost acc2 = SpecServer {
                                    errors: acc.errors.push((code64 as u16, pb)),
                                    ..acc
                                };
                                let ghost errs_old = srv.errors@;
                                srv.errors.push(
                                    crate::config::ast::ErrorPage { code: code64 as u16, path: p },
                                );
                                assert(server_models(*srv, acc2));
                                self.pos = self.pos + 4;
                                Ok(Ghost(acc2))
                            } else {
                                Err(String::from_str("Expected semicolon"))
                            }
                        },
                        None => Err(String::from_str("Expected string")),
                    }
                } else {
                    Err(String::from_str("Number out of range for u16"))
                }
            },
            None => Err(String::from_str("Expected number")),
        }
    }

    /// Handles one `location` directive of a server block.
    #[verifier::rlimit(100)]
    fn dir_location(
        &mut self,
        srv: &mut crate::config::ast::Server,
        Ghost(acc): Ghost<SpecServer>,
    ) -> (r: Result<Ghost<SpecServer>, String>)
        requires
            old(self).pos < old(self).toks().len(),
            old(self).toks()[old(self).pos as int] == SpecToken::Ident(str_bytes("location"@)),
            server_models(*old(srv), acc),
        ensures
            final(self).tokens@ == old(self).tokens@,
            final(self).base_dir@ == old(self).base_dir@,
            final(self).pos <= final(self).toks().len(),
            ({
                let out = spec_server_body(
                    old(self).toks(),
                    old(self).pos as int,
                    old(self).base(),
                    acc,
                );
                match r {
                    Ok(acc2) => out == spec_server_body(
                        old(self).toks(),
                        final(self).pos as int,
                        old(self).base(),
                        acc2@,
                    ) && server_models(*final(srv), acc2@) && old(self).pos < final(self).pos
                        && final(self).pos <= final(self).toks().len(),
                    Err(e) => out matches SrvOut::Fail(m) && e@ == m,
                }
            }),
    {
        proof {
            lemma_directive_names_distinct();
        }
        let ghost ts = self.toks();
        let ghost base = self.base();
        let ghost cur = self.pos as int;
        let n0 = self.tokens.len();
        assert(self.pos < n0);
        match self.stringish(self.pos + 1) {
            Some(p) => {
                if self.lbrace(self.pos + 2) {
                    let ghost pb = str_bytes(p@);
                    self.pos = self.pos + 3;
                    let mut loc = match self.parse_location(p) {
                        Ok(loc) => loc,
                        Err(e) => {
                            return Err(e);
                        },
                    };
                    proof {
                        lemma_location_advances(ts, cur + 3, base, empty_loc(pb));
                    }
                    let ghost sl = (match spec_location_body(ts, cur + 3, base, empty_loc(pb)) {
                        LocOut::Done(sl0, _) => sl0,
                        LocOut::Fail(_) => empty_loc(pb),
                    });
                    if loc.root.is_none() {
                        loc.root = match &srv.root {
                            Some(r) => Some(r.clone()),
                            None => None,
                        };
                    }
                    let ghost sl2 = (if sl.root is None {
                        SpecLocation { root: acc.root, ..sl }
                    } else {
                        sl
                    });
                    assert(loc_models(loc, sl2));
                    let ghost acc2 = SpecServer { locations: acc.locations.push(sl2), ..acc };
                    let ghost locs_old = srv.locations@;
                    srv.locations.push(loc);
                    assert(server_models(*srv, acc2));
                    Ok(Ghost(acc2))
                } else {
                    Err(String::from_str("Expected brace"))
                }
            },
            None => Err(String::from_str("Expected string")),
        }
    }

    /// Handles one `client_max_body_size` directive of a server block.
    #[verifier::rlimit(100)]
    fn dir_client_max_body_size(
        &mut self,
        srv: &mut crate::config::ast::Server,
        Ghost(acc): Ghost<SpecServer>,
    ) -> (r: Result<Ghost<SpecServer>, String>)
        requires
            old(self).pos < old(self).toks().len(),
            old(self).toks()[old(self).pos as int] == SpecToken::Ident(str_bytes("client_max_body_size"@)),
            server_models(*old(srv), acc),
        ensures
            final(self).tokens@ == old(self).tokens@,
            final(self).base_dir@ == old(self).base_dir@,
            final(self).pos <= final(self).toks().len(),
            ({
                let out = spec_server_body(
                    old(self).toks(),
                    old(self).pos as int,
                    old(self).base(),
                    acc,
                );
                match r {
                    Ok(acc2) => out == spec_server_body(
                        old(self).toks(),
                        final(self).pos as int,
                        old(self).base(),
                        acc2@,
                    ) && server_models(*final(srv), acc2@) && old(self).pos < final(self).pos
                        && final(self).pos <= final(self).toks().len(),
                    Err(e) => out matches SrvOut::Fail(m) && e@ == m,
                }
            }),
    {
        proof {
            lemma_directive_names_distinct();
        }
        let ghost ts = self.toks();
        let ghost base = self.base();
        let ghost cur = self.pos as int;
        let n0 = self.tokens.len();
        assert(self.pos < n0);
        match self.number(self.pos + 1) {
            Some(nv) => {
                if self.semi(self.pos + 2) {
                    srv.client_max_body_size = Some(nv);
                    let ghost acc2 = SpecServer { client_max_body_size: Some(nv), ..acc };
                    assert(server_models(*srv, acc2));
                    self.pos = self.pos + 3;
                    Ok(Ghost(acc2))
                } else {
                    Err(String::from_str("Expected semicolon"))
                }
            },
            None => Err(String::from_str("Expected number")),
        }
    }

    /// Handles one `keep_alive_timeout` directive of a server block.
    #[verifier::rlimit(100)]
    fn dir_keep_alive_timeout(
        &mut self,
        srv: &mut crate::config::ast::Server,
        Ghost(acc): Ghost<SpecServer>,
    ) -> (r: Result<Ghost<SpecServer>, String>)
        requires
            old(self).pos < old(self).toks().len(),
            old(self).toks()[old(self).pos as int] == SpecToken::Ident(str_bytes("keep_alive_timeout"@)),
            server_models(*old(srv), acc),
        ensures
            final(self).tokens@ == old(self).tokens@,
            final(self).base_dir@ == old(self).base_dir@,
            final(self).pos <= final(self).toks().len(),
            ({
                let out = spec_server_body(
                    old(self).toks(),
                    old(self).pos as int,
                    old(self).base(),
                    acc,
                );
                match r {
                    Ok(acc2) => out == spec_server_body(
                        old(self).toks(),
                        final(self).pos as int,
                        old(self).base(),
                        acc2@,
                    ) && server_models(*final(srv), acc2@) && old(self).pos < final(self).pos
                        && final(self).pos <= final(self).toks().len(),
                    Err(e) => out matches SrvOut::Fail(m) && e@ == m,
                }
            }),
    {
        proof {
            lemma_directive_names_distinct();
        }
        let ghost ts = self.toks();
        let ghost base = self.base();
        let ghost cur = self.pos as int;
        let n0 = self.tokens.len();
        assert(self.pos < n0);
        match self.number(self.pos + 1) {
            Some(nv) => {
                if self.semi(self.pos + 2) {
                    srv.keep_alive_timeout = Some(nv);
                    let ghost acc2 = SpecServer { keep_alive_timeout: Some(nv), ..acc };
                    assert(server_models(*srv, acc2));
                    self.pos = self.pos + 3;
                    Ok(Ghost(acc2))
                } else {
                    Err(String::from_str("Expected semicolon"))
                }
            },
            None => Err(String::from_str("Expected number")),
        }
    }

    /// Parses the directives of one server block, after its opening
    /// brace, exactly as `spec_server_body` prescribes.
    #[verifier::rlimit(100)]
    pub fn parse_server(&mut self) -> (r: Result<crate::config::ast::Server, String>)
        requires
            old(self).pos <= old(self).toks().len(),
        ensures
            final(self).tokens@ == old(self).tokens@,
            final(self).base_dir@ == old(self).base_dir@,
            final(self).pos <= final(self).toks().len(),
            ({
                let out = spec_server_body(
                    old(self).toks(),
                    old(self).pos as int,
                    old(self).base(),
                    empty_srv(),
                );
                match r {
                    Ok(srv) => out matches SrvOut::Done(ss, p2) && server_models(srv, ss)
                        && final(self).pos as int == p2,
                    Err(e) => out matches SrvOut::Fail(m) && e@ == m,
                }
            }),
    {
        let ghost ts = self.toks();
        let ghost base = self.base();
        let ghost pos0 = self.pos as int;
        let mut srv = crate::config::ast::Server {
            listen: Vec::new(),
            server_names: Vec::new(),
            root: None,
            index: Vec::new(),
            errors: Vec::new(),
            client_max_body_size: None,
            keep_alive_timeout: None,
            locations: Vec::new(),
        };
        let ghost mut acc = empty_srv();
        proof {
            assert(srv.server_names@.map_values(|x: String| str_bytes(x@)) =~= Seq::<
                Seq<u8>,
            >::empty());
            assert(srv.index@.map_values(|x: String| str_bytes(x@)) =~= Seq::<Seq<u8>>::empty());
            assert(server_models(srv, acc));
        }
        loop
            invariant
                self.toks() == ts,
                self.base() == base,
                self.tokens@ == old(self).tokens@,
                self.base_dir@ == old(self).base_dir@,
                self.pos <= ts.len(),
                pos0 == old(self).pos as int,
                server_models(srv, acc),
                spec_server_body(ts, pos0, base, empty_srv()) == spec_server_body(
                    ts,
                    self.pos as int,
                    base,
                    acc,
                ),
            decreases ts.len() - self.pos,
        {
            let n = self.tokens.len();
            assert(n == ts.len());
            if self.pos >= n {
                return Err(String::from_str("Unexpected EOF in server block"));
            }
            if self.rbrace(self.pos) {
                self.pos = self.pos + 1;
                return Ok(srv);
            }
            let w = match self.ident(self.pos) {
                Some(w) => w,
                None => {
                    return Err(String::from_str("Unknown directive in server"));
                },
            };
            let ghost wb = str_bytes(w@);
            let step = if crate::search::bytes_eq(w.as_str().as_bytes(), "listen".as_bytes()) {
                self.dir_listen(&mut srv, Ghost(acc))
            } else if crate::search::bytes_eq(w.as_str().as_bytes(), "server_name".as_bytes()) {
                self.dir_server_name(&mut srv, Ghost(acc))
            } else if crate::search::bytes_eq(w.as_str().as_bytes(), "root".as_bytes()) {
                self.dir_root(&mut srv, Ghost(acc))
            } else if crate::search::bytes_eq(w.as_str().as_bytes(), "index".as_bytes()) {
                self.dir_index(&mut srv, Ghost(acc))
            } else if crate::search::bytes_eq(w.as_str().as_bytes(), "error_page".as_bytes()) {
                self.dir_error_page(&mut srv, Ghost(acc))
            } else if crate::search::bytes_eq(w.as_str().as_bytes(), "location".as_bytes()) {
                self.dir_location(&mut srv, Ghost(acc))
            } else if crate::search::bytes_eq(
                w.as_str().as_bytes(),
                "client_max_body_size".as_bytes(),
            ) {
                self.dir_client_max_body_size(&mut srv, Ghost(acc))
            } else if crate::search::bytes_eq(
                w.as_str().as_bytes(),
                "keep_alive_timeout".as_bytes(),
            ) {
                self.dir_keep_alive_timeout(&mut srv, Ghost(acc))
            } else {
                return Err(String::from_str("Unknown directive in server"));
            };
            match step {
                Ok(g) => {
                    proof {
                        acc = g@;
                    }
                },
                Err(e) => {
                    return Err(e);
                },
            }
        }
    }
}


impl Parser {
    /// Parses server blocks until the tokens run out, exactly as
    /// `spec_config_toks` prescribes.
    #[verifier::rlimit(100)]
    pub fn parse_config(&mut self) -> (r: Result<Vec<crate::config::ast::Server>, String>)
        requires
            old(self).pos <= old(self).toks().len(),
        ensures
            final(self).tokens@ == old(self).tokens@,
            final(self).base_dir@ == old(self).base_dir@,
            ({
                let out = spec_config_toks(
                    old(self).toks(),
                    old(self).pos as int,
                    old(self).base(),
                    Seq::empty(),
                );
                match r {
                    Ok(ss) => out matches CfgOut::Done(sss) && ss@.len() == sss.len() && (forall|
                        j: int,
                    |
                        0 <= j < sss.len() ==> server_models(#[trigger] ss@[j], sss[j])),
                    Err(e) => out matches CfgOut::Fail(m) && e@ == m,
                }
            }),
    {
        let ghost ts = self.toks();
        let ghost base = self.base();
        let ghost pos0 = self.pos as int;
        let mut servers: Vec<crate::config::ast::Server> = Vec::new();
        let ghost mut acc: Seq<SpecServer> = Seq::empty();
        loop
            invariant
                self.toks() == ts,
                self.base() == base,
                self.tokens@ == old(self).tokens@,
                self.base_dir@ == old(self).base_dir@,
                self.pos <= ts.len(),
                pos0 == old(self).pos as int,
                servers@.len() == acc.len(),
                forall|j: int|
                    0 <= j < acc.len() ==> server_models(#[trigger] servers@[j], acc[j]),
                spec_config_toks(ts, pos0, base, Seq::empty()) == spec_config_toks(
                    ts,
                    self.pos as int,
                    base,
                    acc,
                ),
            decreases ts.len() - self.pos,
        {
            let ghost cur = self.pos as int;
            let n = self.tokens.len();
            assert(n == ts.len());
            if self.pos >= n {
                return Ok(servers);
            }
            let w = match self.ident(self.pos) {
                Some(w) => w,
                None => {
                    return Err(String::from_str("Unexpected token at top-level"));
                },
            };
            if !crate::search::bytes_eq(w.as_str().as_bytes(), "server".as_bytes()) {
                return Err(String::from_str("Unexpected token at top-level"));
            }
            if !self.lbrace(self.pos + 1) {
                return Err(String::from_str("Expected brace"));
            }
            self.pos = self.pos + 2;
            proof {
                lemma_server_advances(ts, cur + 2, base, empty_srv());
            }
            match self.parse_server() {
                Ok(srv) => {
                    let ghost srv_spec = (match spec_server_body(ts, cur + 2, base, empty_srv()) {
                        SrvOut::Done(ss0, _) => ss0,
                        SrvOut::Fail(_) => empty_srv(),
                    });
                    proof {
                        acc = acc.push(srv_spec);
                    }
                    servers.push(srv);
                },
                Err(e) => {
                    return Err(e);
                },
            }
        }
    }
}

/// Parses a configuration text into its tree, exactly as
/// `spec_parse_config` prescribes: paths resolve under `base_dir`, at
/// least one server must be defined, and every server must carry a
/// listen address.
#[verifier::rlimit(100)]
pub fn parse_config(input: &str, base_dir: &str) -> (r: Result<crate::config::ast::Config, String>)
    ensures
        ({
            let out = spec_parse_config(str_bytes(input@), str_bytes(base_dir@));
            match r {
                Ok(cfg) => out matches SpecConfig::Done(sss) && config_models(cfg, sss)
                    && cfg.servers@.len() > 0,
                Err(e) => out matches SpecConfig::Fail(m) && e@ == m,
            }
        }),
{
    let tokens = match tokenize(input) {
        Ok(t) => t,
        Err(e) => {
            return Err(e);
        },
    };
    let mut p = Parser { tokens, pos: 0, base_dir: String::from_str(base_dir) };
    let servers = match p.parse_config() {
        Ok(ss) => ss,
        Err(e) => {
            return Err(e);
        },
    };
    if servers.len() == 0 {
        return Err(String::from_str("No servers defined"));
    }
    let ghost sss = (match spec_config_toks(
        p.toks(),
        0,
        str_bytes(base_dir@),
        Seq::empty(),
    ) {
        CfgOut::Done(x) => x,
        CfgOut::Fail(_) => Seq::empty(),
    });
    let ghost out0 = spec_parse_config(str_bytes(input@), str_bytes(base_dir@));
    proof {
        assert(out0 == (match check_listens(sss, 0) {
            Some(m) => SpecConfig::Fail(m),
            None => SpecConfig::Done(sss),
        }));
    }
    let mut i: usize = 0;
    while i < servers.len()
        invariant
            0 <= i <= servers@.len(),
            servers@.len() == sss.len(),
            sss.len() > 0,
            forall|j: int| 0 <= j < sss.len() ==> server_models(#[trigger] servers@[j], sss[j]),
            check_listens(sss, 0) == check_listens(sss, i as int),
            out0 == spec_parse_config(str_bytes(input@), str_bytes(base_dir@)),
            out0 == (match check_listens(sss, 0) {
                Some(m) => SpecConfig::Fail(m),
                None => SpecConfig::Done(sss),
            }),
        decreases servers@.len() - i,
    {
        if servers[i].listen.len() == 0 {
            assert(sss[i as int].listen.len() == 0);
            let mut msg = String::from_str("Server #");
            let digits = crate::num::u64_to_dec_string(i as u64);
            msg.append(digits.as_str());
            msg.append(" missing listen directive");
            assert(msg@ =~= "Server #"@ + crate::num::dec_chars(i as nat)
                + " missing listen directive"@);
            return Err(msg);
        }
        i += 1;
    }
    assert(check_listens(sss, sss.len() as int) is None);
        Ok(crate::config::ast::Config { servers })
}

/// The server-block directive names differ pairwise (their lengths
/// already do).
proof fn lemma_directive_names_distinct()
    ensures
        str_bytes("listen"@).len() == 6,
        str_bytes("server_name"@).len() == 11,
        str_bytes("root"@).len() == 4,
        str_bytes("index"@).len() == 5,
        str_bytes("error_page"@).len() == 10,
        str_bytes("location"@).len() == 8,
        str_bytes("client_max_body_size"@).len() == 20,
        str_bytes("keep_alive_timeout"@).len() == 18,
{
    reveal_strlit("listen");
    reveal_strlit("server_name");
    reveal_strlit("root");
    reveal_strlit("index");
    reveal_strlit("error_page");
    reveal_strlit("location");
    reveal_strlit("client_max_body_size");
    reveal_strlit("keep_alive_timeout");
    assert(vstd::utf8::is_ascii_chars("listen"@));
    assert(vstd::utf8::is_ascii_chars("server_name"@));
    assert(vstd::utf8::is_ascii_chars("root"@));
    assert(vstd::utf8::is_ascii_chars("index"@));
    assert(vstd::utf8::is_ascii_chars("error_page"@));
    assert(vstd::utf8::is_ascii_chars("location"@));
    assert(vstd::utf8::is_ascii_chars("client_max_body_size"@));
    assert(vstd::utf8::is_ascii_chars("keep_alive_timeout"@));
    vstd::utf8::is_ascii_chars_encode_utf8("listen"@);
    vstd::utf8::is_ascii_chars_encode_utf8("server_name"@);
    vstd::utf8::is_ascii_chars_encode_utf8("root"@);
    vstd::utf8::is_ascii_chars_encode_utf8("index"@);
    vstd::utf8::is_ascii_chars_encode_utf8("error_page"@);
    vstd::utf8::is_ascii_chars_encode_utf8("location"@);
    vstd::utf8::is_ascii_chars_encode_utf8("client_max_body_size"@);
    vstd::utf8::is_ascii_chars_encode_utf8("keep_alive_timeout"@);
}

/// Word-delimiter test on a single byte.
fn is_delim_byte(b: u8) -> (r: bool)
    ensures
        r == is_delim(b),
{
    crate::text::is_ws_byte(b) || b == 123 || b == 125 || b == 59
}

/// Cuts the configuration text into tokens, as `spec_tokens`
/// prescribes.
#[verifier::rlimit(100)]
pub fn tokenize(input: &str) -> (r: Result<Vec<Token>, String>)
    ensures
        match r {
            Ok(toks) => spec_tokens(str_bytes(input@)) == SpecTokens::Toks(
                toks@.map_values(|t: Token| tok_view(t)),
            ),
            Err(e) => spec_tokens(str_bytes(input@)) == SpecTokens::Fail(e@),
        },
{
    let b = input.as_bytes();
    let b_len = b.len();
    let mut toks: Vec<Token> = Vec::new();
    let mut pos: usize = 0;
    let mut nl: Vec<u8> = Vec::new();
    nl.push(10);
    assert(nl@ =~= seq![10u8]);
    let mut quote: Vec<u8> = Vec::new();
    quote.push(34);
    assert(quote@ =~= seq![34u8]);
    proof {
        assert(b@.skip(0) =~= b@);
        assert(toks@.map_values(|t: Token| tok_view(t)) =~= Seq::<SpecToken>::empty());
        assert(toks_prepend(Seq::empty(), spec_tokens(b@)) == spec_tokens(b@));
    }
    while pos < b_len
        invariant
            0 <= pos <= b_len,
            b_len == b@.len(),
            b@ == str_bytes(input@),
            nl@ == seq![10u8],
            quote@ == seq![34u8],
            spec_tokens(b@) == toks_prepend(
                toks@.map_values(|t: Token| tok_view(t)),
                spec_tokens(b@.skip(pos as int)),
            ),
        decreases b_len - pos,
    {
        let ghost s = b@.skip(pos as int);
        let ghost tv = toks@.map_values(|t: Token| tok_view(t));
        let c = b[pos];
        assert(c == s[0]);
        if c == 123 || c == 125 || c == 59 {
            let ghost prev = toks@;
            if c == 123 {
                toks.push(Token::LBrace);
            } else if c == 125 {
                toks.push(Token::RBrace);
            } else {
                toks.push(Token::Semi);
            }
            proof {
                let t0 = tok_view(toks@.last());
                assert(toks@.map_values(|t: Token| tok_view(t)) =~= tv.push(t0));
                assert(s.drop_first() =~= b@.skip(pos + 1));
                lemma_toks_prepend_assoc(tv, seq![t0], spec_tokens(b@.skip(pos + 1)));
                assert(tv + seq![t0] =~= tv.push(t0));
            }
            pos = pos + 1;
        } else if c == 35 {
            let rest = vstd::slice::slice_subrange(b, pos, b_len);
            assert(rest@ == s);
            match crate::search::find_sub(rest, nl.as_slice()) {
                Some(i) => {
                    proof {
                        assert(s.skip(i + 1) =~= b@.skip(pos + i + 1));
                    }
                    pos = pos + i + 1;
                },
                None => {
                    proof {
                        assert(spec_tokens(s) == SpecTokens::Toks(Seq::empty()));
                        assert(b@.skip(b_len as int) =~= Seq::<u8>::empty());
                    }
                    pos = b_len;
                },
            }
        } else if c == 34 {
            let rest1 = vstd::slice::slice_subrange(b, pos + 1, b_len);
            proof {
                assert(rest1@ =~= s.drop_first());
            }
            match crate::search::find_sub(rest1, quote.as_slice()) {
                Some(i) => {
                    let lit_b = vstd::slice::slice_to_vec(
                        vstd::slice::slice_subrange(rest1, 0, i),
                    );
                    proof {
                        assert(lit_b@ =~= s.drop_first().take(i as int));
                    }
                    let ghost lit = lit_b@;
                    match crate::text::bytes_to_string(lit_b) {
                        Some(text) => {
                            let ghost prev = toks@;
                            toks.push(Token::StringLit(text));
                            proof {
                                let t0 = SpecToken::Str(lit);
                                assert(tok_view(toks@.last()) == t0);
                                assert(toks@.map_values(|t: Token| tok_view(t)) =~= tv.push(t0));
                                assert(s.skip(i + 2) =~= b@.skip(pos + i + 2));
                                lemma_toks_prepend_assoc(
                                    tv,
                                    seq![t0],
                                    spec_tokens(b@.skip(pos + i + 2)),
                                );
                                assert(tv + seq![t0] =~= tv.push(t0));
                            }
                            pos = pos + i + 2;
                        },
                        None => {
                            return Err(String::from_str("invalid text in configuration"));
                        },
                    }
                },
                None => {
                    return Err(String::from_str("Unterminated string literal"));
                },
            }
        } else if crate::text::is_ws_byte(c) {
            proof {
                assert(s.drop_first() =~= b@.skip(pos + 1));
            }
            pos = pos + 1;
        } else {
            let mut wend: usize = pos;
            while wend < b_len && !is_delim_byte(b[wend])
                invariant
                    pos <= wend <= b_len,
                    b_len == b@.len(),
                    forall|j: int| pos <= j < wend ==> !is_delim(b@[j]),
                decreases b_len - wend,
            {
                wend = wend + 1;
            }
            proof {
                lemma_word_subrange(s, wend - pos);
                assert(s.subrange(0, wend - pos) =~= b@.subrange(pos as int, wend as int));
                assert(s.subrange(wend - pos, s.len() as int) =~= b@.skip(wend as int));
            }
            let word_b = vstd::slice::slice_to_vec(
                vstd::slice::slice_subrange(b, pos, wend),
            );
            let ghost w = word_b@;
            assert(w == take_word(s));
            let mut all_digits = true;
            let mut di: usize = 0;
            while di < word_b.len()
                invariant
                    0 <= di <= word_b@.len(),
                    word_b@ == w,
                    all_digits == (forall|j: int|
                        0 <= j < di ==> crate::num::is_dec_digit(#[trigger] w[j])),
                decreases word_b@.len() - di,
            {
                if !(48 <= word_b[di] && word_b[di] <= 57) {
                    all_digits = false;
                    assert(!crate::num::is_dec_digit(w[di as int]));
                }
                di += 1;
            }
            assert(all_digits == all_dec_digits(w));
            if all_digits {
                proof {
                    assert(forall|j: int| 0 <= j < w.len() ==> w[j] < 128) by {
                        assert(forall|j: int|
                            0 <= j < w.len() ==> crate::num::is_dec_digit(#[trigger] w[j]));
                    }
                    crate::text::lemma_ascii_bytes_valid(w);
                }
                match crate::num::parse_dec_u64(word_b.as_slice()) {
                    Some(n) => {
                        let ghost prev = toks@;
                        toks.push(Token::Number(n));
                        proof {
                            let t0 = SpecToken::Num(n);
                            assert(tok_view(toks@.last()) == t0);
                            assert(toks@.map_values(|t: Token| tok_view(t)) =~= tv.push(t0));
                            lemma_toks_prepend_assoc(
                                tv,
                                seq![t0],
                                spec_tokens(b@.skip(wend as int)),
                            );
                            assert(tv + seq![t0] =~= tv.push(t0));
                        }
                        pos = wend;
                    },
                    None => {
                        return Err(String::from_str("Number out of range"));
                    },
                }
            } else {
                match crate::text::bytes_to_string(word_b) {
                    Some(text) => {
                        let ghost prev = toks@;
                        toks.push(Token::Ident(text));
                        proof {
                            let t0 = SpecToken::Ident(w);
                            assert(tok_view(toks@.last()) == t0);
                            assert(toks@.map_values(|t: Token| tok_view(t)) =~= tv.push(t0));
                            lemma_toks_prepend_assoc(
                                tv,
                                seq![t0],
                                spec_tokens(b@.skip(wend as int)),
                            );
                            assert(tv + seq![t0] =~= tv.push(t0));
                        }
                        pos = wend;
                    },
                    None => {
                        return Err(String::from_str("invalid text in configuration"));
                    },
                }
            }
        }
    }
    proof {
        assert(b@.skip(b_len as int) =~= Seq::<u8>::empty());
        assert(spec_tokens(b@.skip(pos as int)) == SpecTokens::Toks(Seq::empty()));
        assert(toks@.map_values(|t: Token| tok_view(t)) + Seq::<SpecToken>::empty()
            =~= toks@.map_values(|t: Token| tok_view(t)));
    }
    Ok(toks)
}

} // verus!
