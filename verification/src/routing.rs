//! Configuration-mode request routing: the `Host` header chooses a server
//! among those on the listen address (the default server otherwise), the
//! longest matching location prefix chooses a location, static roots see
//! the path with that prefix stripped, and proxy locations forward a
//! rewritten request.
use vstd::prelude::*;
use crate::text::{
    chars_of, string_of, slice_chars, chars_eq, find_char, find_from, lemma_find_from,
    rfind_before, rfind_char, lemma_rfind_before, split, split_chars, trim_ws, trim_ws_chars,
    ascii_lower, lower_char, all_digits, is_digit, lemma_chars_deep_view, lemma_push_deep_view,
    decimal, decimal_string, starts_with_chars, append_chars,
};
use crate::config::{
    LocationConfig, LocationModel, ServerConfig, ServerModel, LoomisConfig, LocationHandler,
    HandlerModel, authority_spec, config_well_formed,
};
use crate::server::{
    request_line_spec, parse_request_line, request_target, candidates_with_index,
    location_candidates, utf8_lossy, decode_lossy,
};

verus! {

broadcast use vstd::string::group_string_axioms;

// ---------------------------------------------------------------------------
// Headers
// ---------------------------------------------------------------------------

/// One request header.
#[derive(Debug, Clone, PartialEq, Eq)]
pub struct Header {
    pub name: String,
    pub value: String,
}

impl View for Header {
    type V = (Seq<char>, Seq<char>);

    open spec fn view(&self) -> (Seq<char>, Seq<char>) {
        (self.name@, self.value@)
    }
}

impl DeepView for Header {
    type V = (Seq<char>, Seq<char>);

    open spec fn deep_view(&self) -> (Seq<char>, Seq<char>) {
        self@
    }
}

/// A line without its trailing carriage return.
pub open spec fn strip_cr(l: Seq<char>) -> Seq<char> {
    if l.len() > 0 && l.last() == '\r' {
        l.drop_last()
    } else {
        l
    }
}

/// A header line read as name and value: the name is the text before the
/// first `:`, the value the rest without surrounding white space; a line
/// without `:` is no header.
pub open spec fn header_of(line: Seq<char>) -> Option<(Seq<char>, Seq<char>)> {
    let k = find_from(line, ':', 0);
    if k >= line.len() {
        None
    } else {
        Some((line.take(k), trim_ws(line.skip(k + 1))))
    }
}

/// The headers on the lines from position `i` on, after `acc`; an empty
/// line ends the head.
pub open spec fn headers_from(lines: Seq<Seq<char>>, i: int, acc: Seq<(Seq<char>, Seq<char>)>) -> Seq<
    (Seq<char>, Seq<char>),
>
    decreases lines.len() - i,
{
    if i < 0 || i >= lines.len() || strip_cr(lines[i]).len() == 0 {
        acc
    } else {
        match header_of(strip_cr(lines[i])) {
            Some(h) => headers_from(lines, i + 1, acc.push(h)),
            None => headers_from(lines, i + 1, acc),
        }
    }
}

/// The headers of a request: the lines after the request line, up to the
/// first empty one.
pub open spec fn request_headers_spec(req: Seq<char>) -> Seq<(Seq<char>, Seq<char>)> {
    headers_from(split(req, '\n'), 1, seq![])
}

fn strip_cr_chars(l: &Vec<char>) -> (r: Vec<char>)
    ensures
        r@ == strip_cr(l@),
{
    if l.len() > 0 && l[l.len() - 1] == '\r' {
        let r = slice_chars(l, 0, l.len() - 1);
        assert(r@ =~= l@.drop_last());
        r
    } else {
        let r = slice_chars(l, 0, l.len());
        assert(r@ =~= l@);
        r
    }
}

/// The headers of a request.
pub fn request_headers(request: &str) -> (r: Vec<Header>)
    ensures
        r.deep_view() == request_headers_spec(request@),
{
    let all = chars_of(request);
    let lines = split_chars(&all, '\n');
    let ghost ls = lines.deep_view();
    let mut out: Vec<Header> = Vec::new();
    assert(out.deep_view() =~= Seq::<(Seq<char>, Seq<char>)>::empty());
    let mut i: usize = 1;
    while i < lines.len()
        invariant
            ls == lines.deep_view(),
            ls == split(request@, '\n'),
            1 <= i,
            headers_from(ls, 1, seq![]) == headers_from(ls, i as int, out.deep_view()),
        decreases lines.len() - i,
    {
        proof {
            lemma_chars_deep_view(&lines[i as int]);
        }
        let line = strip_cr_chars(&lines[i]);
        if line.len() == 0 {
            return out;
        }
        let k = find_char(&line, ':', 0);
        if k < line.len() {
            let name = slice_chars(&line, 0, k);
            let rest = slice_chars(&line, k + 1, line.len());
            assert(name@ =~= line@.take(k as int));
            assert(rest@ =~= line@.skip(k + 1));
            let value = trim_ws_chars(&rest);
            let h = Header { name: string_of(&name), value: string_of(&value) };
            let ghost before = out;
            let ghost h_copy = h;
            out.push(h);
            proof {
                lemma_push_deep_view(before, out, h_copy);
            }
        }
        i += 1;
    }
    out
}

/// `host`.
pub open spec fn host_word() -> Seq<char> {
    seq!['h', 'o', 's', 't']
}

/// `connection`.
pub open spec fn connection_word() -> Seq<char> {
    seq!['c', 'o', 'n', 'n', 'e', 'c', 't', 'i', 'o', 'n']
}

/// The value of the first header named `name` (compared without ASCII
/// case) from position `i` on.
pub open spec fn find_header(hs: Seq<(Seq<char>, Seq<char>)>, name: Seq<char>, i: int) -> Option<
    Seq<char>,
>
    decreases hs.len() - i,
{
    if i < 0 || i >= hs.len() {
        None
    } else if ascii_lower(hs[i].0) == name {
        Some(hs[i].1)
    } else {
        find_header(hs, name, i + 1)
    }
}

/// The host a `Host` value names: without a `:port` suffix, in ASCII
/// lowercase.
pub open spec fn host_name(v: Seq<char>) -> Seq<char> {
    let k = rfind_before(v, ':', v.len() as int);
    let port = v.skip(k + 1);
    if k >= 0 && port.len() > 0 && all_digits(port) {
        ascii_lower(v.take(k))
    } else {
        ascii_lower(v)
    }
}

/// A `Host` value names its host without the port and without ASCII
/// case: for a host holding no `:`, `<host>:<digits>` and `<host>` both
/// name the host in lowercase.
pub proof fn lemma_host_name_drops_port(h: Seq<char>, d: Seq<char>)
    requires
        forall|k: int| 0 <= k < h.len() ==> h[k] != ':',
        d.len() > 0,
        all_digits(d),
    ensures
        host_name(h + seq![':'] + d) == ascii_lower(h),
        host_name(h) == ascii_lower(h),
{
    let v = h + seq![':'] + d;
    lemma_rfind_before(v, ':', v.len() as int);
    let k = rfind_before(v, ':', v.len() as int);
    if k > h.len() {
        assert(v[k] == d[k - h.len() - 1]);
    }
    if k < h.len() {
        assert(v[h.len() as int] == ':');
    }
    assert(k == h.len());
    assert(v.skip(k + 1) =~= d);
    assert(v.take(k) =~= h);
    lemma_rfind_before(h, ':', h.len() as int);
}

/// The host a request names in its `Host` header, if it has one.
pub open spec fn request_host_spec(req: Seq<char>) -> Option<Seq<char>> {
    match find_header(request_headers_spec(req), host_word(), 0) {
        Some(v) => Some(host_name(v)),
        None => None,
    }
}

fn lower_vec(s: &Vec<char>) -> (r: Vec<char>)
    ensures
        r@ == ascii_lower(s@),
{
    let mut r: Vec<char> = Vec::new();
    let mut i: usize = 0;
    while i < s.len()
        invariant
            i <= s.len(),
            r@ == ascii_lower(s@).take(i as int),
        decreases s.len() - i,
    {
        let c = s[i];
        let l = if 'A' <= c && c <= 'Z' {
            ((c as u8) + 32) as char
        } else {
            c
        };
        assert(l == lower_char(c));
        r.push(l);
        i += 1;
        assert(r@ =~= ascii_lower(s@).take(i as int));
    }
    assert(ascii_lower(s@).take(s.len() as int) =~= ascii_lower(s@));
    r
}

/// Whether header `h` has the given name, without ASCII case.
fn header_named(h: &Header, name: &Vec<char>) -> (r: bool)
    ensures
        r == (ascii_lower(h.name@) == name@),
{
    let n = chars_of(h.name.as_str());
    let l = lower_vec(&n);
    chars_eq(&l, name)
}

fn host_chars() -> (r: Vec<char>)
    ensures
        r@ == host_word(),
{
    let mut r: Vec<char> = Vec::new();
    r.push('h');
    r.push('o');
    r.push('s');
    r.push('t');
    assert(r@ =~= host_word());
    r
}

fn connection_chars() -> (r: Vec<char>)
    ensures
        r@ == connection_word(),
{
    let mut r: Vec<char> = Vec::new();
    r.push('c');
    r.push('o');
    r.push('n');
    r.push('n');
    r.push('e');
    r.push('c');
    r.push('t');
    r.push('i');
    r.push('o');
    r.push('n');
    assert(r@ =~= connection_word());
    r
}

fn all_digit_chars(s: &Vec<char>) -> (r: bool)
    ensures
        r == all_digits(s@),
{
    let mut i: usize = 0;
    while i < s.len()
        invariant
            i <= s.len(),
            forall|j: int| 0 <= j < i ==> is_digit(#[trigger] s@[j]),
        decreases s.len() - i,
    {
        if !('0' <= s[i] && s[i] <= '9') {
            assert(!is_digit(s@[i as int]));
            return false;
        }
        i += 1;
    }
    true
}

/// The host a request names in its `Host` header (without port, in ASCII
/// lowercase), if it has one.
pub fn request_host(request: &str) -> (r: Option<String>)
    ensures
        match (r, request_host_spec(request@)) {
            (Some(h), Some(m)) => h@ == m,
            (None, None) => true,
            _ => false,
        },
{
    let hs = request_headers(request);
    let ghost hv = hs.deep_view();
    let host = host_chars();
    let mut i: usize = 0;
    while i < hs.len()
        invariant
            hv == hs.deep_view(),
            hv == request_headers_spec(request@),
            host@ == host_word(),
            i <= hs.len(),
            find_header(hv, host_word(), 0) == find_header(hv, host_word(), i as int),
        decreases hs.len() - i,
    {
        if header_named(&hs[i], &host) {
            let v = chars_of(hs[i].value.as_str());
            assert(hv[i as int].1 == v@);
            proof {
                lemma_rfind_before(v@, ':', v@.len() as int);
            }
            let result = match rfind_char(&v, ':') {
                Some(k) => {
                    let port = slice_chars(&v, k + 1, v.len());
                    assert(port@ =~= v@.skip(k + 1));
                    if port.len() > 0 && all_digit_chars(&port) {
                        let h = slice_chars(&v, 0, k);
                        assert(h@ =~= v@.take(k as int));
                        lower_vec(&h)
                    } else {
                        lower_vec(&v)
                    }
                },
                None => lower_vec(&v),
            };
            return Some(string_of(&result));
        }
        i += 1;
    }
    None
}

// ---------------------------------------------------------------------------
// Choosing a server
// ---------------------------------------------------------------------------

/// The first server from position `i` on that listens on `listen` and
/// names `host`.
pub open spec fn first_named(s: Seq<ServerModel>, listen: Seq<char>, host: Seq<char>, i: int) -> Option<
    int,
>
    decreases s.len() - i,
{
    if i < 0 || i >= s.len() {
        None
    } else if s[i].listen == listen && s[i].server_names.contains(host) {
        Some(i)
    } else {
        first_named(s, listen, host, i + 1)
    }
}

/// The first server from position `i` on that listens on `listen` and names
/// no host.
pub open spec fn first_default(s: Seq<ServerModel>, listen: Seq<char>, i: int) -> Option<int>
    decreases s.len() - i,
{
    if i < 0 || i >= s.len() {
        None
    } else if s[i].listen == listen && s[i].server_names.len() == 0 {
        Some(i)
    } else {
        first_default(s, listen, i + 1)
    }
}

/// The first server from position `i` on that listens on `listen`.
pub open spec fn first_on(s: Seq<ServerModel>, listen: Seq<char>, i: int) -> Option<int>
    decreases s.len() - i,
{
    if i < 0 || i >= s.len() {
        None
    } else if s[i].listen == listen {
        Some(i)
    } else {
        first_on(s, listen, i + 1)
    }
}

/// The server that answers a request on `listen` for `host`: the first one
/// on that address naming the host; else the address's default server (the
/// one naming no host); else the first server on the address.
pub open spec fn select_server_spec(s: Seq<ServerModel>, listen: Seq<char>, host: Option<Seq<char>>) -> Option<
    int,
> {
    let named = match host {
        Some(h) => first_named(s, listen, h, 0),
        None => None,
    };
    if named is Some {
        named
    } else if first_default(s, listen, 0) is Some {
        first_default(s, listen, 0)
    } else {
        first_on(s, listen, 0)
    }
}

fn names_host(names: &Vec<String>, host: &String) -> (r: bool)
    ensures
        r == names.deep_view().contains(host@),
{
    let mut j: usize = 0;
    while j < names.len()
        invariant
            j <= names.len(),
            forall|k: int| 0 <= k < j ==> names.deep_view()[k] != host@,
        decreases names.len() - j,
    {
        if names[j] == *host {
            assert(names.deep_view()[j as int] == host@);
            return true;
        }
        j += 1;
    }
    false
}

/// The position of the server that answers a request on `listen` for
/// `host` (see [`select_server_spec`]).
pub fn select_server(servers: &Vec<ServerConfig>, listen: &String, host: &Option<String>) -> (r: Option<
    usize,
>)
    ensures
        match (r, select_server_spec(
            servers.deep_view(),
            listen@,
            match host {
                Some(h) => Some(h@),
                None => None,
            },
        )) {
            (Some(i), Some(j)) => i as int == j,
            (None, None) => true,
            _ => false,
        },
        r matches Some(i) ==> i < servers.len(),
{
    let ghost s = servers.deep_view();
    let ghost hm: Option<Seq<char>> = match host {
        Some(h) => Some(h@),
        None => None,
    };
    if let Some(h) = host {
        let mut i: usize = 0;
        while i < servers.len()
            invariant
                s == servers.deep_view(),
                i <= servers.len(),
                first_named(s, listen@, h@, 0) == first_named(s, listen@, h@, i as int),
                hm == Some(h@),
                hm == match host {
                    Some(x) => Some(x@),
                    None => None::<Seq<char>>,
                },
            decreases servers.len() - i,
        {
            assert(s[i as int] == servers[i as int]@);
            if servers[i].listen == *listen && names_host(&servers[i].server_names, h) {
                assert(s[i as int].listen == listen@);
                assert(s[i as int].server_names.contains(h@));
                return Some(i);
            }
            i += 1;
        }
        assert(first_named(s, listen@, h@, 0) is None);
    }
    let ghost named_none = match hm {
        Some(hh) => first_named(s, listen@, hh, 0) is None,
        None => true,
    };
    assert(named_none);
    let mut i: usize = 0;
    while i < servers.len()
        invariant
            s == servers.deep_view(),
            i <= servers.len(),
            named_none,
            named_none == match hm {
                Some(hh) => first_named(s, listen@, hh, 0) is None,
                None => true,
            },
            hm == match host {
                Some(h) => Some(h@),
                None => None::<Seq<char>>,
            },
            first_default(s, listen@, 0) == first_default(s, listen@, i as int),
        decreases servers.len() - i,
    {
        assert(s[i as int] == servers[i as int]@);
        if servers[i].listen == *listen && servers[i].server_names.len() == 0 {
            return Some(i);
        }
        i += 1;
    }
    let mut i: usize = 0;
    while i < servers.len()
        invariant
            s == servers.deep_view(),
            i <= servers.len(),
            named_none,
            named_none == match hm {
                Some(hh) => first_named(s, listen@, hh, 0) is None,
                None => true,
            },
            hm == match host {
                Some(h) => Some(h@),
                None => None::<Seq<char>>,
            },
            first_default(s, listen@, 0) is None,
            first_on(s, listen@, 0) == first_on(s, listen@, i as int),
        decreases servers.len() - i,
    {
        assert(s[i as int] == servers[i as int]@);
        if servers[i].listen == *listen {
            return Some(i);
        }
        i += 1;
    }
    None
}

proof fn lemma_first_named_reaches(s: Seq<ServerModel>, listen: Seq<char>, host: Seq<char>, k: int, i: int)
    requires
        0 <= k <= i < s.len(),
        s[i].listen == listen,
        s[i].server_names.contains(host),
    ensures
        first_named(s, listen, host, k) matches Some(j) && k <= j <= i && s[j].listen == listen
            && s[j].server_names.contains(host),
    decreases i - k,
{
    if !(s[k].listen == listen && s[k].server_names.contains(host)) {
        lemma_first_named_reaches(s, listen, host, k + 1, i);
    }
}

proof fn lemma_first_named_none(s: Seq<ServerModel>, listen: Seq<char>, host: Seq<char>, k: int)
    requires
        0 <= k <= s.len(),
        forall|i: int|
            0 <= i < s.len() ==> !((#[trigger] s[i]).listen == listen && s[i].server_names.contains(
                host,
            )),
    ensures
        first_named(s, listen, host, k) is None,
    decreases s.len() - k,
{
    if k < s.len() {
        lemma_first_named_none(s, listen, host, k + 1);
    }
}

proof fn lemma_first_default_reaches(s: Seq<ServerModel>, listen: Seq<char>, k: int, d: int)
    requires
        0 <= k <= d < s.len(),
        s[d].listen == listen,
        s[d].server_names.len() == 0,
    ensures
        first_default(s, listen, k) matches Some(j) && k <= j <= d && s[j].listen == listen
            && s[j].server_names.len() == 0,
    decreases d - k,
{
    if !(s[k].listen == listen && s[k].server_names.len() == 0) {
        lemma_first_default_reaches(s, listen, k + 1, d);
    }
}

/// In an accepted configuration, a request whose host a server on its
/// address names goes to that server.
pub proof fn lemma_named_server_chosen(s: Seq<ServerModel>, listen: Seq<char>, host: Seq<char>, i: int)
    requires
        config_well_formed(s),
        0 <= i < s.len(),
        s[i].listen == listen,
        s[i].server_names.contains(host),
    ensures
        select_server_spec(s, listen, Some(host)) == Some(i),
{
    lemma_first_named_reaches(s, listen, host, 0, i);
    let j = first_named(s, listen, host, 0)->0;
    if j != i {
        let n = choose|n: int| 0 <= n < s[j].server_names.len() && s[j].server_names[n] == host;
        let m = choose|m: int| 0 <= m < s[i].server_names.len() && s[i].server_names[m] == host;
        assert((j, n) != (i, m));
        assert(s[j].server_names[n] != s[i].server_names[m]);
    }
}

/// In an accepted configuration, a request whose host no server on its
/// address names (or that names no host) goes to the address's default
/// server, the one that names no host.
pub proof fn lemma_default_server_chosen(
    s: Seq<ServerModel>,
    listen: Seq<char>,
    host: Option<Seq<char>>,
    d: int,
)
    requires
        config_well_formed(s),
        0 <= d < s.len(),
        s[d].listen == listen,
        s[d].server_names.len() == 0,
        host matches Some(h) ==> forall|i: int|
            0 <= i < s.len() ==> !((#[trigger] s[i]).listen == listen
                && s[i].server_names.contains(h)),
    ensures
        select_server_spec(s, listen, host) == Some(d),
{
    if let Some(h) = host {
        lemma_first_named_none(s, listen, h, 0);
    }
    lemma_first_default_reaches(s, listen, 0, d);
    let j = first_default(s, listen, 0)->0;
    if j != d {
        if j < d {
            assert(s[j].listen != s[d].listen);
        }
    }
}

// ---------------------------------------------------------------------------
// Choosing a location
// ---------------------------------------------------------------------------

/// Whether a location path covers a request path: `/` covers every path;
/// any other covers itself and the paths below it (the next character after
/// the prefix is `/`).
pub open spec fn location_matches(lp: Seq<char>, path: Seq<char>) -> bool {
    ||| lp == seq!['/']
    ||| lp == path
    ||| (lp.is_prefix_of(path) && path.len() > lp.len() && path[lp.len() as int] == '/')
}

/// The longest location covering `path`, among the locations from position
/// `i` on and the best one found so far.
pub open spec fn best_location_from(
    locs: Seq<LocationModel>,
    path: Seq<char>,
    i: int,
    best: Option<int>,
) -> Option<int>
    decreases locs.len() - i,
{
    if i < 0 || i >= locs.len() {
        best
    } else {
        let better = location_matches(locs[i].path, path) && match best {
            None => true,
            Some(b) => locs[i].path.len() > locs[b].path.len(),
        };
        best_location_from(
            locs,
            path,
            i + 1,
            if better {
                Some(i)
            } else {
                best
            },
        )
    }
}

/// The longest location covering `path`.
pub open spec fn select_location_spec(locs: Seq<LocationModel>, path: Seq<char>) -> Option<int> {
    best_location_from(locs, path, 0, None)
}

/// What `best` means after the first `i` locations.
pub open spec fn best_so_far(
    locs: Seq<LocationModel>,
    path: Seq<char>,
    i: int,
    best: Option<int>,
) -> bool {
    match best {
        Some(b) => {
            &&& 0 <= b < i
            &&& location_matches(locs[b].path, path)
            &&& forall|j: int|
                0 <= j < i && location_matches(#[trigger] locs[j].path, path) ==> locs[j].path.len()
                    <= locs[b].path.len()
        },
        None => forall|j: int| 0 <= j < i ==> !location_matches(#[trigger] locs[j].path, path),
    }
}

proof fn lemma_best_location(locs: Seq<LocationModel>, path: Seq<char>, i: int, best: Option<int>)
    requires
        0 <= i <= locs.len(),
        best_so_far(locs, path, i, best),
    ensures
        best_so_far(locs, path, locs.len() as int, best_location_from(locs, path, i, best)),
    decreases locs.len() - i,
{
    if i < locs.len() {
        let better = location_matches(locs[i].path, path) && match best {
            None => true,
            Some(b) => locs[i].path.len() > locs[b].path.len(),
        };
        let next = if better {
            Some(i)
        } else {
            best
        };
        assert(best_so_far(locs, path, i + 1, next));
        lemma_best_location(locs, path, i + 1, next);
    }
}

/// The chosen location covers the path, and no location covering it is
/// longer; when none is chosen, no location covers it.
pub proof fn lemma_select_location_longest(locs: Seq<LocationModel>, path: Seq<char>)
    ensures
        best_so_far(locs, path, locs.len() as int, select_location_spec(locs, path)),
{
    lemma_best_location(locs, path, 0, None);
}

fn location_matches_chars(lp: &Vec<char>, path: &Vec<char>) -> (r: bool)
    ensures
        r == location_matches(lp@, path@),
{
    let is_root = lp.len() == 1 && lp[0] == '/';
    assert(is_root == (lp@ == seq!['/'])) by {
        if lp@ == seq!['/'] {
            assert(lp@[0] == '/');
        }
        if is_root {
            assert(lp@ =~= seq!['/']);
        }
    }
    is_root || chars_eq(lp, path) || (starts_with_chars(path, lp) && path.len() > lp.len()
        && path[lp.len()] == '/')
}

/// The position of the longest location covering `path`.
pub fn select_location(locations: &Vec<LocationConfig>, path: &Vec<char>) -> (r: Option<usize>)
    ensures
        match (r, select_location_spec(locations.deep_view(), path@)) {
            (Some(i), Some(j)) => i as int == j,
            (None, None) => true,
            _ => false,
        },
        r matches Some(i) ==> i < locations.len(),
        best_so_far(
            locations.deep_view(),
            path@,
            locations.deep_view().len() as int,
            select_location_spec(locations.deep_view(), path@),
        ),
{
    proof {
        lemma_select_location_longest(locations.deep_view(), path@);
    }
    let ghost ls = locations.deep_view();
    let mut best: Option<usize> = None;
    let mut best_len: usize = 0;
    let mut i: usize = 0;
    while i < locations.len()
        invariant
            ls == locations.deep_view(),
            i <= locations.len(),
            best matches Some(b) ==> b < i && best_len == ls[b as int].path.len(),
            best_location_from(ls, path@, 0, None) == best_location_from(
                ls,
                path@,
                i as int,
                match best {
                    Some(b) => Some(b as int),
                    None => None,
                },
            ),
        decreases locations.len() - i,
    {
        let lp = chars_of(locations[i].path.as_str());
        assert(ls[i as int].path == lp@);
        if location_matches_chars(&lp, path) && (best.is_none() || lp.len() > best_len) {
            best = Some(i);
            best_len = lp.len();
        }
        i += 1;
    }
    best
}

/// The request path a location passes on: `/` passes the whole path; any
/// other location strips its own prefix.
pub open spec fn location_rest(lp: Seq<char>, path: Seq<char>) -> Seq<char> {
    if lp == seq!['/'] {
        path
    } else {
        path.skip(lp.len() as int)
    }
}


/// Below a location other than `/`, the path a static root sees is what
/// follows the location's prefix: the prefix and it make up the request
/// path again, and it is empty or starts a new segment.
pub proof fn lemma_location_rest_restores(lp: Seq<char>, path: Seq<char>)
    requires
        location_matches(lp, path),
        lp != seq!['/'],
    ensures
        lp + location_rest(lp, path) == path,
        location_rest(lp, path).len() == 0 || location_rest(lp, path)[0] == '/',
{
    if lp != path {
        assert(lp.is_prefix_of(path));
        assert(lp + path.skip(lp.len() as int) =~= path);
    } else {
        assert(path.skip(lp.len() as int) =~= Seq::<char>::empty());
        assert(lp + Seq::<char>::empty() =~= path);
    }
}

fn location_rest_chars(lp: &Vec<char>, path: &Vec<char>) -> (r: Vec<char>)
    requires
        location_matches(lp@, path@),
    ensures
        r@ == location_rest(lp@, path@),
{
    if lp.len() == 1 && lp[0] == '/' {
        assert(lp@ =~= seq!['/']);
        let r = slice_chars(path, 0, path.len());
        assert(r@ =~= path@);
        r
    } else {
        assert(lp@ != seq!['/']) by {
            if lp@ == seq!['/'] {
                assert(lp@[0] == '/');
            }
        }
        assert(lp.len() <= path.len()) by {
            if !(lp@ == path@) {
                assert(lp@.is_prefix_of(path@));
            }
        }
        let r = slice_chars(path, lp.len(), path.len());
        assert(r@ =~= path@.skip(lp.len() as int));
        r
    }
}

// ---------------------------------------------------------------------------
// Proxying
// ---------------------------------------------------------------------------

/// The query of a request target: from its first `?` up to its first `#`;
/// empty when it has none.
pub open spec fn query_part(t: Seq<char>) -> Seq<char> {
    let q = t.take(find_from(t, '#', 0));
    q.skip(find_from(q, '?', 0))
}

/// The query forwarded upstream is the request's whole query: for a path
/// without `?` or `#` and a query without `#`, the query part of
/// `<path>?<query>` is `?<query>`, and a path alone has none.
pub proof fn lemma_query_part_is_whole_query(p: Seq<char>, q: Seq<char>)
    requires
        forall|k: int| 0 <= k < p.len() ==> p[k] != '?' && p[k] != '#',
        forall|k: int| 0 <= k < q.len() ==> q[k] != '#',
    ensures
        query_part(p + seq!['?'] + q) == seq!['?'] + q,
        query_part(p) == Seq::<char>::empty(),
{
    let t = p + seq!['?'] + q;
    lemma_find_from(t, '#', 0);
    let fh = find_from(t, '#', 0);
    if fh < t.len() {
        if fh < p.len() {
            assert(t[fh] == p[fh]);
        } else if fh > p.len() {
            assert(t[fh] == q[fh - p.len() - 1]);
        }
    }
    assert(fh == t.len());
    assert(t.take(fh) =~= t);
    lemma_find_from(t, '?', 0);
    let fq = find_from(t, '?', 0);
    if fq < p.len() {
        assert(t[fq] == p[fq]);
    }
    if fq > p.len() {
        assert(t[p.len() as int] == '?');
    }
    assert(fq == p.len());
    assert(t.skip(fq) =~= seq!['?'] + q);
    lemma_find_from(p, '#', 0);
    assert(p.take(find_from(p, '#', 0)) =~= p);
    lemma_find_from(p, '?', 0);
    assert(p.skip(find_from(p, '?', 0)) =~= Seq::<char>::empty());
}

/// The upstream path for what is left of a request path below a location:
/// the base path when nothing is left, what is left when the base is `/`,
/// and else the base followed by what is left.
pub open spec fn proxy_path(base: Seq<char>, rest: Seq<char>) -> Seq<char> {
    if rest.len() == 0 {
        base
    } else if base == seq!['/'] {
        rest
    } else {
        base + rest
    }
}

/// The upstream path is the base path followed by what is left of the
/// request path, with no `/` doubled when the base is `/`: it ends with
/// what is left, and starts with the base unless the base is `/` and
/// something is left.
pub proof fn lemma_proxy_path_joins(base: Seq<char>, rest: Seq<char>)
    ensures
        rest.is_suffix_of(proxy_path(base, rest)),
        !(base == seq!['/'] && rest.len() > 0) ==> base.is_prefix_of(proxy_path(base, rest)),
        base == seq!['/'] && rest.len() > 0 ==> proxy_path(base, rest).len() == rest.len(),
        !(base == seq!['/']) && rest.len() > 0 ==> proxy_path(base, rest).len() == base.len()
            + rest.len(),
        rest.len() == 0 ==> proxy_path(base, rest) == base,
{
    let r = proxy_path(base, rest);
    if rest.len() == 0 {
        assert(r.skip(r.len() as int) =~= rest);
        assert(r.take(base.len() as int) =~= base);
    } else if base == seq!['/'] {
        assert(r.skip(0) =~= rest);
    } else {
        assert(r.skip(base.len() as int) =~= rest);
        assert(r.take(base.len() as int) =~= base);
    }
}

/// The header lines passed upstream: every header but `Host` and
/// `Connection`, in order, as `name: value`.
pub open spec fn forwarded_headers(hs: Seq<(Seq<char>, Seq<char>)>) -> Seq<char>
    decreases hs.len(),
{
    if hs.len() == 0 {
        seq![]
    } else {
        let h = hs.last();
        let prev = forwarded_headers(hs.drop_last());
        if ascii_lower(h.0) == host_word() || ascii_lower(h.0) == connection_word() {
            prev
        } else {
            prev + h.0 + ": "@ + h.1 + "\r\n"@
        }
    }
}

/// The request head sent upstream: the request line with the rewritten
/// target, the forwarded headers, then the upstream's `Host` and a
/// `Connection: close`.
pub open spec fn proxy_head_spec(
    method: Seq<char>,
    target: Seq<char>,
    authority: Seq<char>,
    hs: Seq<(Seq<char>, Seq<char>)>,
) -> Seq<char> {
    method + " "@ + target + " HTTP/1.1\r\n"@ + forwarded_headers(hs) + "Host: "@ + authority
        + "\r\nConnection: close\r\n\r\n"@
}

fn query_chars(t: &Vec<char>) -> (r: Vec<char>)
    ensures
        r@ == query_part(t@),
{
    let h = find_char(t, '#', 0);
    let q = slice_chars(t, 0, h);
    assert(q@ =~= t@.take(find_from(t@, '#', 0)));
    let k = find_char(&q, '?', 0);
    let r = slice_chars(&q, k, q.len());
    assert(r@ =~= q@.skip(find_from(q@, '?', 0)));
    r
}

fn proxy_path_chars(base: &Vec<char>, rest: &Vec<char>) -> (r: Vec<char>)
    ensures
        r@ == proxy_path(base@, rest@),
{
    if rest.len() == 0 {
        let r = slice_chars(base, 0, base.len());
        assert(r@ =~= base@);
        r
    } else if base.len() == 1 && base[0] == '/' {
        assert(base@ =~= seq!['/']);
        let r = slice_chars(rest, 0, rest.len());
        assert(r@ =~= rest@);
        r
    } else {
        assert(base@ != seq!['/']) by {
            if base@ == seq!['/'] {
                assert(base@[0] == '/');
            }
        }
        let mut r = slice_chars(base, 0, base.len());
        assert(r@ =~= base@);
        append_chars(&mut r, rest);
        r
    }
}

fn forwarded_headers_text(hs: &Vec<Header>) -> (r: String)
    ensures
        r@ == forwarded_headers(hs.deep_view()),
{
    let ghost hv = hs.deep_view();
    let host = host_chars();
    let conn = connection_chars();
    let mut out = String::new();
    let mut i: usize = 0;
    assert(hv.take(0) =~= Seq::<(Seq<char>, Seq<char>)>::empty());
    while i < hs.len()
        invariant
            i <= hs.len(),
            hv == hs.deep_view(),
            host@ == host_word(),
            conn@ == connection_word(),
            out@ == forwarded_headers(hv.take(i as int)),
        decreases hs.len() - i,
    {
        assert(hv.take(i + 1).drop_last() =~= hv.take(i as int));
        assert(hv.take(i + 1).last() == hv[i as int]);
        assert(hv[i as int] == hs[i as int]@);
        if !header_named(&hs[i], &host) && !header_named(&hs[i], &conn) {
            out.append(hs[i].name.as_str());
            out.append(": ");
            out.append(hs[i].value.as_str());
            out.append("\r\n");
        }
        i += 1;
    }
    assert(hv.take(hs.len() as int) =~= hv);
    out
}

/// The request head to send upstream for a request with `method`, the
/// rewritten `target` and headers `hs`, to the upstream at `authority`.
pub fn proxy_head(method: &str, target: &str, authority: &str, hs: &Vec<Header>) -> (r: String)
    ensures
        r@ == proxy_head_spec(method@, target@, authority@, hs.deep_view()),
{
    let mut h = String::from_str(method);
    h.append(" ");
    h.append(target);
    h.append(" HTTP/1.1\r\n");
    let fwd = forwarded_headers_text(hs);
    h.append(fwd.as_str());
    h.append("Host: ");
    h.append(authority);
    h.append("\r\nConnection: close\r\n\r\n");
    h
}


// ---------------------------------------------------------------------------
// Routing a request
// ---------------------------------------------------------------------------

/// What to do with a request in configuration mode.
#[derive(Debug)]
pub enum SiteRoute {
    /// Nothing was received: close without a reply.
    Ignore,
    /// Reply at once with this status and plain-text message.
    Reply { status: String, message: String },
    /// Serve the first of these files below `root` that is found (see
    /// [`crate::server::select_candidate`]), else reply that none was found.
    Static { root: String, candidates: Vec<String> },
    /// Send `head` (then the request body) to the upstream at `host:port`
    /// and relay its answer.
    Proxy { host: String, port: u16, head: String },
}

pub enum SiteRouteModel {
    Ignore,
    Reply { status: Seq<char>, message: Seq<char> },
    Static { root: Seq<char>, candidates: Seq<Seq<char>> },
    Proxy { host: Seq<char>, port: u16, head: Seq<char> },
}

impl View for SiteRoute {
    type V = SiteRouteModel;

    open spec fn view(&self) -> SiteRouteModel {
        match self {
            SiteRoute::Ignore => SiteRouteModel::Ignore,
            SiteRoute::Reply { status, message } => SiteRouteModel::Reply {
                status: status@,
                message: message@,
            },
            SiteRoute::Static { root, candidates } => SiteRouteModel::Static {
                root: root@,
                candidates: candidates.deep_view(),
            },
            SiteRoute::Proxy { host, port, head } => SiteRouteModel::Proxy {
                host: host@,
                port: *port,
                head: head@,
            },
        }
    }
}

/// What a chosen location does with a request: a static root serves only
/// `GET`, and names the files for the path below the location (refusing a
/// path that tries to leave the root); a proxy forwards the request with
/// its path rewritten below the upstream's base path and its query kept.
pub open spec fn location_route_spec(
    loc: LocationModel,
    method: Seq<char>,
    target: Seq<char>,
    req: Seq<char>,
) -> SiteRouteModel {
    let rest = location_rest(loc.path, request_target(target));
    match loc.handler {
        HandlerModel::Static { root } => {
            if method != "GET"@ {
                SiteRouteModel::Reply {
                    status: "405 Method Not Allowed"@,
                    message: "Only GET requests are supported."@,
                }
            } else {
                match candidates_with_index(root, rest, loc.index) {
                    None => SiteRouteModel::Reply {
                        status: "400 Bad Request"@,
                        message: "Invalid request path."@,
                    },
                    Some(c) => SiteRouteModel::Static { root, candidates: c },
                }
            }
        },
        HandlerModel::Proxy { upstream } => SiteRouteModel::Proxy {
            host: upstream.host,
            port: upstream.port,
            head: proxy_head_spec(
                method,
                proxy_path(upstream.base_path, rest) + query_part(target),
                authority_spec(upstream),
                request_headers_spec(req),
            ),
        },
    }
}

/// What to do with a request's text arriving on `listen`: a request without
/// a method and target is malformed; the server is chosen by the `Host`
/// header (see [`select_server_spec`]) and the location by the longest
/// prefix of the path (see [`select_location_spec`]), and either may be
/// missing; the location then decides.
pub open spec fn site_route_spec(servers: Seq<ServerModel>, listen: Seq<char>, req: Seq<char>) -> SiteRouteModel {
    match request_line_spec(req) {
        None => SiteRouteModel::Reply {
            status: "400 Bad Request"@,
            message: "Malformed HTTP request."@,
        },
        Some((method, target)) => match select_server_spec(servers, listen, request_host_spec(req)) {
            None => SiteRouteModel::Reply {
                status: "404 Not Found"@,
                message: "No server is configured for this address."@,
            },
            Some(si) => match select_location_spec(servers[si].locations, request_target(target)) {
                None => SiteRouteModel::Reply {
                    status: "404 Not Found"@,
                    message: "No location matches this path."@,
                },
                Some(li) => location_route_spec(servers[si].locations[li], method, target, req),
            },
        },
    }
}

fn site_reply(status: &str, message: &str) -> (r: SiteRoute)
    ensures
        r@ == (SiteRouteModel::Reply { status: status@, message: message@ }),
{
    SiteRoute::Reply { status: String::from_str(status), message: String::from_str(message) }
}

fn target_path_chars(t: &Vec<char>) -> (r: Vec<char>)
    ensures
        r@ == request_target(t@),
{
    let q_end = find_char(t, '?', 0);
    let q = slice_chars(t, 0, q_end);
    assert(q@ =~= t@.take(find_from(t@, '?', 0)));
    let h_end = find_char(&q, '#', 0);
    let r = slice_chars(&q, 0, h_end);
    assert(r@ =~= q@.take(find_from(q@, '#', 0)));
    r
}

fn route_location(loc: &LocationConfig, method: &String, target: &Vec<char>, request: &str) -> (r:
    SiteRoute)
    requires
        location_matches(loc.path@, request_target(target@)),
    ensures
        r@ == location_route_spec(loc@, method@, target@, request@),
{
    let path = target_path_chars(target);
    let lp = chars_of(loc.path.as_str());
    let rest = location_rest_chars(&lp, &path);
    match &loc.handler {
        LocationHandler::Static { root } => {
            let get = String::from_str("GET");
            if !(*method == get) {
                site_reply("405 Method Not Allowed", "Only GET requests are supported.")
            } else {
                let rest_s = string_of(&rest);
                match location_candidates(root.as_str(), rest_s.as_str(), &loc.index) {
                    Err(_) => site_reply("400 Bad Request", "Invalid request path."),
                    Ok(c) => SiteRoute::Static { root: root.clone(), candidates: c },
                }
            }
        },
        LocationHandler::Proxy { upstream } => {
            let base = chars_of(upstream.base_path.as_str());
            let mut t = proxy_path_chars(&base, &rest);
            let q = query_chars(target);
            append_chars(&mut t, &q);
            let ts = string_of(&t);
            let authority = upstream.authority();
            let headers = request_headers(request);
            let head = proxy_head(method.as_str(), ts.as_str(), authority.as_str(), &headers);
            SiteRoute::Proxy { host: upstream.host.clone(), port: upstream.port, head }
        },
    }
}

/// What to do with a request's text arriving on `listen`.
pub fn route_site_text(config: &LoomisConfig, listen: &str, request: &str) -> (r: SiteRoute)
    ensures
        r@ == site_route_spec(config@, listen@, request@),
{
    match parse_request_line(request) {
        None => site_reply("400 Bad Request", "Malformed HTTP request."),
        Some((method, target)) => {
            let t = chars_of(target.as_str());
            let path = target_path_chars(&t);
            let host = request_host(request);
            let listen_s = String::from_str(listen);
            match select_server(&config.servers, &listen_s, &host) {
                None => site_reply("404 Not Found", "No server is configured for this address."),
                Some(si) => {
                    let server = &config.servers[si];
                    assert(config@[si as int] == server@);
                    match select_location(&server.locations, &path) {
                        None => site_reply("404 Not Found", "No location matches this path."),
                        Some(li) => {
                            assert(server@.locations[li as int] == server.locations[li as int]@);
                            proof {
                                lemma_select_location_longest(server@.locations, path@);
                            }
                            route_location(&server.locations[li], &method, &t, request)
                        },
                    }
                },
            }
        },
    }
}

/// What to do with the bytes received on a connection to `listen`: nothing
/// when none came; else they are read as UTF-8 (invalid sequences
/// replaced) and routed.
pub fn route_site_request(config: &LoomisConfig, listen: &str, request: &[u8]) -> (r: SiteRoute)
    ensures
        request@.len() == 0 ==> r@ == SiteRouteModel::Ignore,
        request@.len() > 0 ==> r@ == site_route_spec(config@, listen@, utf8_lossy(request@)),
{
    if request.len() == 0 {
        return SiteRoute::Ignore;
    }
    let text = decode_lossy(request);
    route_site_text(config, listen, text.as_str())
}


// ---------------------------------------------------------------------------
// Listeners and logs
// ---------------------------------------------------------------------------

/// The listen addresses of the servers from position `i` on that are not in
/// `acc` yet, added to `acc` in order of first occurrence.
pub open spec fn listens_from(s: Seq<ServerModel>, i: int, acc: Seq<Seq<char>>) -> Seq<Seq<char>>
    decreases s.len() - i,
{
    if i < 0 || i >= s.len() {
        acc
    } else if acc.contains(s[i].listen) {
        listens_from(s, i + 1, acc)
    } else {
        listens_from(s, i + 1, acc.push(s[i].listen))
    }
}

/// The addresses to listen on: each server's listen address, once, in
/// order of first occurrence.
pub open spec fn listen_addresses_spec(s: Seq<ServerModel>) -> Seq<Seq<char>> {
    listens_from(s, 0, seq![])
}

/// Whether `x` is the listen address of one of the servers.
pub open spec fn is_listen_of(s: Seq<ServerModel>, x: Seq<char>) -> bool {
    exists|j: int| 0 <= j < s.len() && #[trigger] s[j].listen == x
}

proof fn lemma_listens_from(s: Seq<ServerModel>, i: int, acc: Seq<Seq<char>>)
    requires
        0 <= i <= s.len(),
        forall|j: int, k: int| 0 <= j < k < acc.len() ==> acc[j] != acc[k],
        forall|k: int| 0 <= k < acc.len() ==> is_listen_of(s, #[trigger] acc[k]),
        forall|j: int| 0 <= j < i ==> acc.contains(#[trigger] s[j].listen),
    ensures
        forall|j: int, k: int|
            0 <= j < k < listens_from(s, i, acc).len() ==> listens_from(s, i, acc)[j]
                != listens_from(s, i, acc)[k],
        forall|k: int|
            0 <= k < listens_from(s, i, acc).len() ==> is_listen_of(
                s,
                #[trigger] listens_from(s, i, acc)[k],
            ),
        forall|j: int| 0 <= j < s.len() ==> listens_from(s, i, acc).contains(#[trigger] s[j].listen),
    decreases s.len() - i,
{
    if i < s.len() {
        if acc.contains(s[i].listen) {
            lemma_listens_from(s, i + 1, acc);
        } else {
            let a2 = acc.push(s[i].listen);
            assert forall|j: int, k: int| 0 <= j < k < a2.len() implies a2[j] != a2[k] by {
                if k == acc.len() {
                    assert(acc[j] == a2[j]);
                    if a2[j] == a2[k] {
                        assert(acc.contains(s[i].listen));
                    }
                }
            }
            assert forall|k: int| 0 <= k < a2.len() implies is_listen_of(s, #[trigger] a2[k]) by {
                if k < acc.len() {
                    assert(a2[k] == acc[k]);
                } else {
                    assert(s[i].listen == a2[k]);
                }
            }
            assert forall|j: int| 0 <= j < i + 1 implies a2.contains(#[trigger] s[j].listen) by {
                if j < i {
                    let m = choose|m: int| 0 <= m < acc.len() && acc[m] == s[j].listen;
                    assert(a2[m] == acc[m]);
                } else {
                    assert(a2[acc.len() as int] == s[i].listen);
                }
            }
            lemma_listens_from(s, i + 1, a2);
        }
    }
}

/// Every server's listen address is listened on, once: each one is in the
/// list, each entry is some server's address, and no entry repeats.
pub proof fn lemma_listen_addresses_each_once(s: Seq<ServerModel>)
    ensures
        forall|i: int| 0 <= i < s.len() ==> listen_addresses_spec(s).contains(#[trigger] s[i].listen),
        forall|k: int|
            0 <= k < listen_addresses_spec(s).len() ==> is_listen_of(
                s,
                #[trigger] listen_addresses_spec(s)[k],
            ),
        forall|j: int, k: int|
            0 <= j < k < listen_addresses_spec(s).len() ==> listen_addresses_spec(s)[j]
                != listen_addresses_spec(s)[k],
{
    lemma_listens_from(s, 0, seq![]);
}

fn contains_string(v: &Vec<String>, x: &String) -> (r: bool)
    ensures
        r == v.deep_view().contains(x@),
{
    let mut j: usize = 0;
    while j < v.len()
        invariant
            j <= v.len(),
            forall|k: int| 0 <= k < j ==> v.deep_view()[k] != x@,
        decreases v.len() - j,
    {
        if v[j] == *x {
            assert(v.deep_view()[j as int] == x@);
            return true;
        }
        j += 1;
    }
    false
}

/// The addresses to listen on for a configuration.
pub fn listen_addresses(config: &LoomisConfig) -> (r: Vec<String>)
    ensures
        r.deep_view() == listen_addresses_spec(config@),
{
    let ghost s = config@;
    let mut out: Vec<String> = Vec::new();
    assert(out.deep_view() =~= Seq::<Seq<char>>::empty());
    let mut i: usize = 0;
    while i < config.servers.len()
        invariant
            s == config.servers.deep_view(),
            i <= config.servers.len(),
            listens_from(s, 0, seq![]) == listens_from(s, i as int, out.deep_view()),
        decreases config.servers.len() - i,
    {
        assert(s[i as int] == config.servers[i as int]@);
        if !contains_string(&out, &config.servers[i].listen) {
            let l = config.servers[i].listen.clone();
            let ghost before = out;
            let ghost lc = l;
            out.push(l);
            proof {
                lemma_push_deep_view(before, out, lc);
            }
        }
        i += 1;
    }
    out
}

/// An access log line: host, quoted request line, status, time taken in
/// milliseconds, and the upstream (`-` for none).
pub open spec fn access_log_spec(
    host: Seq<char>,
    method: Seq<char>,
    target: Seq<char>,
    status: Seq<char>,
    millis: nat,
    upstream: Option<Seq<char>>,
) -> Seq<char> {
    host + " \""@ + method + " "@ + target + "\" "@ + status + " "@ + decimal(millis) + "ms upstream="@
        + match upstream {
        Some(u) => u,
        None => "-"@,
    }
}

/// The access log line for one request.
pub fn access_log_line(
    host: &str,
    method: &str,
    target: &str,
    status: &str,
    millis: u64,
    upstream: &Option<String>,
) -> (r: String)
    ensures
        r@ == access_log_spec(
            host@,
            method@,
            target@,
            status@,
            millis as nat,
            match upstream {
                Some(u) => Some(u@),
                None => None,
            },
        ),
{
    let mut l = String::from_str(host);
    l.append(" \"");
    l.append(method);
    l.append(" ");
    l.append(target);
    l.append("\" ");
    l.append(status);
    l.append(" ");
    l.append(decimal_string(millis).as_str());
    l.append("ms upstream=");
    match upstream {
        Some(u) => l.append(u.as_str()),
        None => l.append("-"),
    }
    l
}


/// Whether an empty line (`\r\n\r\n`) starts at position `i`.
pub open spec fn blank_line_at(b: Seq<u8>, i: int) -> bool {
    &&& 0 <= i
    &&& i + 4 <= b.len()
    &&& b[i] == 13 && b[i + 1] == 10 && b[i + 2] == 13 && b[i + 3] == 10
}

/// Where the body starts when the head is searched from position `i`: just
/// after the first empty line, or at the end when there is none.
pub open spec fn body_from(b: Seq<u8>, i: int) -> int
    decreases b.len() - i,
{
    if i < 0 || i + 4 > b.len() {
        b.len() as int
    } else if blank_line_at(b, i) {
        i + 4
    } else {
        body_from(b, i + 1)
    }
}

/// Where the body of the received bytes starts: just after the head's
/// closing empty line, or at the end when no empty line came.
pub fn body_offset(request: &[u8]) -> (r: usize)
    ensures
        r as int == body_from(request@, 0),
        r <= request@.len(),
{
    let mut i: usize = 0;
    while request.len() >= 4 && i <= request.len() - 4
        invariant
            i <= request.len(),
            body_from(request@, 0) == body_from(request@, i as int),
        decreases request.len() - i,
    {
        if request[i] == 13 && request[i + 1] == 10 && request[i + 2] == 13 && request[i + 3] == 10 {
            return i + 4;
        }
        i += 1;
    }
    request.len()
}

} // verus!
