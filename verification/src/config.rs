//! The configuration model: raw `[[server]]` / `[[server.location]]` blocks
//! as read from a TOML file, their validation, and the validated model.
//!
//! Two facts about the outside world enter validation: whether a server's
//! `listen` text is a socket address (and how that address prints), and what
//! a static `root` directory resolves to on disk. The program that reads the
//! file finds them out and hands them in as [`ServerProbe`] / [`RootProbe`];
//! everything else is decided here.
use vstd::prelude::*;
use crate::text::{
    chars_of, string_of, slice_chars, starts_with_chars, find_char, rfind_char,
    trim_end_chars, decimal, decimal_string, parse_u16, parse_u16_spec, find_from,
    rfind_before, trim_end, ascii_lower, ascii_lowercase, lemma_find_from, lemma_rfind_before,
    lemma_trim_end_shape, lemma_push_deep_view, is_ascii_upper, lower_char, lemma_decimal, lemma_parse_decimal_u16, is_digit,
};
use crate::paths::{join_path, join_chars};

verus! {

broadcast use vstd::string::group_string_axioms;

// ---------------------------------------------------------------------------
// Raw configuration, as written in the file
// ---------------------------------------------------------------------------

/// The whole file: its `[[server]]` blocks, in order.
#[derive(Debug, Clone)]
pub struct RawConfig {
    pub servers: Vec<RawServerConfig>,
}

/// One `[[server]]` block.
#[derive(Debug, Clone)]
pub struct RawServerConfig {
    pub listen: String,
    pub server_name: Vec<String>,
    pub locations: Vec<RawLocationConfig>,
}

/// One `[[server.location]]` block.
#[derive(Debug, Clone)]
pub struct RawLocationConfig {
    pub path: String,
    pub root: Option<String>,
    pub index: Vec<String>,
    pub proxy_pass: Option<String>,
}

/// What a static root resolved to on disk.
#[derive(Debug, Clone, PartialEq, Eq)]
pub enum RootProbe {
    /// The path could not be canonicalized.
    NotFound,
    /// The canonical path exists but is not a directory.
    NotDirectory,
    /// The canonical path of an existing directory.
    Directory(String),
}

/// What was found out about one `[[server]]` block: its listen address as a
/// socket address prints (`None` when the text is not a socket address), and
/// for each of its locations what its root resolved to.
#[derive(Debug, Clone)]
pub struct ServerProbe {
    pub listen: Option<String>,
    pub roots: Vec<RootProbe>,
}

// ---------------------------------------------------------------------------
// Validated configuration
// ---------------------------------------------------------------------------

#[derive(Debug, Clone, PartialEq, Eq)]
pub struct LoomisConfig {
    pub servers: Vec<ServerConfig>,
}

#[derive(Debug, Clone, PartialEq, Eq)]
pub struct ServerConfig {
    /// The socket address, as it prints.
    pub listen: String,
    pub server_names: Vec<String>,
    pub locations: Vec<LocationConfig>,
}

#[derive(Debug, Clone, PartialEq, Eq)]
pub struct LocationConfig {
    pub path: String,
    pub handler: LocationHandler,
    pub index: Vec<String>,
}

#[derive(Debug, Clone, PartialEq, Eq)]
pub enum LocationHandler {
    Static { root: String },
    Proxy { upstream: ProxyTarget },
}

#[derive(Debug, Clone, PartialEq, Eq)]
pub struct ProxyTarget {
    pub host: String,
    pub port: u16,
    pub base_path: String,
}

#[derive(Debug, Clone, PartialEq, Eq)]
pub enum ConfigError {
    Read { path: String, source: String },
    Parse { path: String, source: String },
    Validation(String),
}

// ---------------------------------------------------------------------------
// Models
// ---------------------------------------------------------------------------

pub struct ProxyTargetModel {
    pub host: Seq<char>,
    pub port: u16,
    pub base_path: Seq<char>,
}

pub enum HandlerModel {
    Static { root: Seq<char> },
    Proxy { upstream: ProxyTargetModel },
}

pub struct LocationModel {
    pub path: Seq<char>,
    pub handler: HandlerModel,
    pub index: Seq<Seq<char>>,
}

pub struct ServerModel {
    pub listen: Seq<char>,
    pub server_names: Seq<Seq<char>>,
    pub locations: Seq<LocationModel>,
}

pub enum RootProbeModel {
    NotFound,
    NotDirectory,
    Directory(Seq<char>),
}

pub enum ConfigErrorModel {
    Read { path: Seq<char>, source: Seq<char> },
    Parse { path: Seq<char>, source: Seq<char> },
    Validation(Seq<char>),
}

impl View for ProxyTarget {
    type V = ProxyTargetModel;

    open spec fn view(&self) -> ProxyTargetModel {
        ProxyTargetModel { host: self.host@, port: self.port, base_path: self.base_path@ }
    }
}

impl View for LocationHandler {
    type V = HandlerModel;

    open spec fn view(&self) -> HandlerModel {
        match self {
            LocationHandler::Static { root } => HandlerModel::Static { root: root@ },
            LocationHandler::Proxy { upstream } => HandlerModel::Proxy { upstream: upstream@ },
        }
    }
}

impl View for LocationConfig {
    type V = LocationModel;

    open spec fn view(&self) -> LocationModel {
        LocationModel { path: self.path@, handler: self.handler@, index: self.index.deep_view() }
    }
}

impl DeepView for LocationConfig {
    type V = LocationModel;

    open spec fn deep_view(&self) -> LocationModel {
        self@
    }
}

impl View for ServerConfig {
    type V = ServerModel;

    open spec fn view(&self) -> ServerModel {
        ServerModel {
            listen: self.listen@,
            server_names: self.server_names.deep_view(),
            locations: self.locations.deep_view(),
        }
    }
}

impl DeepView for ServerConfig {
    type V = ServerModel;

    open spec fn deep_view(&self) -> ServerModel {
        self@
    }
}

impl View for LoomisConfig {
    type V = Seq<ServerModel>;

    open spec fn view(&self) -> Seq<ServerModel> {
        self.servers.deep_view()
    }
}

impl View for RootProbe {
    type V = RootProbeModel;

    open spec fn view(&self) -> RootProbeModel {
        match self {
            RootProbe::NotFound => RootProbeModel::NotFound,
            RootProbe::NotDirectory => RootProbeModel::NotDirectory,
            RootProbe::Directory(p) => RootProbeModel::Directory(p@),
        }
    }
}

impl View for ConfigError {
    type V = ConfigErrorModel;

    open spec fn view(&self) -> ConfigErrorModel {
        match self {
            ConfigError::Read { path, source } => ConfigErrorModel::Read {
                path: path@,
                source: source@,
            },
            ConfigError::Parse { path, source } => ConfigErrorModel::Parse {
                path: path@,
                source: source@,
            },
            ConfigError::Validation(m) => ConfigErrorModel::Validation(m@),
        }
    }
}

/// A result agrees with a modelled outcome: the same value, or a validation
/// error with the modelled message.
pub open spec fn agrees<T: View>(r: Result<T, ConfigError>, m: Result<T::V, Seq<char>>) -> bool {
    match (r, m) {
        (Ok(v), Ok(w)) => v@ == w,
        (Err(e), Err(msg)) => e@ == ConfigErrorModel::Validation(msg),
        _ => false,
    }
}

// ---------------------------------------------------------------------------
// Path normalization
// ---------------------------------------------------------------------------

/// A location path without trailing slashes; `/` when nothing else is left.
pub open spec fn normalized_location_path(p: Seq<char>) -> Seq<char> {
    let t = trim_end(p, '/');
    if t.len() == 0 {
        seq!['/']
    } else {
        t
    }
}

/// A proxy base path without trailing slashes and with one leading slash;
/// `/` when nothing else is left.
pub open spec fn normalized_proxy_base_path(p: Seq<char>) -> Seq<char> {
    let t = trim_end(p, '/');
    if t.len() == 0 {
        seq!['/']
    } else if t[0] == '/' {
        t
    } else {
        seq!['/'] + t
    }
}

fn slash() -> (v: Vec<char>)
    ensures
        v@ == seq!['/'],
{
    let mut v: Vec<char> = Vec::new();
    v.push('/');
    v
}

/// Normalizes a location path (drops trailing slashes, keeps `/`).
pub fn normalize_location_path(path: &str) -> (r: String)
    ensures
        r@ == normalized_location_path(path@),
{
    let p = chars_of(path);
    let t = trim_end_chars(&p, '/');
    if t.len() == 0 {
        string_of(&slash())
    } else {
        string_of(&t)
    }
}

/// Normalizes a proxy base path (drops trailing slashes, ensures one leading
/// slash).
pub fn normalize_proxy_base_path(path: &str) -> (r: String)
    ensures
        r@ == normalized_proxy_base_path(path@),
{
    let p = chars_of(path);
    let t = trim_end_chars(&p, '/');
    if t.len() == 0 {
        string_of(&slash())
    } else if t[0] == '/' {
        string_of(&t)
    } else {
        let mut v = slash();
        let mut i: usize = 0;
        while i < t.len()
            invariant
                i <= t.len(),
                v@ == seq!['/'] + t@.take(i as int),
            decreases t.len() - i,
        {
            v.push(t[i]);
            i += 1;
            assert(v@ =~= seq!['/'] + t@.take(i as int));
        }
        assert(t@.take(t.len() as int) =~= t@);
        string_of(&v)
    }
}

/// A location path is normalized by dropping its trailing slashes and
/// nothing else: a path that does not end in `/` is kept as it is, one more
/// trailing `/` changes nothing, and nothing at all stands for `/`.
pub proof fn lemma_location_path_drops_only_trailing_slashes(p: Seq<char>)
    ensures
        p.len() > 0 && p.last() != '/' ==> normalized_location_path(p) == p,
        normalized_location_path(p.push('/')) == normalized_location_path(p),
        normalized_location_path(seq![]) == seq!['/'],
{
    assert(p.push('/').drop_last() =~= p);
    assert(trim_end(p.push('/'), '/') == trim_end(p, '/'));
    assert(trim_end(Seq::<char>::empty(), '/') == Seq::<char>::empty());
}

/// A proxy base path is normalized by dropping its trailing slashes and
/// putting a `/` in front when it has none, keeping every other character:
/// a path that starts with `/` and does not end with one is kept as it is,
/// one that starts otherwise gets a `/` in front, one more trailing `/`
/// changes nothing, and nothing at all stands for `/`.
pub proof fn lemma_proxy_base_path_keeps_characters(p: Seq<char>)
    ensures
        p.len() > 0 && p[0] == '/' && p.last() != '/' ==> normalized_proxy_base_path(p) == p,
        p.len() > 0 && p[0] != '/' && p.last() != '/' ==> normalized_proxy_base_path(p) == seq!['/']
            + p,
        normalized_proxy_base_path(p.push('/')) == normalized_proxy_base_path(p),
        normalized_proxy_base_path(seq![]) == seq!['/'],
{
    assert(p.push('/').drop_last() =~= p);
    assert(trim_end(p.push('/'), '/') == trim_end(p, '/'));
    assert(trim_end(Seq::<char>::empty(), '/') == Seq::<char>::empty());
}

/// A static location whose path starts with `/` and does not end with one,
/// and whose root is a directory, is accepted with its path as written and
/// that directory as its root.
pub proof fn lemma_static_location_keeps_path(
    raw: RawLocationConfig,
    base: Seq<char>,
    si: nat,
    li: nat,
    c: Seq<char>,
)
    requires
        raw.path@.len() > 0,
        raw.path@[0] == '/',
        raw.path@.last() != '/',
        raw.root is Some,
        raw.proxy_pass is None,
    ensures
        location_from_raw_spec(raw, base, si, li, RootProbeModel::Directory(c)) matches Ok(l)
            && l.path == raw.path@ && l.handler == (HandlerModel::Static { root: c }),
{
    lemma_location_path_drops_only_trailing_slashes(raw.path@);
}

/// Normalizing a location path twice is normalizing it once.
pub proof fn lemma_location_path_idempotent(p: Seq<char>)
    ensures
        normalized_location_path(normalized_location_path(p)) == normalized_location_path(p),
{
    lemma_trim_end_shape(p, '/');
    let t = trim_end(p, '/');
    if t.len() == 0 {
        let s = seq!['/'];
        assert(s.drop_last() =~= Seq::<char>::empty());
        assert(trim_end(s, '/') == trim_end(s.drop_last(), '/'));
    } else {
        lemma_trim_end_shape(t, '/');
    }
}

/// A normalized location path starts with `/` like its input, and ends with a
/// slash only when it is `/`.
pub proof fn lemma_location_path_shape(p: Seq<char>)
    requires
        p.len() > 0 && p[0] == '/',
    ensures
        normalized_location_path(p).len() > 0,
        normalized_location_path(p)[0] == '/',
        normalized_location_path(p) == seq!['/'] || normalized_location_path(p).last() != '/',
{
    lemma_trim_end_shape(p, '/');
    let t = trim_end(p, '/');
    if t.len() > 0 {
        assert(t[0] == p[0]);
    }
}

/// Resolves a root from the configuration against the configuration's
/// directory (an absolute root stands as it is).
pub fn resolve_config_path(base_dir: &str, path: &str) -> (r: String)
    ensures
        r@ == join_path(base_dir@, path@),
{
    let b = chars_of(base_dir);
    let p = chars_of(path);
    let j = join_chars(&b, &p);
    string_of(&j)
}

// ---------------------------------------------------------------------------
// Proxy targets
// ---------------------------------------------------------------------------

/// The only scheme a `proxy_pass` may use.
pub open spec fn proxy_scheme() -> Seq<char> {
    "http://"@
}

/// What `proxy_pass = "<value>"` means: `http://`, an authority up to the
/// first `/`, and a base path. The authority is `host:port` when it has a
/// `:` with a non-empty host before the last one (the port must then be a
/// `u16`), and otherwise a host on port 80.
pub open spec fn parse_proxy_target_spec(v: Seq<char>) -> Result<ProxyTargetModel, Seq<char>> {
    if !proxy_scheme().is_prefix_of(v) {
        Err("proxy_pass must start with http://"@)
    } else {
        let rem = v.skip(proxy_scheme().len() as int);
        let i = find_from(rem, '/', 0);
        let authority = rem.take(i);
        let raw_path = if i < rem.len() {
            rem.skip(i)
        } else {
            seq!['/']
        };
        if authority.len() == 0 {
            Err("proxy_pass is missing an upstream host"@)
        } else {
            let k = rfind_before(authority, ':', authority.len() as int);
            if k > 0 {
                let port_text = authority.skip(k + 1);
                match parse_u16_spec(port_text) {
                    Some(port) => Ok(
                        ProxyTargetModel {
                            host: authority.take(k),
                            port,
                            base_path: normalized_proxy_base_path(raw_path),
                        },
                    ),
                    None => Err("proxy_pass contains an invalid port: "@ + port_text),
                }
            } else {
                Ok(
                    ProxyTargetModel {
                        host: authority,
                        port: 80,
                        base_path: normalized_proxy_base_path(raw_path),
                    },
                )
            }
        }
    }
}

/// The `host:port` text of a target.
pub open spec fn authority_spec(t: ProxyTargetModel) -> Seq<char> {
    t.host + seq![':'] + decimal(t.port as nat)
}

impl ProxyTarget {
    /// Parses a `proxy_pass` value.
    pub fn parse(value: &str) -> (r: Result<ProxyTarget, String>)
        ensures
            match (r, parse_proxy_target_spec(value@)) {
                (Ok(t), Ok(m)) => t@ == m,
                (Err(e), Err(m)) => e@ == m,
                _ => false,
            },
    {
        let v = chars_of(value);
        let scheme = chars_of("http://");
        if !starts_with_chars(&v, &scheme) {
            return Err(String::from_str("proxy_pass must start with http://"));
        }
        let rem = slice_chars(&v, scheme.len(), v.len());
        assert(rem@ =~= value@.skip(proxy_scheme().len() as int));
        let i = find_char(&rem, '/', 0);
        let authority = slice_chars(&rem, 0, i);
        let raw_path = if i < rem.len() {
            slice_chars(&rem, i, rem.len())
        } else {
            slash()
        };
        assert(authority@ =~= rem@.take(i as int));
        assert(i < rem.len() ==> raw_path@ =~= rem@.skip(i as int));
        if authority.len() == 0 {
            return Err(String::from_str("proxy_pass is missing an upstream host"));
        }
        let base_path = normalize_proxy_base_path(string_of(&raw_path).as_str());
        proof {
            lemma_rfind_before(authority@, ':', authority@.len() as int);
        }
        match rfind_char(&authority, ':') {
            Some(k) if k > 0 => {
                let port_text = slice_chars(&authority, k + 1, authority.len());
                assert(port_text@ =~= authority@.skip(k + 1));
                match parse_u16(&port_text) {
                    Some(port) => {
                        let host = slice_chars(&authority, 0, k);
                        assert(host@ =~= authority@.take(k as int));
                        Ok(ProxyTarget { host: string_of(&host), port, base_path })
                    },
                    None => {
                        let mut msg = String::from_str("proxy_pass contains an invalid port: ");
                        msg.append(string_of(&port_text).as_str());
                        Err(msg)
                    },
                }
            },
            _ => Ok(ProxyTarget { host: string_of(&authority), port: 80, base_path }),
        }
    }

    /// The `host:port` text of this target.
    pub fn authority(&self) -> (r: String)
        ensures
            r@ == authority_spec(self@),
    {
        let mut r = self.host.clone();
        r.append(":");
        proof {
            reveal_strlit(":");
        }
        r.append(decimal_string(self.port as u64).as_str());
        r
    }
}

// ---------------------------------------------------------------------------
// Locations
// ---------------------------------------------------------------------------

/// `server[<si>].location[<li>] `, the start of a location's error messages.
pub open spec fn location_prefix(si: nat, li: nat) -> Seq<char> {
    "server["@ + decimal(si) + "].location["@ + decimal(li) + "] "@
}

/// The index files of a location that names none.
pub open spec fn default_index() -> Seq<Seq<char>> {
    seq!["index.html"@]
}

/// What a `[[server.location]]` block means, given the server's position,
/// its own position, and what its root resolved to.
pub open spec fn location_from_raw_spec(
    raw: RawLocationConfig,
    base: Seq<char>,
    si: nat,
    li: nat,
    probe: RootProbeModel,
) -> Result<LocationModel, Seq<char>> {
    let pre = location_prefix(si, li);
    if !(raw.path@.len() > 0 && raw.path@[0] == '/') {
        Err(pre + "path must start with '/'"@)
    } else {
        let path = normalized_location_path(raw.path@);
        let index = if raw.index@.len() == 0 {
            default_index()
        } else {
            raw.index.deep_view()
        };
        match (raw.root, raw.proxy_pass) {
            (Some(root), None) => {
                let resolved = join_path(base, root@);
                match probe {
                    RootProbeModel::NotFound => Err(pre + "root does not exist: "@ + resolved),
                    RootProbeModel::NotDirectory => Err(
                        pre + "root is not a directory: "@ + resolved,
                    ),
                    RootProbeModel::Directory(c) => Ok(
                        LocationModel { path, handler: HandlerModel::Static { root: c }, index },
                    ),
                }
            },
            (None, Some(pp)) => {
                if raw.index@.len() != 0 {
                    Err(pre + "proxy locations cannot define index"@)
                } else {
                    match parse_proxy_target_spec(pp@) {
                        Ok(t) => Ok(
                            LocationModel { path, handler: HandlerModel::Proxy { upstream: t }, index },
                        ),
                        Err(m) => Err(pre + m),
                    }
                }
            },
            (Some(_), Some(_)) => Err(pre + "must define either root or proxy_pass, not both"@),
            (None, None) => Err(pre + "must define root or proxy_pass"@),
        }
    }
}

fn location_prefix_string(si: usize, li: usize) -> (r: String)
    ensures
        r@ == location_prefix(si as nat, li as nat),
{
    let mut r = String::from_str("server[");
    r.append(decimal_string(si as u64).as_str());
    r.append("].location[");
    r.append(decimal_string(li as u64).as_str());
    r.append("] ");
    r
}

fn validation_error(prefix: String, what: &str) -> (e: ConfigError)
    ensures
        e@ == ConfigErrorModel::Validation(prefix@ + what@),
{
    let mut m = prefix;
    m.append(what);
    ConfigError::Validation(m)
}

impl LocationConfig {
    /// Validates one `[[server.location]]` block: the block at position
    /// `location_index` of the server at position `server_index`, whose root
    /// (if it names one) resolved to `root_probe`.
    pub fn from_raw(
        raw: RawLocationConfig,
        base_dir: &str,
        server_index: usize,
        location_index: usize,
        root_probe: &RootProbe,
    ) -> (r: Result<LocationConfig, ConfigError>)
        ensures
            agrees(
                r,
                location_from_raw_spec(
                    raw,
                    base_dir@,
                    server_index as nat,
                    location_index as nat,
                    root_probe@,
                ),
            ),
    {
        let ghost spec_raw = raw;
        let pre = location_prefix_string(server_index, location_index);
        let raw_path = chars_of(raw.path.as_str());
        if !(raw_path.len() > 0 && raw_path[0] == '/') {
            return Err(validation_error(pre, "path must start with '/'"));
        }
        let path = normalize_location_path(raw.path.as_str());
        let has_custom_index = raw.index.len() != 0;
        let index = if raw.index.len() == 0 {
            let v = vec![String::from_str("index.html")];
            assert(v.deep_view() =~= default_index());
            v
        } else {
            raw.index
        };
        match (raw.root, raw.proxy_pass) {
            (Some(root), None) => {
                let resolved = resolve_config_path(base_dir, root.as_str());
                match root_probe {
                    RootProbe::NotFound => {
                        let mut m = pre;
                        m.append("root does not exist: ");
                        m.append(resolved.as_str());
                        Err(ConfigError::Validation(m))
                    },
                    RootProbe::NotDirectory => {
                        let mut m = pre;
                        m.append("root is not a directory: ");
                        m.append(resolved.as_str());
                        Err(ConfigError::Validation(m))
                    },
                    RootProbe::Directory(c) => Ok(
                        LocationConfig {
                            path,
                            handler: LocationHandler::Static { root: c.clone() },
                            index,
                        },
                    ),
                }
            },
            (None, Some(proxy_pass)) => {
                if has_custom_index {
                    Err(validation_error(pre, "proxy locations cannot define index"))
                } else {
                    match ProxyTarget::parse(proxy_pass.as_str()) {
                        Ok(upstream) => Ok(
                            LocationConfig {
                                path,
                                handler: LocationHandler::Proxy { upstream },
                                index,
                            },
                        ),
                        Err(message) => Err(validation_error(pre, message.as_str())),
                    }
                }
            },
            (Some(_), Some(_)) => Err(
                validation_error(pre, "must define either root or proxy_pass, not both"),
            ),
            (None, None) => Err(validation_error(pre, "must define root or proxy_pass")),
        }
    }
}

// ---------------------------------------------------------------------------
// Servers
// ---------------------------------------------------------------------------

/// What the root of the location at position `j` resolved to (a location
/// without a finding counts as one whose root was not found).
pub open spec fn root_probe_at(roots: Seq<RootProbe>, j: int) -> RootProbeModel {
    if 0 <= j < roots.len() {
        roots[j]@
    } else {
        RootProbeModel::NotFound
    }
}

/// `server[<si>] `, the start of a server's error messages.
pub open spec fn server_prefix(si: nat) -> Seq<char> {
    "server["@ + decimal(si) + "] "@
}

/// The locations of a server validated from position `j` on, after `done`:
/// the first failing location's error, or a location whose normalized path
/// an earlier one already has, stops the walk.
pub open spec fn locations_spec(
    raws: Seq<RawLocationConfig>,
    base: Seq<char>,
    si: nat,
    roots: Seq<RootProbe>,
    j: int,
    done: Seq<LocationModel>,
) -> Result<Seq<LocationModel>, Seq<char>>
    decreases raws.len() - j,
{
    if j < 0 || j >= raws.len() {
        Ok(done)
    } else {
        match location_from_raw_spec(raws[j], base, si, j as nat, root_probe_at(roots, j)) {
            Err(m) => Err(m),
            Ok(loc) => {
                if exists|k: int| 0 <= k < done.len() && (#[trigger] done[k]).path == loc.path {
                    Err(server_prefix(si) + "defines duplicate location path: "@ + loc.path)
                } else {
                    locations_spec(raws, base, si, roots, j + 1, done.push(loc))
                }
            },
        }
    }
}

/// The printed socket address a probe found, if any.
pub open spec fn probe_listen(p: ServerProbe) -> Option<Seq<char>> {
    match p.listen {
        Some(l) => Some(l@),
        None => None,
    }
}

/// What a `[[server]]` block at position `si` means, given the printed
/// socket address of its `listen` text (`None`: not a socket address) and
/// what its locations' roots resolved to.
pub open spec fn server_from_raw_spec(
    raw: RawServerConfig,
    base: Seq<char>,
    si: nat,
    listen_probe: Option<Seq<char>>,
    roots: Seq<RootProbe>,
) -> Result<ServerModel, Seq<char>> {
    match listen_probe {
        None => Err(server_prefix(si) + "has invalid listen address: "@ + raw.listen@),
        Some(listen) => {
            if raw.locations@.len() == 0 {
                Err(server_prefix(si) + "must define at least one [[server.location]] block"@)
            } else {
                match locations_spec(raw.locations@, base, si, roots, 0, seq![]) {
                    Err(m) => Err(m),
                    Ok(locations) => Ok(
                        ServerModel {
                            listen,
                            server_names: raw.server_name.deep_view().map_values(
                                |n: Seq<char>| ascii_lower(n),
                            ),
                            locations,
                        },
                    ),
                }
            }
        },
    }
}

fn server_prefix_string(si: usize) -> (r: String)
    ensures
        r@ == server_prefix(si as nat),
{
    let mut r = String::from_str("server[");
    r.append(decimal_string(si as u64).as_str());
    r.append("] ");
    r
}

fn lowercase_names(names: &Vec<String>) -> (r: Vec<String>)
    ensures
        r.deep_view() == names.deep_view().map_values(|n: Seq<char>| ascii_lower(n)),
{
    let mut r: Vec<String> = Vec::new();
    let mut i: usize = 0;
    while i < names.len()
        invariant
            i <= names.len(),
            r.deep_view() == names.deep_view().map_values(|n: Seq<char>| ascii_lower(n)).take(
                i as int,
            ),
        decreases names.len() - i,
    {
        let lower = ascii_lowercase(&names[i]);
        let ghost before = r;
        let ghost lower_copy = lower;
        r.push(lower);
        proof {
            lemma_push_deep_view(before, r, lower_copy);
            assert(names.deep_view()[i as int] == names@[i as int]@);
            assert(r.deep_view() =~= names.deep_view().map_values(|n: Seq<char>| ascii_lower(n)).take(
                i + 1,
            ));
        }
        i += 1;
    }
    assert(names.deep_view().map_values(|n: Seq<char>| ascii_lower(n)).take(names.len() as int)
        =~= names.deep_view().map_values(|n: Seq<char>| ascii_lower(n)));
    r
}

fn has_location_path(locations: &Vec<LocationConfig>, path: &String) -> (r: bool)
    ensures
        r == exists|k: int|
            0 <= k < locations.deep_view().len() && (#[trigger] locations.deep_view()[k]).path
                == path@,
{
    let mut k: usize = 0;
    while k < locations.len()
        invariant
            k <= locations.len(),
            forall|m: int| 0 <= m < k ==> (#[trigger] locations.deep_view()[m]).path != path@,
        decreases locations.len() - k,
    {
        if locations[k].path == *path {
            assert(locations.deep_view()[k as int].path == path@);
            return true;
        }
        k += 1;
    }
    false
}

impl ServerConfig {
    /// Validates the `[[server]]` block at position `index`, with what was
    /// found out about its listen address and roots.
    pub fn from_raw(raw: RawServerConfig, base_dir: &str, index: usize, probe: &ServerProbe) -> (r:
        Result<ServerConfig, ConfigError>)
        ensures
            agrees(r, server_from_raw_spec(raw, base_dir@, index as nat, probe_listen(*probe), probe.roots@)),
    {
        let ghost spec_raw = raw;
        let pre = server_prefix_string(index);
        let listen = match &probe.listen {
            None => {
                let mut m = pre;
                m.append("has invalid listen address: ");
                m.append(raw.listen.as_str());
                return Err(ConfigError::Validation(m));
            },
            Some(l) => l.clone(),
        };
        if raw.locations.len() == 0 {
            return Err(validation_error(pre, "must define at least one [[server.location]] block"));
        }
        let server_names = lowercase_names(&raw.server_name);
        let ghost raws = raw.locations@;
        let not_found = RootProbe::NotFound;
        let ghost listen_view = listen@;
        assert(server_from_raw_spec(spec_raw, base_dir@, index as nat, probe_listen(*probe), probe.roots@) == match locations_spec(
            raws,
            base_dir@,
            index as nat,
            probe.roots@,
            0,
            seq![],
        ) {
            Err(m) => Err(m),
            Ok(locs) => Ok(
                ServerModel { listen: listen_view, server_names: server_names.deep_view(), locations: locs },
            ),
        });
        let mut locations: Vec<LocationConfig> = Vec::new();
        assert(locations.deep_view() =~= Seq::<LocationModel>::empty());
        let mut j: usize = 0;
        let mut rest = raw.locations;
        while rest.len() > 0
            invariant
                j + rest@.len() == raws.len(),
                raws.len() <= usize::MAX,
                spec_raw == raw,
                rest@ == raws.skip(j as int),
                raws == spec_raw.locations@,
                pre@ == server_prefix(index as nat),
                not_found@ == RootProbeModel::NotFound,
                listen@ == listen_view,
                server_from_raw_spec(spec_raw, base_dir@, index as nat, probe_listen(*probe), probe.roots@) == match locations_spec(
                    raws,
                    base_dir@,
                    index as nat,
                    probe.roots@,
                    0,
                    seq![],
                ) {
                    Err(m) => Err(m),
                    Ok(locs) => Ok(
                        ServerModel {
                            listen: listen_view,
                            server_names: server_names.deep_view(),
                            locations: locs,
                        },
                    ),
                },
                locations_spec(raws, base_dir@, index as nat, probe.roots@, 0, seq![])
                    == locations_spec(
                    raws,
                    base_dir@,
                    index as nat,
                    probe.roots@,
                    j as int,
                    locations.deep_view(),
                ),
            decreases rest@.len(),
        {
            let raw_location = rest.remove(0);
            assert(raw_location == raws[j as int]);
            assert(rest@ =~= raws.skip(j + 1));
            let root_probe = if j < probe.roots.len() {
                &probe.roots[j]
            } else {
                &not_found
            };
            assert(root_probe@ == root_probe_at(probe.roots@, j as int));
            let location = LocationConfig::from_raw(
                raw_location,
                base_dir,
                index,
                j,
                root_probe,
            );
            let location = match location {
                Ok(l) => l,
                Err(e) => return Err(e),
            };
            if has_location_path(&locations, &location.path) {
                let mut m = pre;
                m.append("defines duplicate location path: ");
                m.append(location.path.as_str());
                return Err(ConfigError::Validation(m));
            }
            let ghost before = locations;
            let ghost loc_copy = location;
            locations.push(location);
            proof {
                lemma_push_deep_view(before, locations, loc_copy);
            }
            j += 1;
        }
        assert(raws.skip(j as int) =~= Seq::<RawLocationConfig>::empty());
        Ok(ServerConfig { listen, server_names, locations })
    }
}

// ---------------------------------------------------------------------------
// Server-name collisions
// ---------------------------------------------------------------------------

/// Server `i` names no host and an earlier server without names listens on
/// the same address.
pub open spec fn default_clash(s: Seq<ServerModel>, i: int) -> bool {
    &&& s[i].server_names.len() == 0
    &&& exists|k: int|
        0 <= k < i && (#[trigger] s[k]).server_names.len() == 0 && s[k].listen == s[i].listen
}

/// Name `j` of server `i` is already bound to the same listen address, by an
/// earlier server or earlier in the same server's list.
pub open spec fn name_clash(s: Seq<ServerModel>, i: int, j: int) -> bool {
    ||| exists|k: int, m: int|
        0 <= k < i && 0 <= m < s[k].server_names.len() && s[k].listen == s[i].listen
            && (#[trigger] s[k].server_names[m]) == s[i].server_names[j]
    ||| exists|m: int| 0 <= m < j && (#[trigger] s[i].server_names[m]) == s[i].server_names[j]
}

/// The first name of server `i`, from position `j` on, that clashes.
pub open spec fn first_name_clash(s: Seq<ServerModel>, i: int, j: int) -> Option<int>
    decreases s[i].server_names.len() - j,
{
    if j < 0 || j >= s[i].server_names.len() {
        None
    } else if name_clash(s, i, j) {
        Some(j)
    } else {
        first_name_clash(s, i, j + 1)
    }
}

/// The first collision among the servers from position `i` on, as its
/// message: servers are taken in order, and within a server the default
/// check comes before its names, which are taken in order.
pub open spec fn collision_from(s: Seq<ServerModel>, i: int) -> Option<Seq<char>>
    decreases s.len() - i,
{
    if i < 0 || i >= s.len() {
        None
    } else if default_clash(s, i) {
        Some("multiple default servers configured for "@ + s[i].listen)
    } else {
        match first_name_clash(s, i, 0) {
            Some(j) => Some(
                "duplicate server_name '"@ + s[i].server_names[j] + "' configured for "@
                    + s[i].listen,
            ),
            None => collision_from(s, i + 1),
        }
    }
}

fn is_default_clash(servers: &Vec<ServerConfig>, i: usize) -> (r: bool)
    requires
        i < servers.len(),
    ensures
        r == default_clash(servers.deep_view(), i as int),
{
    let ghost s = servers.deep_view();
    if servers[i].server_names.len() != 0 {
        return false;
    }
    let mut k: usize = 0;
    while k < i
        invariant
            i < servers.len(),
            k <= i,
            s == servers.deep_view(),
            s[i as int].server_names.len() == 0,
            forall|kk: int|
                0 <= kk < k ==> !((#[trigger] s[kk]).server_names.len() == 0 && s[kk].listen
                    == s[i as int].listen),
        decreases i - k,
    {
        if servers[k].server_names.len() == 0 && servers[k].listen == servers[i].listen {
            assert(s[k as int].server_names.len() == 0);
            assert(s[k as int].listen == s[i as int].listen);
            return true;
        }
        k += 1;
    }
    false
}

fn is_name_clash(servers: &Vec<ServerConfig>, i: usize, j: usize) -> (r: bool)
    requires
        i < servers.len(),
        j < servers@[i as int].server_names.len(),
    ensures
        r == name_clash(servers.deep_view(), i as int, j as int),
{
    let ghost s = servers.deep_view();
    let name = &servers[i].server_names[j];
    let mut k: usize = 0;
    while k < i
        invariant
            i < servers.len(),
            j < servers@[i as int].server_names.len(),
            k <= i,
            s == servers.deep_view(),
            *name == servers@[i as int].server_names@[j as int],
            forall|kk: int, m: int|
                0 <= kk < k && 0 <= m < s[kk].server_names.len() && s[kk].listen
                    == s[i as int].listen ==> (#[trigger] s[kk].server_names[m])
                    != s[i as int].server_names[j as int],
        decreases i - k,
    {
        if servers[k].listen == servers[i].listen {
            let mut m: usize = 0;
            while m < servers[k].server_names.len()
                invariant
                    i < servers.len(),
                    j < servers@[i as int].server_names.len(),
                    k < i,
                    s == servers.deep_view(),
                    *name == servers@[i as int].server_names@[j as int],
                    s[k as int].listen == s[i as int].listen,
                    m <= servers@[k as int].server_names.len(),
                    forall|mm: int|
                        0 <= mm < m ==> (#[trigger] s[k as int].server_names[mm]) != s[i as int].server_names[j as int],
                decreases servers@[k as int].server_names.len() - m,
            {
                if servers[k].server_names[m] == *name {
                    assert(s[k as int].server_names[m as int] == s[i as int].server_names[j as int]);
                    return true;
                }
                m += 1;
            }
        }
        k += 1;
    }
    let mut m: usize = 0;
    while m < j
        invariant
            i < servers.len(),
            j < servers@[i as int].server_names.len(),
            m <= j,
            s == servers.deep_view(),
            *name == servers@[i as int].server_names@[j as int],
            forall|kk: int, mm: int|
                0 <= kk < i && 0 <= mm < s[kk].server_names.len() && s[kk].listen
                    == s[i as int].listen ==> (#[trigger] s[kk].server_names[mm])
                    != s[i as int].server_names[j as int],
            forall|mm: int|
                0 <= mm < m ==> (#[trigger] s[i as int].server_names[mm]) != s[i as int].server_names[j as int],
        decreases j - m,
    {
        if servers[i].server_names[m] == *name {
            assert(s[i as int].server_names[m as int] == s[i as int].server_names[j as int]);
            return true;
        }
        m += 1;
    }
    false
}

/// Checks that no listen address has two servers without names, and that no
/// server name is bound twice to one listen address.
pub fn validate_server_name_collisions(servers: &Vec<ServerConfig>) -> (r: Result<(), ConfigError>)
    ensures
        match (r, collision_from(servers.deep_view(), 0)) {
            (Ok(()), None) => true,
            (Err(e), Some(m)) => e@ == ConfigErrorModel::Validation(m),
            _ => false,
        },
{
    let ghost s = servers.deep_view();
    let mut i: usize = 0;
    while i < servers.len()
        invariant
            i <= servers.len(),
            s == servers.deep_view(),
            collision_from(s, 0) == collision_from(s, i as int),
        decreases servers.len() - i,
    {
        if is_default_clash(servers, i) {
            let mut m = String::from_str("multiple default servers configured for ");
            m.append(servers[i].listen.as_str());
            return Err(ConfigError::Validation(m));
        }
        let mut j: usize = 0;
        while j < servers[i].server_names.len()
            invariant
                i < servers.len(),
                s == servers.deep_view(),
                j <= servers@[i as int].server_names.len(),
                first_name_clash(s, i as int, 0) == first_name_clash(s, i as int, j as int),
                collision_from(s, 0) == collision_from(s, i as int),
                !default_clash(s, i as int),
            decreases servers@[i as int].server_names.len() - j,
        {
            if is_name_clash(servers, i, j) {
                let mut m = String::from_str("duplicate server_name '");
                m.append(servers[i].server_names[j].as_str());
                m.append("' configured for ");
                m.append(servers[i].listen.as_str());
                return Err(ConfigError::Validation(m));
            }
            j += 1;
        }
        i += 1;
    }
    Ok(())
}

// ---------------------------------------------------------------------------
// The whole configuration
// ---------------------------------------------------------------------------

/// The listen finding for the server at position `i` (a server without a
/// finding counts as one whose `listen` is not a socket address).
pub open spec fn listen_probe_at(probes: Seq<ServerProbe>, i: int) -> Option<Seq<char>> {
    if 0 <= i < probes.len() {
        probe_listen(probes[i])
    } else {
        None
    }
}

/// The root findings for the server at position `i`.
pub open spec fn roots_probe_at(probes: Seq<ServerProbe>, i: int) -> Seq<RootProbe> {
    if 0 <= i < probes.len() {
        probes[i].roots@
    } else {
        seq![]
    }
}

/// The servers validated from position `i` on, after `done`; the first
/// failing server's error stops the walk.
pub open spec fn servers_spec(
    raws: Seq<RawServerConfig>,
    base: Seq<char>,
    probes: Seq<ServerProbe>,
    i: int,
    done: Seq<ServerModel>,
) -> Result<Seq<ServerModel>, Seq<char>>
    decreases raws.len() - i,
{
    if i < 0 || i >= raws.len() {
        Ok(done)
    } else {
        match server_from_raw_spec(
            raws[i],
            base,
            i as nat,
            listen_probe_at(probes, i),
            roots_probe_at(probes, i),
        ) {
            Err(m) => Err(m),
            Ok(server) => servers_spec(raws, base, probes, i + 1, done.push(server)),
        }
    }
}

/// What a configuration file means: at least one server, every server
/// valid, and no listen address with an ambiguous default or server name.
pub open spec fn config_from_raw_spec(
    raw: RawConfig,
    base: Seq<char>,
    probes: Seq<ServerProbe>,
) -> Result<Seq<ServerModel>, Seq<char>> {
    if raw.servers@.len() == 0 {
        Err("config must define at least one [[server]] block"@)
    } else {
        match servers_spec(raw.servers@, base, probes, 0, seq![]) {
            Err(m) => Err(m),
            Ok(servers) => match collision_from(servers, 0) {
                Some(m) => Err(m),
                None => Ok(servers),
            },
        }
    }
}

impl LoomisConfig {
    /// Validates a configuration whose relative roots are taken from
    /// `base_dir`, with one probe per `[[server]]` block.
    pub fn from_raw(raw: RawConfig, base_dir: &str, probes: &Vec<ServerProbe>) -> (r: Result<
        LoomisConfig,
        ConfigError,
    >)
        ensures
            agrees(r, config_from_raw_spec(raw, base_dir@, probes@)),
            r matches Ok(c) ==> config_well_formed(c@),
    {
        let ghost spec_raw = raw;
        proof {
            lemma_accepted_config_well_formed(raw, base_dir@, probes@);
        }
        let ghost raws = raw.servers@;
        if raw.servers.len() == 0 {
            return Err(
                ConfigError::Validation(
                    String::from_str("config must define at least one [[server]] block"),
                ),
            );
        }
        let no_probe = ServerProbe { listen: None, roots: Vec::new() };
        assert(probe_listen(no_probe) == None::<Seq<char>>);
        assert(no_probe.roots@ =~= Seq::<RootProbe>::empty());
        let mut servers: Vec<ServerConfig> = Vec::new();
        assert(servers.deep_view() =~= Seq::<ServerModel>::empty());
        let mut i: usize = 0;
        let mut rest = raw.servers;
        while rest.len() > 0
            invariant
                i + rest@.len() == raws.len(),
                raws.len() <= usize::MAX,
                rest@ == raws.skip(i as int),
                spec_raw == raw,
                raws == spec_raw.servers@,
                raws.len() > 0,
                probe_listen(no_probe) == None::<Seq<char>>,
                no_probe.roots@ == Seq::<RootProbe>::empty(),
                servers_spec(raws, base_dir@, probes@, 0, seq![]) == servers_spec(
                    raws,
                    base_dir@,
                    probes@,
                    i as int,
                    servers.deep_view(),
                ),
            decreases rest@.len(),
        {
            let raw_server = rest.remove(0);
            assert(raw_server == raws[i as int]);
            assert(rest@ =~= raws.skip(i + 1));
            let probe = if i < probes.len() {
                &probes[i]
            } else {
                &no_probe
            };
            assert(probe_listen(*probe) == listen_probe_at(probes@, i as int));
            assert(probe.roots@ == roots_probe_at(probes@, i as int));
            let server = match ServerConfig::from_raw(raw_server, base_dir, i, probe) {
                Ok(s) => s,
                Err(e) => return Err(e),
            };
            let ghost before = servers;
            let ghost server_copy = server;
            servers.push(server);
            proof {
                lemma_push_deep_view(before, servers, server_copy);
            }
            i += 1;
        }
        assert(raws.skip(i as int) =~= Seq::<RawServerConfig>::empty());
        match validate_server_name_collisions(&servers) {
            Ok(()) => Ok(LoomisConfig { servers }),
            Err(e) => Err(e),
        }
    }
}

fn copy_probe(p: &RootProbe) -> (r: RootProbe)
    ensures
        r@ == p@,
{
    match p {
        RootProbe::NotFound => RootProbe::NotFound,
        RootProbe::NotDirectory => RootProbe::NotDirectory,
        RootProbe::Directory(c) => RootProbe::Directory(c.clone()),
    }
}

/// What the single-site configuration means for a root (taken relative to
/// the working directory) that resolved to `probe`.
pub open spec fn single_static_site_spec(root_dir: Seq<char>, port: u16, probe: RootProbeModel) -> Result<
    Seq<ServerModel>,
    Seq<char>,
> {
    let resolved = join_path(seq!['.'], root_dir);
    match probe {
        RootProbeModel::NotFound => Err(location_prefix(0, 0) + "root does not exist: "@ + resolved),
        RootProbeModel::NotDirectory => Err(
            location_prefix(0, 0) + "root is not a directory: "@ + resolved,
        ),
        RootProbeModel::Directory(c) => Ok(
            seq![
                ServerModel {
                    listen: "127.0.0.1:"@ + decimal(port as nat),
                    server_names: seq![],
                    locations: seq![
                        LocationModel {
                            path: seq!['/'],
                            handler: HandlerModel::Static { root: c },
                            index: default_index(),
                        },
                    ],
                },
            ],
        ),
    }
}

impl LoomisConfig {
    /// The configuration of the single-site mode: one default server on
    /// `127.0.0.1:<port>` serving `root_dir` at `/` with index `index.html`,
    /// where `root_probe` is what `root_dir` (taken relative to the working
    /// directory) resolved to. The text `127.0.0.1:<port>` is always a socket
    /// address, which prints as that same text.
    pub fn single_static_site(root_dir: &str, port: u16, root_probe: &RootProbe) -> (r: Result<
        LoomisConfig,
        ConfigError,
    >)
        ensures
            agrees(r, single_static_site_spec(root_dir@, port, root_probe@)),
    {
        let mut listen = String::from_str("127.0.0.1:");
        listen.append(decimal_string(port as u64).as_str());
        let location = RawLocationConfig {
            path: string_of(&slash()),
            root: Some(String::from_str(root_dir)),
            index: vec![String::from_str("index.html")],
            proxy_pass: None,
        };
        let ghost raw_location = location;
        let server = RawServerConfig {
            listen: listen.clone(),
            server_name: Vec::new(),
            locations: vec![location],
        };
        let ghost raw_server = server;
        let raw = RawConfig { servers: vec![server] };
        let ghost raw_copy = raw;
        let probes = vec![ServerProbe { listen: Some(listen), roots: vec![copy_probe(root_probe)] }];
        let mut dot: Vec<char> = Vec::new();
        dot.push('.');
        let base = string_of(&dot);
        let r = LoomisConfig::from_raw(raw, base.as_str(), &probes);
        proof {
            assert(raw_location.index.deep_view() =~= default_index());
            assert(raw_server.server_name.deep_view() =~= Seq::<Seq<char>>::empty());
            assert(raw_server.server_name.deep_view().map_values(|n: Seq<char>| ascii_lower(n))
                =~= Seq::<Seq<char>>::empty());
            let roots = probes@[0].roots@;
            assert(root_probe_at(roots, 0) == root_probe@);
            let loc_spec = location_from_raw_spec(raw_location, seq!['.'], 0, 0, root_probe@);
            assert(seq!['/'].drop_last() =~= Seq::<char>::empty());
            assert(trim_end(seq!['/'], '/') == trim_end(Seq::<char>::empty(), '/'));
            assert(normalized_location_path(seq!['/']) == seq!['/']);
            let locs = raw_server.locations@;
            assert(locs =~= seq![raw_location]);
            if let Ok(l) = loc_spec {
                assert(locations_spec(locs, seq!['.'], 0, roots, 1, seq![l]) == Ok::<
                    Seq<LocationModel>,
                    Seq<char>,
                >(seq![l]));
                assert(locations_spec(locs, seq!['.'], 0, roots, 0, seq![]) == locations_spec(
                    locs,
                    seq!['.'],
                    0,
                    roots,
                    1,
                    seq![].push(l),
                ));
                assert(seq![].push(l) =~= seq![l]);
            }
            let servers = seq![raw_server];
            let sv = server_from_raw_spec(raw_server, seq!['.'], 0, Some(listen@), roots);
            if let Ok(m) = sv {
                assert(servers_spec(servers, seq!['.'], probes@, 1, seq![m]) == Ok::<
                    Seq<ServerModel>,
                    Seq<char>,
                >(seq![m]));
                assert(seq![].push(m) =~= seq![m]);
                let ss = seq![m];
                assert(!default_clash(ss, 0));
                assert(first_name_clash(ss, 0, 0) == None::<int>);
                assert(collision_from(ss, 1) == None::<Seq<char>>);
                assert(collision_from(ss, 0) == None::<Seq<char>>);
            }
            assert(base@ == seq!['.']);
            assert(raw_copy.servers@ =~= servers);
            assert(listen_probe_at(probes@, 0) == Some(listen@));
            assert(roots_probe_at(probes@, 0) == roots);
            assert(servers_spec(servers, seq!['.'], probes@, 0, seq![]) == match sv {
                Err(m) => Err(m),
                Ok(m) => servers_spec(servers, seq!['.'], probes@, 1, seq![].push(m)),
            });
            assert(config_from_raw_spec(raw_copy, seq!['.'], probes@) == single_static_site_spec(
                root_dir@,
                port,
                root_probe@,
            ));
        }
        r
    }
}

/// The text of a configuration error.
pub open spec fn config_error_message(e: ConfigErrorModel) -> Seq<char> {
    match e {
        ConfigErrorModel::Read { path, source } => "failed to read config "@ + path + ": "@ + source,
        ConfigErrorModel::Parse { path, source } => "failed to parse config "@ + path + ": "@
            + source,
        ConfigErrorModel::Validation(m) => m,
    }
}

impl ConfigError {
    /// The text of this error.
    pub fn message(&self) -> (r: String)
        ensures
            r@ == config_error_message(self@),
    {
        match self {
            ConfigError::Read { path, source } => {
                let mut m = String::from_str("failed to read config ");
                m.append(path.as_str());
                m.append(": ");
                m.append(source.as_str());
                m
            },
            ConfigError::Parse { path, source } => {
                let mut m = String::from_str("failed to parse config ");
                m.append(path.as_str());
                m.append(": ");
                m.append(source.as_str());
                m
            },
            ConfigError::Validation(m) => m.clone(),
        }
    }
}

// ---------------------------------------------------------------------------
// What every accepted configuration satisfies
// ---------------------------------------------------------------------------

/// A location path starts with `/`, ends with one only when it is `/`, and
/// the location has at least one index file.
pub open spec fn location_well_formed(l: LocationModel) -> bool {
    &&& l.path.len() > 0 && l.path[0] == '/'
    &&& (l.path == seq!['/'] || l.path.last() != '/')
    &&& l.index.len() > 0
}

/// A server has at least one location, all well formed and with distinct
/// paths, and its server names hold no ASCII capitals.
pub open spec fn server_well_formed(s: ServerModel) -> bool {
    &&& s.locations.len() > 0
    &&& forall|j: int| 0 <= j < s.locations.len() ==> location_well_formed(#[trigger] s.locations[j])
    &&& forall|j: int, k: int|
        0 <= j < k < s.locations.len() ==> (#[trigger] s.locations[j]).path != (
        #[trigger] s.locations[k]).path
    &&& forall|n: int, c: int|
        0 <= n < s.server_names.len() && 0 <= c < s.server_names[n].len() ==> !is_ascii_upper(
            #[trigger] s.server_names[n][c],
        )
}

/// No listen address has two servers without names, and no server name is
/// bound twice to one listen address.
pub open spec fn listeners_unambiguous(s: Seq<ServerModel>) -> bool {
    &&& forall|i: int, k: int|
        0 <= i < k < s.len() && (#[trigger] s[i]).server_names.len() == 0 && (
        #[trigger] s[k]).server_names.len() == 0 ==> s[i].listen != s[k].listen
    &&& forall|i: int, j: int, k: int, m: int|
        0 <= i < s.len() && 0 <= k < s.len() && 0 <= j < s[i].server_names.len() && 0 <= m
            < s[k].server_names.len() && (i, j) != (k, m) && s[i].listen == s[k].listen ==> (
        #[trigger] s[i].server_names[j]) != (#[trigger] s[k].server_names[m])
}

/// An accepted configuration: at least one server, every server well formed,
/// and every listen address unambiguous.
pub open spec fn config_well_formed(s: Seq<ServerModel>) -> bool {
    &&& s.len() > 0
    &&& forall|i: int| 0 <= i < s.len() ==> server_well_formed(#[trigger] s[i])
    &&& listeners_unambiguous(s)
}

proof fn lemma_location_ok_well_formed(
    raw: RawLocationConfig,
    base: Seq<char>,
    si: nat,
    li: nat,
    probe: RootProbeModel,
)
    ensures
        location_from_raw_spec(raw, base, si, li, probe) matches Ok(l) ==> location_well_formed(
            l,
        ),
        location_from_raw_spec(raw, base, si, li, probe) matches Ok(l) ==> l.path
            == normalized_location_path(raw.path@),
{
    if raw.path@.len() > 0 && raw.path@[0] == '/' {
        lemma_location_path_shape(raw.path@);
    }
}

proof fn lemma_locations_well_formed(
    raws: Seq<RawLocationConfig>,
    base: Seq<char>,
    si: nat,
    roots: Seq<RootProbe>,
    j: int,
    done: Seq<LocationModel>,
)
    requires
        0 <= j,
        forall|a: int| 0 <= a < done.len() ==> location_well_formed(#[trigger] done[a]),
        forall|a: int, b: int|
            0 <= a < b < done.len() ==> (#[trigger] done[a]).path != (#[trigger] done[b]).path,
    ensures
        locations_spec(raws, base, si, roots, j, done) matches Ok(r) ==> {
            &&& r.len() >= done.len()
            &&& (j < raws.len() ==> r.len() > done.len())
            &&& forall|a: int| 0 <= a < r.len() ==> location_well_formed(#[trigger] r[a])
            &&& forall|a: int, b: int|
                0 <= a < b < r.len() ==> (#[trigger] r[a]).path != (#[trigger] r[b]).path
        },
    decreases raws.len() - j,
{
    if j < raws.len() {
        lemma_location_ok_well_formed(raws[j], base, si, j as nat, root_probe_at(roots, j));
        match location_from_raw_spec(raws[j], base, si, j as nat, root_probe_at(roots, j)) {
            Ok(loc) => {
                if !(exists|k: int| 0 <= k < done.len() && (#[trigger] done[k]).path == loc.path) {
                    let next = done.push(loc);
                    assert forall|a: int, b: int|
                        0 <= a < b < next.len() implies (#[trigger] next[a]).path != (
                        #[trigger] next[b]).path by {
                        if b == done.len() {
                            assert(next[a] == done[a]);
                        } else {
                            assert(next[a] == done[a] && next[b] == done[b]);
                        }
                    }
                    assert forall|a: int| 0 <= a < next.len() implies location_well_formed(
                        #[trigger] next[a],
                    ) by {
                        if a < done.len() {
                            assert(next[a] == done[a]);
                        }
                    }
                    lemma_locations_well_formed(raws, base, si, roots, j + 1, next);
                }
            },
            Err(_) => {},
        }
    }
}

proof fn lemma_lower_no_upper(n: Seq<char>)
    ensures
        forall|c: int| 0 <= c < ascii_lower(n).len() ==> !is_ascii_upper(#[trigger] ascii_lower(n)[c]),
{
    assert forall|c: int| 0 <= c < ascii_lower(n).len() implies !is_ascii_upper(
        #[trigger] ascii_lower(n)[c],
    ) by {
        assert(ascii_lower(n)[c] == lower_char(n[c]));
    }
}

proof fn lemma_server_ok_well_formed(
    raw: RawServerConfig,
    base: Seq<char>,
    si: nat,
    listen: Option<Seq<char>>,
    roots: Seq<RootProbe>,
)
    ensures
        server_from_raw_spec(raw, base, si, listen, roots) matches Ok(s) ==> server_well_formed(s),
{
    lemma_locations_well_formed(raw.locations@, base, si, roots, 0, seq![]);
    if let Ok(s) = server_from_raw_spec(raw, base, si, listen, roots) {
        let names = raw.server_name.deep_view().map_values(|n: Seq<char>| ascii_lower(n));
        assert(s.server_names == names);
        assert forall|n: int, c: int|
            0 <= n < s.server_names.len() && 0 <= c < s.server_names[n].len() implies !is_ascii_upper(
            #[trigger] s.server_names[n][c],
        ) by {
            lemma_lower_no_upper(raw.server_name.deep_view()[n]);
        }
    }
}

proof fn lemma_servers_well_formed(
    raws: Seq<RawServerConfig>,
    base: Seq<char>,
    probes: Seq<ServerProbe>,
    i: int,
    done: Seq<ServerModel>,
)
    requires
        0 <= i,
        forall|a: int| 0 <= a < done.len() ==> server_well_formed(#[trigger] done[a]),
    ensures
        servers_spec(raws, base, probes, i, done) matches Ok(r) ==> {
            &&& r.len() >= done.len()
            &&& (i < raws.len() ==> r.len() > done.len())
            &&& forall|a: int| 0 <= a < r.len() ==> server_well_formed(#[trigger] r[a])
        },
    decreases raws.len() - i,
{
    if i < raws.len() {
        let listen = listen_probe_at(probes, i);
        let roots = roots_probe_at(probes, i);
        lemma_server_ok_well_formed(raws[i], base, i as nat, listen, roots);
        if let Ok(server) = server_from_raw_spec(raws[i], base, i as nat, listen, roots) {
            let next = done.push(server);
            assert forall|a: int| 0 <= a < next.len() implies server_well_formed(#[trigger] next[a]) by {
                if a < done.len() {
                    assert(next[a] == done[a]);
                }
            }
            lemma_servers_well_formed(raws, base, probes, i + 1, next);
        }
    }
}

proof fn lemma_no_first_name_clash(s: Seq<ServerModel>, i: int, j: int)
    requires
        0 <= i < s.len(),
        0 <= j,
        first_name_clash(s, i, j) == None::<int>,
    ensures
        forall|m: int| j <= m < s[i].server_names.len() ==> !name_clash(s, i, m),
    decreases s[i].server_names.len() - j,
{
    if j < s[i].server_names.len() {
        lemma_no_first_name_clash(s, i, j + 1);
    }
}

proof fn lemma_no_collision(s: Seq<ServerModel>, i: int)
    requires
        0 <= i,
        collision_from(s, i) == None::<Seq<char>>,
    ensures
        forall|k: int| i <= k < s.len() ==> !#[trigger] default_clash(s, k),
        forall|k: int, m: int|
            i <= k < s.len() && 0 <= m < s[k].server_names.len() ==> !#[trigger] name_clash(
                s,
                k,
                m,
            ),
    decreases s.len() - i,
{
    if i < s.len() {
        lemma_no_first_name_clash(s, i, 0);
        lemma_no_collision(s, i + 1);
    }
}

/// A list of servers without collisions has unambiguous listen addresses.
pub proof fn lemma_no_collision_unambiguous(s: Seq<ServerModel>)
    requires
        collision_from(s, 0) == None::<Seq<char>>,
    ensures
        listeners_unambiguous(s),
{
    lemma_no_collision(s, 0);
    assert forall|i: int, k: int|
        0 <= i < k < s.len() && (#[trigger] s[i]).server_names.len() == 0 && (
        #[trigger] s[k]).server_names.len() == 0 implies s[i].listen != s[k].listen by {
        if s[i].listen == s[k].listen {
            assert(default_clash(s, k));
        }
    }
    assert forall|i: int, j: int, k: int, m: int|
        0 <= i < s.len() && 0 <= k < s.len() && 0 <= j < s[i].server_names.len() && 0 <= m
            < s[k].server_names.len() && (i, j) != (k, m) && s[i].listen
            == s[k].listen implies (#[trigger] s[i].server_names[j]) != (
    #[trigger] s[k].server_names[m]) by {
        if s[i].server_names[j] == s[k].server_names[m] {
            if i < k {
                assert(s[i].server_names[j] == s[k].server_names[m]);
                assert(name_clash(s, k, m));
            } else if k < i {
                assert(s[k].server_names[m] == s[i].server_names[j]);
                assert(name_clash(s, i, j));
            } else if j < m {
                assert(s[k].server_names[j] == s[k].server_names[m]);
                assert(name_clash(s, k, m));
            } else {
                assert(s[i].server_names[m] == s[i].server_names[j]);
                assert(name_clash(s, i, j));
            }
        }
    }
}

/// Every configuration that validation accepts is well formed: it has a
/// server, every server has locations with normalized, distinct paths and
/// index files, server names are lowercase, and no listen address has two
/// default servers or a server name bound twice.
pub proof fn lemma_accepted_config_well_formed(
    raw: RawConfig,
    base: Seq<char>,
    probes: Seq<ServerProbe>,
)
    ensures
        config_from_raw_spec(raw, base, probes) matches Ok(s) ==> config_well_formed(s),
{
    lemma_servers_well_formed(raw.servers@, base, probes, 0, seq![]);
    if let Ok(s) = config_from_raw_spec(raw, base, probes) {
        lemma_no_collision_unambiguous(s);
    }
}

// ---------------------------------------------------------------------------
// Proxy targets print back to what they were parsed from
// ---------------------------------------------------------------------------

/// A normalized proxy base path starts with `/` and is its own
/// normalization.
pub proof fn lemma_proxy_base_path_normal(p: Seq<char>)
    ensures
        normalized_proxy_base_path(p).len() > 0,
        normalized_proxy_base_path(p)[0] == '/',
        normalized_proxy_base_path(normalized_proxy_base_path(p)) == normalized_proxy_base_path(
            p,
        ),
{
    lemma_trim_end_shape(p, '/');
    let t = trim_end(p, '/');
    let q = normalized_proxy_base_path(p);
    if t.len() == 0 {
        assert(q.drop_last() =~= Seq::<char>::empty());
        assert(trim_end(q, '/') == trim_end(q.drop_last(), '/'));
    } else if t[0] == '/' {
        lemma_trim_end_shape(t, '/');
    } else {
        assert(q.last() == t.last());
        assert(trim_end(q, '/') == q);
    }
}

/// The position found by `find_from` is the first `c` from `i` on.
proof fn lemma_find_from_is(s: Seq<char>, c: char, i: int, j: int)
    requires
        0 <= i <= j < s.len(),
        s[j] == c,
        forall|k: int| i <= k < j ==> s[k] != c,
    ensures
        find_from(s, c, i) == j,
{
    lemma_find_from(s, c, i);
}

/// The position found by `rfind_before` is the last `c` before `i`.
proof fn lemma_rfind_before_is(s: Seq<char>, c: char, i: int, j: int)
    requires
        0 <= j < i <= s.len(),
        s[j] == c,
        forall|k: int| j < k < i ==> s[k] != c,
    ensures
        rfind_before(s, c, i) == j,
{
    lemma_rfind_before(s, c, i);
}

/// `http://<host><path>`, with a host that holds no `/` or `:`, names that
/// host on port 80, and its base path is the path with its characters kept
/// (when it starts with `/` and does not end with one).
pub proof fn lemma_proxy_target_default_port(h: Seq<char>, q: Seq<char>)
    requires
        h.len() > 0,
        forall|k: int| 0 <= k < h.len() ==> h[k] != '/' && h[k] != ':',
        q.len() > 0,
        q[0] == '/',
        q.last() != '/',
    ensures
        parse_proxy_target_spec(proxy_scheme() + h + q) == Ok::<ProxyTargetModel, Seq<char>>(
            ProxyTargetModel { host: h, port: 80, base_path: q },
        ),
{
    let v = proxy_scheme() + h + q;
    assert(proxy_scheme().is_prefix_of(v)) by {
        assert(v.take(proxy_scheme().len() as int) =~= proxy_scheme());
    }
    let rem = v.skip(proxy_scheme().len() as int);
    assert(rem =~= h + q);
    lemma_find_from(rem, '/', 0);
    let i = find_from(rem, '/', 0);
    if i < h.len() {
        assert(rem[i] == h[i]);
    }
    if i > h.len() {
        assert(rem[h.len() as int] == q[0]);
    }
    assert(i == h.len());
    assert(rem.take(i) =~= h);
    assert(rem.skip(i) =~= q);
    lemma_rfind_before(h, ':', h.len() as int);
    let k = rfind_before(h, ':', h.len() as int);
    assert(k == -1);
    lemma_proxy_base_path_keeps_characters(q);
}

/// Printing a parsed proxy target as `http://<host>:<port><base_path>` and
/// parsing that text again gives back the same target.
pub proof fn lemma_proxy_target_roundtrip(v: Seq<char>)
    ensures
        parse_proxy_target_spec(v) matches Ok(t) ==> parse_proxy_target_spec(
            proxy_scheme() + authority_spec(t) + t.base_path,
        ) == Ok::<ProxyTargetModel, Seq<char>>(t),
{
    if let Ok(t) = parse_proxy_target_spec(v) {
        let rem = v.skip(proxy_scheme().len() as int);
        let i = find_from(rem, '/', 0);
        lemma_find_from(rem, '/', 0);
        let authority = rem.take(i);
        let raw_path = if i < rem.len() {
            rem.skip(i)
        } else {
            seq!['/']
        };
        lemma_proxy_base_path_normal(raw_path);
        let b = t.base_path;
        assert(b == normalized_proxy_base_path(raw_path));
        // The host holds no slash and is not empty.
        let k = rfind_before(authority, ':', authority.len() as int);
        lemma_rfind_before(authority, ':', authority.len() as int);
        assert(t.host.len() > 0);
        assert(forall|a: int| 0 <= a < t.host.len() ==> t.host[a] == authority[a]);
        assert(forall|a: int| 0 <= a < authority.len() ==> authority[a] == rem[a]);
        assert(forall|a: int| 0 <= a < t.host.len() ==> t.host[a] != '/');
        // The printed port is digits.
        let d = decimal(t.port as nat);
        lemma_decimal(t.port as nat);
        assert(forall|a: int| 0 <= a < d.len() ==> is_digit(#[trigger] d[a]));
        let colon = seq![':'];
        let a2 = t.host + colon + d;
        assert(a2 == authority_spec(t));
        let w = proxy_scheme() + a2 + b;
        assert(proxy_scheme().is_prefix_of(w)) by {
            assert(w.subrange(0, proxy_scheme().len() as int) =~= proxy_scheme());
        }
        let rem2 = w.skip(proxy_scheme().len() as int);
        assert(rem2 =~= a2 + b);
        assert forall|a: int| 0 <= a < a2.len() implies rem2[a] != '/' by {
            assert(rem2[a] == a2[a]);
            if a < t.host.len() {
                assert(a2[a] == t.host[a]);
            } else if a > t.host.len() {
                assert(a2[a] == d[a - t.host.len() - 1]);
                assert(is_digit(d[a - t.host.len() - 1]));
            }
        }
        assert(rem2[a2.len() as int] == b[0]);
        lemma_find_from_is(rem2, '/', 0, a2.len() as int);
        assert(rem2.take(a2.len() as int) =~= a2);
        assert(rem2.skip(a2.len() as int) =~= b);
        let h = t.host.len() as int;
        assert(a2[h] == ':');
        assert forall|a: int| h < a < a2.len() implies a2[a] != ':' by {
            assert(a2[a] == d[a - h - 1]);
            assert(is_digit(d[a - h - 1]));
        }
        lemma_rfind_before_is(a2, ':', a2.len() as int, h);
        assert(a2.skip(h + 1) =~= d);
        assert(a2.take(h) =~= t.host);
        lemma_parse_decimal_u16(t.port);
    }
}

} // verus!
