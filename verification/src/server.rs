//! The static site server's decisions: how a request line is read, which files a request may name, and what
//! reply each outcome gets. Reading sockets and files is left to the caller,
//! which hands back what it found.
use vstd::prelude::*;
use crate::text::{
    chars_of, string_of, slice_chars, find_char, find_from, is_whitespace, whitespace, split, split_chars, trim_start, trim_start_chars, contains_char,
    lemma_chars_deep_view, lemma_push_deep_view, decimal, decimal_string, lemma_split_pieces_free,
};
use crate::paths::{
    join_path, join_chars, path_extension, path_extension_chars, is_html_path, is_html_chars,
    path_starts_with, starts_with_path,
};
use vstd::utf8::{valid_utf8, decode_utf8, encode_utf8};
use crate::config::{RootProbe, RootProbeModel};

verus! {

broadcast use vstd::string::group_string_axioms;

// ---------------------------------------------------------------------------
// Errors
// ---------------------------------------------------------------------------

#[derive(Debug, Clone, PartialEq, Eq)]
pub enum ServerError {
    InvalidRootDirectory(String),
    Io(String),
    UnsupportedConfiguration(String),
}

pub enum ServerErrorModel {
    InvalidRootDirectory(Seq<char>),
    Io(Seq<char>),
    UnsupportedConfiguration(Seq<char>),
}

impl View for ServerError {
    type V = ServerErrorModel;

    open spec fn view(&self) -> ServerErrorModel {
        match self {
            ServerError::InvalidRootDirectory(p) => ServerErrorModel::InvalidRootDirectory(p@),
            ServerError::Io(m) => ServerErrorModel::Io(m@),
            ServerError::UnsupportedConfiguration(m) => ServerErrorModel::UnsupportedConfiguration(
                m@,
            ),
        }
    }
}

/// The text of a server error.
pub open spec fn server_error_message(e: ServerErrorModel) -> Seq<char> {
    match e {
        ServerErrorModel::InvalidRootDirectory(p) => "invalid html root directory: "@ + p,
        ServerErrorModel::Io(m) => m,
        ServerErrorModel::UnsupportedConfiguration(m) => m,
    }
}

impl ServerError {
    /// The text of this error.
    pub fn message(&self) -> (r: String)
        ensures
            r@ == server_error_message(self@),
    {
        match self {
            ServerError::InvalidRootDirectory(p) => {
                let mut m = String::from_str("invalid html root directory: ");
                m.append(p.as_str());
                m
            },
            ServerError::Io(m) => m.clone(),
            ServerError::UnsupportedConfiguration(m) => m.clone(),
        }
    }
}

// ---------------------------------------------------------------------------
// The root directory
// ---------------------------------------------------------------------------

/// The canonical root directory to serve, given what `root_dir` resolved to.
pub fn canonicalize_root(root_dir: &str, probe: &RootProbe) -> (r: Result<String, ServerError>)
    ensures
        match probe@ {
            RootProbeModel::Directory(c) => r matches Ok(d) && d@ == c,
            _ => r matches Err(e) && e@ == ServerErrorModel::InvalidRootDirectory(root_dir@),
        },
{
    match probe {
        RootProbe::Directory(c) => Ok(c.clone()),
        _ => Err(ServerError::InvalidRootDirectory(String::from_str(root_dir))),
    }
}

// ---------------------------------------------------------------------------
// The request line
// ---------------------------------------------------------------------------

/// The text before the first line feed.
pub open spec fn first_line(s: Seq<char>) -> Seq<char> {
    s.take(find_from(s, '\n', 0))
}

/// The first position from `i` on that is not white space.
pub open spec fn skip_ws(s: Seq<char>, i: int) -> int
    decreases s.len() - i,
{
    if i < 0 || i >= s.len() {
        s.len() as int
    } else if is_whitespace(s[i]) {
        skip_ws(s, i + 1)
    } else {
        i
    }
}

/// The first position from `i` on that is white space.
pub open spec fn token_end(s: Seq<char>, i: int) -> int
    decreases s.len() - i,
{
    if i < 0 || i >= s.len() {
        s.len() as int
    } else if is_whitespace(s[i]) {
        i
    } else {
        token_end(s, i + 1)
    }
}

proof fn lemma_skip_ws(s: Seq<char>, i: int)
    requires
        0 <= i <= s.len(),
    ensures
        i <= skip_ws(s, i) <= s.len(),
    decreases s.len() - i,
{
    if i < s.len() && is_whitespace(s[i]) {
        lemma_skip_ws(s, i + 1);
    }
}

proof fn lemma_token_end(s: Seq<char>, i: int)
    requires
        0 <= i <= s.len(),
    ensures
        i <= token_end(s, i) <= s.len(),
    decreases s.len() - i,
{
    if i < s.len() && !is_whitespace(s[i]) {
        lemma_token_end(s, i + 1);
    }
}

/// The method and target of a request: the first two white-space separated
/// words of its first line.
pub open spec fn request_line_spec(req: Seq<char>) -> Option<(Seq<char>, Seq<char>)> {
    let line = first_line(req);
    let a = skip_ws(line, 0);
    let b = token_end(line, a);
    let c = skip_ws(line, b);
    let d = token_end(line, c);
    if a >= line.len() || c >= line.len() {
        None
    } else {
        Some((line.subrange(a, b), line.subrange(c, d)))
    }
}

fn skip_ws_at(s: &Vec<char>, from: usize) -> (r: usize)
    requires
        from <= s.len(),
    ensures
        r == skip_ws(s@, from as int),
{
    let mut i = from;
    while i < s.len() && whitespace(s[i])
        invariant
            from <= i <= s.len(),
            skip_ws(s@, from as int) == skip_ws(s@, i as int),
        decreases s.len() - i,
    {
        i += 1;
    }
    i
}

fn token_end_at(s: &Vec<char>, from: usize) -> (r: usize)
    requires
        from <= s.len(),
    ensures
        r == token_end(s@, from as int),
{
    let mut i = from;
    while i < s.len() && !whitespace(s[i])
        invariant
            from <= i <= s.len(),
            token_end(s@, from as int) == token_end(s@, i as int),
        decreases s.len() - i,
    {
        i += 1;
    }
    i
}

/// Reads the method and target from the first line of a request.
pub fn parse_request_line(request: &str) -> (r: Option<(String, String)>)
    ensures
        match (r, request_line_spec(request@)) {
            (Some((m, t)), Some((sm, st))) => m@ == sm && t@ == st,
            (None, None) => true,
            _ => false,
        },
{
    let all = chars_of(request);
    let nl = find_char(&all, '\n', 0);
    let line = slice_chars(&all, 0, nl);
    assert(line@ =~= first_line(request@));
    let a = skip_ws_at(&line, 0);
    proof {
        lemma_skip_ws(line@, 0);
        lemma_token_end(line@, a as int);
    }
    let b = token_end_at(&line, a);
    proof {
        lemma_skip_ws(line@, b as int);
    }
    let c = skip_ws_at(&line, b);
    proof {
        lemma_token_end(line@, c as int);
    }
    let d = token_end_at(&line, c);
    if a >= line.len() || c >= line.len() {
        return None;
    }
    let method = slice_chars(&line, a, b);
    let target = slice_chars(&line, c, d);
    Some((string_of(&method), string_of(&target)))
}

// ---------------------------------------------------------------------------
// Request paths
// ---------------------------------------------------------------------------

#[derive(Debug, Clone, PartialEq, Eq)]
pub enum PathResolutionError {
    TraversalAttempt,
}

/// A piece of a request path that is passed over: empty, or `.`.
pub open spec fn segment_skipped(seg: Seq<char>) -> bool {
    seg.len() == 0 || seg == seq!['.']
}

/// A piece of a request path that is refused: `..`, or one holding a
/// backslash.
pub open spec fn segment_rejected(seg: Seq<char>) -> bool {
    seg == seq!['.', '.'] || seg.contains('\\')
}

/// The kept pieces from position `k` on, after `acc`; `None` when a refused
/// piece comes up.
pub open spec fn sanitize_from(pieces: Seq<Seq<char>>, k: int, acc: Seq<Seq<char>>) -> Option<
    Seq<Seq<char>>,
>
    decreases pieces.len() - k,
{
    if k < 0 || k >= pieces.len() {
        Some(acc)
    } else if segment_skipped(pieces[k]) {
        sanitize_from(pieces, k + 1, acc)
    } else if segment_rejected(pieces[k]) {
        None
    } else {
        sanitize_from(pieces, k + 1, acc.push(pieces[k]))
    }
}

/// The segments a request path names below the root: leading slashes are
/// dropped, the rest is split at `/`, empty and `.` pieces are passed over,
/// and `..` or a backslash refuses the whole path.
pub open spec fn sanitize_spec(p: Seq<char>) -> Option<Seq<Seq<char>>> {
    let t = trim_start(p, '/');
    if t.len() == 0 {
        Some(seq![])
    } else {
        sanitize_from(split(t, '/'), 0, seq![])
    }
}

proof fn lemma_sanitize_from_safe(pieces: Seq<Seq<char>>, k: int, acc: Seq<Seq<char>>)
    requires
        0 <= k,
        forall|j: int| 0 <= j < pieces.len() ==> !(#[trigger] pieces[j]).contains('/'),
        forall|j: int| 0 <= j < acc.len() ==> segment_safe(#[trigger] acc[j]),
    ensures
        sanitize_from(pieces, k, acc) matches Some(segs) ==> forall|j: int|
            0 <= j < segs.len() ==> segment_safe(#[trigger] segs[j]),
    decreases pieces.len() - k,
{
    if k < pieces.len() {
        if segment_skipped(pieces[k]) {
            lemma_sanitize_from_safe(pieces, k + 1, acc);
        } else if !segment_rejected(pieces[k]) {
            let next = acc.push(pieces[k]);
            assert forall|j: int| 0 <= j < next.len() implies segment_safe(#[trigger] next[j]) by {
                if j < acc.len() {
                    assert(next[j] == acc[j]);
                }
            }
            lemma_sanitize_from_safe(pieces, k + 1, next);
        }
    }
}

/// A segment that may be pushed onto the root: not empty, not `.` or `..`,
/// and without separators or backslashes.
pub open spec fn segment_safe(seg: Seq<char>) -> bool {
    &&& !segment_skipped(seg)
    &&& !segment_rejected(seg)
    &&& !seg.contains('/')
}

/// Every segment an accepted request path names is safe: a request path
/// cannot climb out of the root with `..`, nor smuggle in a separator.
pub proof fn lemma_sanitized_segments_safe(p: Seq<char>)
    ensures
        sanitize_spec(p) matches Some(segs) ==> forall|j: int|
            0 <= j < segs.len() ==> segment_safe(#[trigger] segs[j]),
{
    let t = trim_start(p, '/');
    if t.len() > 0 {
        lemma_split_pieces_free(t, '/');
        lemma_sanitize_from_safe(split(t, '/'), 0, seq![]);
    }
}

fn is_two_dots(s: &Vec<char>) -> (r: bool)
    ensures
        r == (s@ == seq!['.', '.']),
{
    let r = s.len() == 2 && s[0] == '.' && s[1] == '.';
    assert(r == (s@ == seq!['.', '.'])) by {
        if s@ == seq!['.', '.'] {
            assert(s@[0] == '.' && s@[1] == '.');
        }
        if r {
            assert(s@ =~= seq!['.', '.']);
        }
    }
    r
}

fn is_one_dot(s: &Vec<char>) -> (r: bool)
    ensures
        r == (s@ == seq!['.']),
{
    let r = s.len() == 1 && s[0] == '.';
    assert(r == (s@ == seq!['.'])) by {
        if s@ == seq!['.'] {
            assert(s@[0] == '.');
        }
        if r {
            assert(s@ =~= seq!['.']);
        }
    }
    r
}

fn sanitize_chars(p: &Vec<char>) -> (r: Option<Vec<Vec<char>>>)
    ensures
        match (r, sanitize_spec(p@)) {
            (Some(v), Some(m)) => v.deep_view() == m,
            (None, None) => true,
            _ => false,
        },
{
    let t = trim_start_chars(p, '/');
    if t.len() == 0 {
        let v: Vec<Vec<char>> = Vec::new();
        assert(v.deep_view() =~= Seq::<Seq<char>>::empty());
        return Some(v);
    }
    let pieces = split_chars(&t, '/');
    let ghost ps = pieces.deep_view();
    let mut out: Vec<Vec<char>> = Vec::new();
    assert(out.deep_view() =~= Seq::<Seq<char>>::empty());
    let mut k: usize = 0;
    while k < pieces.len()
        invariant
            ps == pieces.deep_view(),
            ps == split(t@, '/'),
            t@ == trim_start(p@, '/'),
            t@.len() > 0,
            k <= pieces.len(),
            sanitize_from(ps, 0, seq![]) == sanitize_from(ps, k as int, out.deep_view()),
        decreases pieces.len() - k,
    {
        let piece = &pieces[k];
        proof {
            lemma_chars_deep_view(piece);
        }
        assert(ps[k as int] == piece@);
        if piece.len() == 0 || is_one_dot(piece) {
        } else if is_two_dots(piece) || contains_char(piece, '\\') {
            return None;
        } else {
            let copy = slice_chars(piece, 0, piece.len());
            assert(copy@ =~= piece@);
            let ghost before = out;
            let ghost copy_v = copy;
            out.push(copy);
            proof {
                lemma_push_deep_view(before, out, copy_v);
                lemma_chars_deep_view(&copy_v);
            }
        }
        k += 1;
    }
    Some(out)
}

fn strings_of(v: &Vec<Vec<char>>) -> (r: Vec<String>)
    ensures
        r.deep_view() == v.deep_view(),
{
    let mut r: Vec<String> = Vec::new();
    let mut i: usize = 0;
    while i < v.len()
        invariant
            i <= v.len(),
            r.deep_view() == v.deep_view().take(i as int),
        decreases v.len() - i,
    {
        let s = string_of(&v[i]);
        proof {
            lemma_chars_deep_view(&v[i as int]);
        }
        let ghost before = r;
        let ghost s_copy = s;
        r.push(s);
        proof {
            lemma_push_deep_view(before, r, s_copy);
            assert(r.deep_view() =~= v.deep_view().take(i + 1));
        }
        i += 1;
    }
    assert(v.deep_view().take(v.len() as int) =~= v.deep_view());
    r
}

/// The segments a request path names below the root, or a refusal when it
/// tries to leave the root.
pub fn sanitize_segments(request_path: &str) -> (r: Result<Vec<String>, PathResolutionError>)
    ensures
        match (r, sanitize_spec(request_path@)) {
            (Ok(v), Some(m)) => v.deep_view() == m,
            (Err(_), None) => true,
            _ => false,
        },
        r matches Ok(v) ==> forall|j: int|
            0 <= j < v.deep_view().len() ==> segment_safe(#[trigger] v.deep_view()[j]),
{
    proof {
        lemma_sanitized_segments_safe(request_path@);
    }
    let p = chars_of(request_path);
    match sanitize_chars(&p) {
        Some(v) => Ok(strings_of(&v)),
        None => Err(PathResolutionError::TraversalAttempt),
    }
}

/// `index.html`.
pub open spec fn index_html() -> Seq<char> {
    seq!['i', 'n', 'd', 'e', 'x', '.', 'h', 't', 'm', 'l']
}

/// `.html`.
pub open spec fn html_suffix() -> Seq<char> {
    seq!['.', 'h', 't', 'm', 'l']
}

/// The request path without its query and fragment.
pub open spec fn request_target(p: Seq<char>) -> Seq<char> {
    let q = p.take(find_from(p, '?', 0));
    q.take(find_from(q, '#', 0))
}

/// `base` with each segment pushed onto it in turn.
pub open spec fn push_segments(base: Seq<char>, segs: Seq<Seq<char>>) -> Seq<char>
    decreases segs.len(),
{
    if segs.len() == 0 {
        base
    } else {
        push_segments(join_path(base, segs[0]), segs.drop_first())
    }
}

/// The files that stand for directory `base`: each index file in it.
pub open spec fn index_files(base: Seq<char>, index: Seq<Seq<char>>) -> Seq<Seq<char>> {
    index.map_values(|f: Seq<char>| join_path(base, f))
}

/// The files a request path may name below `root`, best first; `None` when
/// the path tries to leave the root. A path ending in `/` (or naming the
/// root) names the directory's index files; a path without extension names
/// the exact file, then `<path>.html`, then the index files of `<path>/`; a
/// path with an HTML extension names itself; any other path names nothing.
pub open spec fn candidates_with_index(
    root: Seq<char>,
    request_path: Seq<char>,
    index: Seq<Seq<char>>,
) -> Option<Seq<Seq<char>>> {
    let target = request_target(request_path);
    match sanitize_spec(target) {
        None => None,
        Some(segs) => {
            let base = push_segments(root, segs);
            Some(
                if segs.len() == 0 || (target.len() > 0 && target.last() == '/') {
                    index_files(base, index)
                } else if path_extension(base) is None {
                    seq![base, base + html_suffix()] + index_files(base, index)
                } else if is_html_path(base) {
                    seq![base]
                } else {
                    seq![]
                },
            )
        },
    }
}

/// The files a request path may name in single-site mode, where a
/// directory stands for its `index.html`.
pub open spec fn candidates_spec(root: Seq<char>, request_path: Seq<char>) -> Option<
    Seq<Seq<char>>,
> {
    candidates_with_index(root, request_path, seq![index_html()])
}

fn push_index_files(out: &mut Vec<String>, base: &Vec<char>, index: &Vec<String>)
    ensures
        final(out).deep_view() == old(out).deep_view() + index_files(base@, index.deep_view()),
{
    let ghost start = out.deep_view();
    let ghost iv = index.deep_view();
    let mut j: usize = 0;
    while j < index.len()
        invariant
            j <= index.len(),
            iv == index.deep_view(),
            out.deep_view() == start + index_files(base@, iv).take(j as int),
        decreases index.len() - j,
    {
        let f = chars_of(index[j].as_str());
        let file = string_of(&join_chars(base, &f));
        let ghost before = *out;
        let ghost fc = file;
        out.push(file);
        proof {
            lemma_push_deep_view(before, *out, fc);
            assert(index_files(base@, iv).take(j + 1) =~= index_files(base@, iv).take(j as int).push(
                fc@,
            ));
        }
        j += 1;
    }
    assert(index_files(base@, iv).take(j as int) =~= index_files(base@, iv));
}

/// The files a request path may name below `root_dir`, best first, with
/// `index` naming the files that stand for a directory.
pub fn location_candidates(root_dir: &str, request_path: &str, index: &Vec<String>) -> (r: Result<
    Vec<String>,
    PathResolutionError,
>)
    ensures
        match (r, candidates_with_index(root_dir@, request_path@, index.deep_view())) {
            (Ok(v), Some(m)) => v.deep_view() == m,
            (Err(_), None) => true,
            _ => false,
        },
{
    let p = chars_of(request_path);
    let q_end = find_char(&p, '?', 0);
    let q = slice_chars(&p, 0, q_end);
    let h_end = find_char(&q, '#', 0);
    let target = slice_chars(&q, 0, h_end);
    assert(q@ =~= p@.take(find_from(p@, '?', 0)));
    assert(target@ =~= request_target(request_path@));
    let segs = match sanitize_chars(&target) {
        Some(v) => v,
        None => return Err(PathResolutionError::TraversalAttempt),
    };
    let ghost sv = segs.deep_view();
    let mut base = chars_of(root_dir);
    let mut i: usize = 0;
    assert(sv.skip(0) =~= sv);
    while i < segs.len()
        invariant
            sv == segs.deep_view(),
            i <= segs.len(),
            push_segments(root_dir@, sv) == push_segments(base@, sv.skip(i as int)),
        decreases segs.len() - i,
    {
        proof {
            lemma_chars_deep_view(&segs[i as int]);
        }
        assert(sv.skip(i as int).drop_first() =~= sv.skip(i + 1));
        base = join_chars(&base, &segs[i]);
        i += 1;
    }
    assert(sv.skip(i as int) =~= Seq::<Seq<char>>::empty());
    let ends_with_slash = target.len() > 0 && target[target.len() - 1] == '/';
    let mut out: Vec<String> = Vec::new();
    if segs.len() == 0 || ends_with_slash {
        assert(out.deep_view() =~= Seq::<Seq<char>>::empty());
        push_index_files(&mut out, &base, index);
    } else if path_extension_chars(&base).is_none() {
        let mut with_ext = slice_chars(&base, 0, base.len());
        with_ext.push('.');
        with_ext.push('h');
        with_ext.push('t');
        with_ext.push('m');
        with_ext.push('l');
        assert(with_ext@ =~= base@ + html_suffix());
        out.push(string_of(&base));
        out.push(string_of(&with_ext));
        assert(out.deep_view() =~= seq![base@, base@ + html_suffix()]);
        push_index_files(&mut out, &base, index);
    } else if is_html_chars(&base) {
        out.push(string_of(&base));
    }
    proof {
        let m = candidates_with_index(root_dir@, request_path@, index.deep_view());
        assert(out.deep_view() =~= m->0);
    }
    Ok(out)
}

/// The files a request path may name below `root_dir` in single-site
/// mode, best first.
pub fn request_candidates(root_dir: &str, request_path: &str) -> (r: Result<
    Vec<String>,
    PathResolutionError,
>)
    ensures
        match (r, candidates_spec(root_dir@, request_path@)) {
            (Ok(v), Some(m)) => v.deep_view() == m,
            (Err(_), None) => true,
            _ => false,
        },
{
    let mut index: Vec<String> = Vec::new();
    index.push(String::from_str("index.html"));
    proof {
        reveal_strlit("index.html");
        assert("index.html"@ =~= index_html());
        assert(index.deep_view()[0] == index[0]@);
        assert(index.deep_view() =~= seq![index_html()]);
    }
    location_candidates(root_dir, request_path, &index)
}

/// What was found on disk about one candidate file: whether it is a file,
/// and its canonical path when it could be canonicalized.
#[derive(Debug, Clone)]
pub struct CandidateProbe {
    pub is_file: bool,
    pub canonical: Option<String>,
}

/// Whether candidate `i` is served: it is a file with an HTML name, or the
/// exact file an extensionless request names, whose canonical path lies
/// under the root.
pub open spec fn candidate_accepted(
    root: Seq<char>,
    cands: Seq<Seq<char>>,
    probes: Seq<CandidateProbe>,
    i: int,
) -> bool {
    &&& 0 <= i < cands.len()
    &&& i < probes.len()
    &&& probes[i].is_file
    &&& (is_html_path(cands[i]) || path_extension(cands[i]) is None)
    &&& probes[i].canonical is Some
    &&& path_starts_with(probes[i].canonical->0@, root)
}

/// The canonical path of the first accepted candidate from position `i` on.
pub open spec fn select_from(
    root: Seq<char>,
    cands: Seq<Seq<char>>,
    probes: Seq<CandidateProbe>,
    i: int,
) -> Option<Seq<char>>
    decreases cands.len() - i,
{
    if i < 0 || i >= cands.len() {
        None
    } else if candidate_accepted(root, cands, probes, i) {
        Some(probes[i].canonical->0@)
    } else {
        select_from(root, cands, probes, i + 1)
    }
}

/// The file to serve among the candidates, given what was found on disk
/// about each (in the same order).
pub fn select_candidate(root_dir: &str, candidates: &Vec<String>, probes: &Vec<CandidateProbe>) -> (r:
    Option<String>)
    ensures
        match (r, select_from(root_dir@, candidates.deep_view(), probes@, 0)) {
            (Some(p), Some(m)) => p@ == m,
            (None, None) => true,
            _ => false,
        },
        r matches Some(p) ==> path_starts_with(p@, root_dir@),
{
    let root = chars_of(root_dir);
    let ghost cs = candidates.deep_view();
    let mut i: usize = 0;
    while i < candidates.len()
        invariant
            cs == candidates.deep_view(),
            root@ == root_dir@,
            i <= candidates.len(),
            select_from(root_dir@, cs, probes@, 0) == select_from(root_dir@, cs, probes@, i as int),
        decreases candidates.len() - i,
    {
        if i < probes.len() && probes[i].is_file {
            let cand = chars_of(candidates[i].as_str());
            assert(cs[i as int] == cand@);
            if is_html_chars(&cand) || path_extension_chars(&cand).is_none() {
                match &probes[i].canonical {
                    Some(c) => {
                        let cc = chars_of(c.as_str());
                        if starts_with_path(&cc, &root) {
                            return Some(c.clone());
                        }
                    },
                    None => {},
                }
            }
        }
        i += 1;
    }
    None
}

/// The file to serve for a request path below `root_dir`, given what was
/// found on disk about each of its candidates, in order; a refusal when the
/// path tries to leave the root. A file is only ever served from under the
/// root.
pub fn resolve_request_file(root_dir: &str, request_path: &str, probes: &Vec<CandidateProbe>) -> (r:
    Result<Option<String>, PathResolutionError>)
    ensures
        match (r, candidates_spec(root_dir@, request_path@)) {
            (Ok(f), Some(cs)) => match (f, select_from(root_dir@, cs, probes@, 0)) {
                (Some(p), Some(m)) => p@ == m,
                (None, None) => true,
                _ => false,
            },
            (Err(_), None) => true,
            _ => false,
        },
        r matches Ok(Some(p)) ==> path_starts_with(p@, root_dir@),
{
    let candidates = request_candidates(root_dir, request_path)?;
    Ok(select_candidate(root_dir, &candidates, probes))
}

// ---------------------------------------------------------------------------
// Routing a request
// ---------------------------------------------------------------------------

/// What `String::from_utf8_lossy` makes of a byte sequence.
pub uninterp spec fn utf8_lossy(bytes: Seq<u8>) -> Seq<char>;

/// std's `String::from_utf8_lossy`: the bytes read as UTF-8, with each
/// invalid sequence replaced by U+FFFD. Its result is named, not spelled
/// out; what is stated is that bytes that are valid UTF-8 read as the
/// characters they encode.
#[verifier::external_body]
pub(crate) fn decode_lossy(bytes: &[u8]) -> (r: String)
    ensures
        r@ == utf8_lossy(bytes@),
        valid_utf8(bytes@) ==> r@ == decode_utf8(bytes@),
{
    String::from_utf8_lossy(bytes).into_owned()
}

/// What to do with a request.
#[derive(Debug)]
pub enum RequestRoute {
    /// Nothing was received: close without a reply.
    Ignore,
    /// Reply at once with this status and plain-text message.
    Reply { status: String, message: String },
    /// Serve the first of these files that is found (see
    /// [`select_candidate`]), else reply that none was found.
    Lookup { candidates: Vec<String> },
}

pub enum RouteModel {
    Ignore,
    Reply { status: Seq<char>, message: Seq<char> },
    Lookup(Seq<Seq<char>>),
}

impl View for RequestRoute {
    type V = RouteModel;

    open spec fn view(&self) -> RouteModel {
        match self {
            RequestRoute::Ignore => RouteModel::Ignore,
            RequestRoute::Reply { status, message } => RouteModel::Reply {
                status: status@,
                message: message@,
            },
            RequestRoute::Lookup { candidates } => RouteModel::Lookup(candidates.deep_view()),
        }
    }
}

/// What to do with a request's text: a request without a method and
/// target is malformed; only `GET` is served; a target that tries to leave
/// the root is refused; any other names its candidate files.
pub open spec fn route_text_spec(root: Seq<char>, req: Seq<char>) -> RouteModel {
    match request_line_spec(req) {
        None => RouteModel::Reply {
            status: "400 Bad Request"@,
            message: "Malformed HTTP request."@,
        },
        Some((method, target)) => {
            if method != "GET"@ {
                RouteModel::Reply {
                    status: "405 Method Not Allowed"@,
                    message: "Only GET requests are supported."@,
                }
            } else {
                match candidates_spec(root, target) {
                    None => RouteModel::Reply {
                        status: "400 Bad Request"@,
                        message: "Invalid request path."@,
                    },
                    Some(c) => RouteModel::Lookup(c),
                }
            }
        },
    }
}

fn reply_route(status: &str, message: &str) -> (r: RequestRoute)
    ensures
        r@ == (RouteModel::Reply { status: status@, message: message@ }),
{
    RequestRoute::Reply { status: String::from_str(status), message: String::from_str(message) }
}

/// What to do with a request, given its text.
pub fn route_request_text(root_dir: &str, request: &str) -> (r: RequestRoute)
    ensures
        r@ == route_text_spec(root_dir@, request@),
{
    match parse_request_line(request) {
        None => reply_route("400 Bad Request", "Malformed HTTP request."),
        Some((method, target)) => {
            let get = String::from_str("GET");
            if !(method == get) {
                reply_route("405 Method Not Allowed", "Only GET requests are supported.")
            } else {
                match request_candidates(root_dir, target.as_str()) {
                    Err(_) => reply_route("400 Bad Request", "Invalid request path."),
                    Ok(c) => RequestRoute::Lookup { candidates: c },
                }
            }
        },
    }
}

/// What to do with the bytes received on a connection: nothing when none
/// came; else they are read as UTF-8 (invalid sequences replaced) and
/// routed.
pub fn route_request(root_dir: &str, request: &[u8]) -> (r: RequestRoute)
    ensures
        request@.len() == 0 ==> r@ == RouteModel::Ignore,
        request@.len() > 0 ==> r@ == route_text_spec(root_dir@, utf8_lossy(request@)),
{
    if request.len() == 0 {
        return RequestRoute::Ignore;
    }
    let text = decode_lossy(request);
    route_request_text(root_dir, text.as_str())
}

// ---------------------------------------------------------------------------
// Replies
// ---------------------------------------------------------------------------

/// A reply: status line text, content type and body.
#[derive(Debug, Clone)]
pub struct HttpReply {
    pub status: String,
    pub content_type: String,
    pub body: Vec<u8>,
}

/// A plain-text reply carrying `message` as UTF-8.
pub fn text_reply(status: &str, message: &str) -> (r: HttpReply)
    ensures
        r.status@ == status@,
        r.content_type@ == "text/plain; charset=utf-8"@,
        r.body@ == encode_utf8(message@),
{
    HttpReply {
        status: String::from_str(status),
        content_type: String::from_str("text/plain; charset=utf-8"),
        body: vstd::slice::slice_to_vec(message.as_bytes()),
    }
}

/// What reading the chosen file gave.
#[derive(Debug)]
pub enum FileLookup {
    /// No candidate was served.
    Missing,
    /// The chosen file could not be read.
    Unreadable,
    /// The chosen file's contents.
    Contents(Vec<u8>),
}

/// The reply to a lookup: the file as HTML, or why there is none.
pub fn file_reply(lookup: FileLookup) -> (r: HttpReply)
    ensures
        match lookup {
            FileLookup::Missing => r.status@ == "404 Not Found"@ && r.content_type@
                == "text/plain; charset=utf-8"@ && r.body@ == encode_utf8("HTML file not found."@),
            FileLookup::Unreadable => r.status@ == "500 Internal Server Error"@ && r.content_type@
                == "text/plain; charset=utf-8"@ && r.body@
                == encode_utf8("Failed to read the requested HTML file."@),
            FileLookup::Contents(b) => r.status@ == "200 OK"@ && r.content_type@
                == "text/html; charset=utf-8"@ && r.body@ == b@,
        },
{
    match lookup {
        FileLookup::Missing => text_reply("404 Not Found", "HTML file not found."),
        FileLookup::Unreadable => text_reply(
            "500 Internal Server Error",
            "Failed to read the requested HTML file.",
        ),
        FileLookup::Contents(body) => HttpReply {
            status: String::from_str("200 OK"),
            content_type: String::from_str("text/html; charset=utf-8"),
            body,
        },
    }
}

/// The header of a reply.
pub open spec fn reply_head_spec(status: Seq<char>, content_type: Seq<char>, len: nat) -> Seq<char> {
    "HTTP/1.1 "@ + status + "\r\nContent-Type: "@ + content_type + "\r\nContent-Length: "@
        + decimal(len) + "\r\nConnection: close\r\n\r\n"@
}

/// The header of a reply: status line, content type, body length, and
/// that the connection closes.
pub fn reply_head(reply: &HttpReply) -> (r: String)
    ensures
        r@ == reply_head_spec(reply.status@, reply.content_type@, reply.body@.len()),
{
    let mut h = String::from_str("HTTP/1.1 ");
    h.append(reply.status.as_str());
    h.append("\r\nContent-Type: ");
    h.append(reply.content_type.as_str());
    h.append("\r\nContent-Length: ");
    h.append(decimal_string(reply.body.len() as u64).as_str());
    h.append("\r\nConnection: close\r\n\r\n");
    h
}

} // verus!
