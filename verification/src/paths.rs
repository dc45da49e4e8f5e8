//! Unix path text: joining, file names, extensions and component prefixes,
//! modelled on character sequences.
use vstd::prelude::*;
use crate::text::{
    append_chars, slice_chars, chars_eq, split, split_chars, rfind_before, rfind_char,
    lemma_rfind_before, lower_char, ascii_lower, lemma_chars_deep_view, lemma_push_deep_view,
};

verus! {

broadcast use vstd::string::group_string_axioms;

/// Whether a Unix path is absolute (it has a root).
pub open spec fn is_absolute(p: Seq<char>) -> bool {
    p.len() > 0 && p[0] == '/'
}

/// `base` joined with `p` (std's `Path::join` on Unix): an absolute `p`
/// replaces `base`; otherwise a separator is put between them unless `base`
/// is empty or already ends with one.
pub open spec fn join_path(base: Seq<char>, p: Seq<char>) -> Seq<char> {
    if is_absolute(p) {
        p
    } else if base.len() == 0 || base.last() == '/' {
        base + p
    } else {
        base + seq!['/'] + p
    }
}

/// `base` joined with `p`.
pub fn join_chars(base: &Vec<char>, p: &Vec<char>) -> (r: Vec<char>)
    ensures
        r@ == join_path(base@, p@),
{
    if p.len() > 0 && p[0] == '/' {
        return slice_chars(p, 0, p.len());
    }
    let mut r = slice_chars(base, 0, base.len());
    if !(base.len() == 0 || base[base.len() - 1] == '/') {
        r.push('/');
    }
    append_chars(&mut r, p);
    proof {
        assert(base@.subrange(0, base@.len() as int) =~= base@);
        assert(p@.subrange(0, p@.len() as int) =~= p@);
    }
    r
}

// ---------------------------------------------------------------------------
// File names and extensions
// ---------------------------------------------------------------------------

/// The last normal component of a Unix path (std's `Path::file_name`):
/// trailing separators and `.` components are passed over; a path that ends
/// in `..`, or that has no normal component, has none.
pub open spec fn file_name(p: Seq<char>) -> Option<Seq<char>>
    decreases p.len(),
{
    let k = rfind_before(p, '/', p.len() as int);
    let seg = p.skip(k + 1);
    if seg.len() == 0 || seg == seq!['.'] {
        if k < 0 {
            None
        } else {
            proof {
                lemma_rfind_before(p, '/', p.len() as int);
            }
            file_name(p.take(k))
        }
    } else if seg == seq!['.', '.'] {
        None
    } else {
        Some(seg)
    }
}

/// The extension of a file name (std's rule): the text after its last `.`,
/// when that dot is not its first character.
pub open spec fn name_extension(name: Seq<char>) -> Option<Seq<char>> {
    let k = rfind_before(name, '.', name.len() as int);
    if name == seq!['.', '.'] || k <= 0 {
        None
    } else {
        Some(name.skip(k + 1))
    }
}

/// The extension of a path (std's `Path::extension`).
pub open spec fn path_extension(p: Seq<char>) -> Option<Seq<char>> {
    match file_name(p) {
        Some(n) => name_extension(n),
        None => None,
    }
}

/// Whether a path names an HTML file: its extension is `html` or `htm` in
/// any ASCII case.
pub open spec fn is_html_path(p: Seq<char>) -> bool {
    match path_extension(p) {
        Some(e) => ascii_lower(e) == seq!['h', 't', 'm', 'l'] || ascii_lower(e) == seq![
            'h',
            't',
            'm',
        ],
        None => false,
    }
}

/// The file name of a path.
pub fn file_name_chars(p: &Vec<char>) -> (r: Option<Vec<char>>)
    ensures
        match (r, file_name(p@)) {
            (Some(n), Some(m)) => n@ == m,
            (None, None) => true,
            _ => false,
        },
{
    let mut end: usize = p.len();
    assert(p@.take(end as int) =~= p@);
    loop
        invariant
            end <= p.len(),
            file_name(p@.take(end as int)) == file_name(p@),
        decreases end,
    {
        let ghost q = p@.take(end as int);
        let head = slice_chars(p, 0, end);
        assert(head@ =~= q);
        let k = rfind_char(&head, '/');
        proof {
            lemma_rfind_before(q, '/', q.len() as int);
        }
        let start: usize = match k {
            Some(k) => k + 1,
            None => 0,
        };
        let seg = slice_chars(p, start, end);
        assert(seg@ =~= q.skip(rfind_before(q, '/', q.len() as int) + 1));
        let is_dot = seg.len() == 1 && seg[0] == '.';
        let is_dotdot = seg.len() == 2 && seg[0] == '.' && seg[1] == '.';
        assert(is_dot == (seg@ == seq!['.'])) by {
            if seg@ == seq!['.'] {
                assert(seg@[0] == '.');
            }
            if is_dot {
                assert(seg@ =~= seq!['.']);
            }
        }
        assert(is_dotdot == (seg@ == seq!['.', '.'])) by {
            if seg@ == seq!['.', '.'] {
                assert(seg@[0] == '.' && seg@[1] == '.');
            }
            if is_dotdot {
                assert(seg@ =~= seq!['.', '.']);
            }
        }
        if seg.len() == 0 || is_dot {
            match k {
                None => {
                    return None;
                },
                Some(k) => {
                    assert(q.take(k as int) =~= p@.take(k as int));
                    end = k;
                },
            }
        } else if is_dotdot {
            return None;
        } else {
            return Some(seg);
        }
    }
}

/// The extension of a file name.
fn name_extension_chars(name: &Vec<char>) -> (r: Option<Vec<char>>)
    ensures
        match (r, name_extension(name@)) {
            (Some(e), Some(m)) => e@ == m,
            (None, None) => true,
            _ => false,
        },
{
    let is_dotdot = name.len() == 2 && name[0] == '.' && name[1] == '.';
    assert(is_dotdot == (name@ == seq!['.', '.'])) by {
        if name@ == seq!['.', '.'] {
            assert(name@[0] == '.' && name@[1] == '.');
        }
        if is_dotdot {
            assert(name@ =~= seq!['.', '.']);
        }
    }
    proof {
        lemma_rfind_before(name@, '.', name@.len() as int);
    }
    match rfind_char(name, '.') {
        Some(k) if k > 0 && !is_dotdot => {
            let e = slice_chars(name, k + 1, name.len());
            assert(e@ =~= name@.skip(k + 1));
            Some(e)
        },
        _ => None,
    }
}

/// The extension of a path.
pub fn path_extension_chars(p: &Vec<char>) -> (r: Option<Vec<char>>)
    ensures
        match (r, path_extension(p@)) {
            (Some(e), Some(m)) => e@ == m,
            (None, None) => true,
            _ => false,
        },
{
    match file_name_chars(p) {
        Some(n) => name_extension_chars(&n),
        None => None,
    }
}

fn lower_chars(s: &Vec<char>) -> (r: Vec<char>)
    ensures
        r@ == ascii_lower(s@),
{
    let mut r: Vec<char> = Vec::new();
    let mut i: usize = 0;
    while i < s.len()
        invariant
            i <= s.len(),
            r@ == ascii_lower(s@).take(i as int),
        decreases s.len() - i,
    {
        let c = s[i];
        let l = if 'A' <= c && c <= 'Z' {
            ((c as u8) + 32) as char
        } else {
            c
        };
        assert(l == lower_char(c));
        r.push(l);
        i += 1;
        assert(r@ =~= ascii_lower(s@).take(i as int));
    }
    assert(ascii_lower(s@).take(s.len() as int) =~= ascii_lower(s@));
    r
}

/// Whether a path names an HTML file (`.html` or `.htm`, any ASCII case).
pub fn is_html_file(path: &str) -> (r: bool)
    ensures
        r == is_html_path(path@),
{
    let p = crate::text::chars_of(path);
    is_html_chars(&p)
}

/// Whether a path names an HTML file.
pub fn is_html_chars(p: &Vec<char>) -> (r: bool)
    ensures
        r == is_html_path(p@),
{
    match path_extension_chars(p) {
        Some(e) => {
            let l = lower_chars(&e);
            let mut html: Vec<char> = Vec::new();
            html.push('h');
            html.push('t');
            html.push('m');
            let htm = slice_chars(&html, 0, 3);
            html.push('l');
            assert(htm@ =~= seq!['h', 't', 'm']);
            assert(html@ =~= seq!['h', 't', 'm', 'l']);
            chars_eq(&l, &html) || chars_eq(&l, &htm)
        },
        None => false,
    }
}

// ---------------------------------------------------------------------------
// Components and prefixes
// ---------------------------------------------------------------------------

/// Whether piece `k` of a path split at `/` is a component (std's
/// `Path::components` on Unix): empty pieces and `.` pieces are skipped,
/// except a `.` that starts a relative path.
pub open spec fn keeps_piece(pieces: Seq<Seq<char>>, k: int, absolute: bool) -> bool {
    pieces[k].len() > 0 && (pieces[k] != seq!['.'] || (k == 0 && !absolute))
}

/// The components from piece `k` on.
pub open spec fn components_from(pieces: Seq<Seq<char>>, k: int, absolute: bool) -> Seq<Seq<char>>
    decreases pieces.len() - k,
{
    if k < 0 || k >= pieces.len() {
        seq![]
    } else if keeps_piece(pieces, k, absolute) {
        seq![pieces[k]] + components_from(pieces, k + 1, absolute)
    } else {
        components_from(pieces, k + 1, absolute)
    }
}

/// The components of a Unix path; the root, when there is one, is the
/// component `/` (which no other component can be).
pub open spec fn path_components(p: Seq<char>) -> Seq<Seq<char>> {
    (if is_absolute(p) {
        seq![seq!['/']]
    } else {
        seq![]
    }) + components_from(split(p, '/'), 0, is_absolute(p))
}

/// Whether `path` lies under `base` (std's `Path::starts_with`): the
/// components of `base` begin the components of `path`.
pub open spec fn path_starts_with(path: Seq<char>, base: Seq<char>) -> bool {
    path_components(base).is_prefix_of(path_components(path))
}

fn components_chars(p: &Vec<char>) -> (r: Vec<Vec<char>>)
    ensures
        r.deep_view() == path_components(p@),
{
    let absolute = p.len() > 0 && p[0] == '/';
    let pieces = split_chars(p, '/');
    let ghost ps = split(p@, '/');
    let mut r: Vec<Vec<char>> = Vec::new();
    if absolute {
        let mut root: Vec<char> = Vec::new();
        root.push('/');
        let ghost before = r;
        let ghost root_copy = root;
        r.push(root);
        proof {
            lemma_push_deep_view(before, r, root_copy);
            lemma_chars_deep_view(&root_copy);
        }
    }
    assert(r.deep_view() =~= (if absolute {
        seq![seq!['/']]
    } else {
        seq![]
    }));
    let ghost head = r.deep_view();
    let mut k: usize = 0;
    while k < pieces.len()
        invariant
            pieces.deep_view() == ps,
            ps == split(p@, '/'),
            absolute == crate::paths::is_absolute(p@),
            k <= pieces.len(),
            r.deep_view() + components_from(ps, k as int, absolute) == head + components_from(
                ps,
                0,
                absolute,
            ),
        decreases pieces.len() - k,
    {
        let piece = &pieces[k];
        proof {
            lemma_chars_deep_view(piece);
        }
        assert(ps[k as int] == piece@);
        let is_dot = piece.len() == 1 && piece[0] == '.';
        assert(is_dot == (piece@ == seq!['.'])) by {
            if piece@ == seq!['.'] {
                assert(piece@[0] == '.');
            }
            if is_dot {
                assert(piece@ =~= seq!['.']);
            }
        }
        if piece.len() > 0 && (!is_dot || (k == 0 && !absolute)) {
            let copy = slice_chars(piece, 0, piece.len());
            assert(copy@ =~= piece@);
            let ghost before = r;
            let ghost copy_v = copy;
            r.push(copy);
            proof {
                lemma_push_deep_view(before, r, copy_v);
                lemma_chars_deep_view(&copy_v);
                assert(r.deep_view() + components_from(ps, k + 1, absolute) =~= before.deep_view()
                    + components_from(ps, k as int, absolute));
            }
        }
        k += 1;
    }
    r
}

/// Whether `path` lies under `base`, component by component.
pub fn starts_with_path(path: &Vec<char>, base: &Vec<char>) -> (r: bool)
    ensures
        r == path_starts_with(path@, base@),
{
    let pc = components_chars(path);
    let bc = components_chars(base);
    if bc.len() > pc.len() {
        return false;
    }
    let mut i: usize = 0;
    while i < bc.len()
        invariant
            bc.len() <= pc.len(),
            i <= bc.len(),
            bc.deep_view() == path_components(base@),
            pc.deep_view() == path_components(path@),
            forall|j: int| 0 <= j < i ==> bc.deep_view()[j] == pc.deep_view()[j],
        decreases bc.len() - i,
    {
        proof {
            lemma_chars_deep_view(&bc[i as int]);
            lemma_chars_deep_view(&pc[i as int]);
        }
        if !chars_eq(&bc[i], &pc[i]) {
            assert(bc.deep_view()[i as int] != pc.deep_view().subrange(
                0,
                bc.deep_view().len() as int,
            )[i as int]);
            return false;
        }
        i += 1;
    }
    assert(bc.deep_view() =~= pc.deep_view().subrange(0, bc.deep_view().len() as int));
    true
}

// ---------------------------------------------------------------------------
// Parent directories
// ---------------------------------------------------------------------------

/// A path without trailing separators and trailing `.` components (a lone
/// root stays).
pub open spec fn trim_path_end(s: Seq<char>) -> Seq<char>
    decreases s.len(),
{
    if s.len() > 1 && s.last() == '/' {
        trim_path_end(s.drop_last())
    } else if s.len() >= 2 && s.last() == '.' && s[s.len() - 2] == '/' {
        trim_path_end(s.drop_last())
    } else {
        s
    }
}

/// The parent of a Unix path (std's `Path::parent`): the path without its
/// last component; none for the empty path and for the root.
pub open spec fn path_parent(p: Seq<char>) -> Option<Seq<char>> {
    let t = trim_path_end(p);
    let k = rfind_before(t, '/', t.len() as int);
    if t.len() == 0 || t == seq!['/'] {
        None
    } else if k < 0 {
        Some(seq![])
    } else {
        let h = trim_path_end(t.take(k));
        if h.len() == 0 {
            Some(seq!['/'])
        } else {
            Some(h)
        }
    }
}

/// The directory a configuration file's relative paths are taken from: its
/// parent, or `.` when it has none.
pub open spec fn config_dir_spec(p: Seq<char>) -> Seq<char> {
    match path_parent(p) {
        Some(q) => q,
        None => seq!['.'],
    }
}

fn trim_path_end_chars(s: &Vec<char>) -> (r: Vec<char>)
    ensures
        r@ == trim_path_end(s@),
{
    let mut n = s.len();
    assert(s@.take(n as int) =~= s@);
    while n > 1 && (s[n - 1] == '/' || (s[n - 1] == '.' && s[n - 2] == '/'))
        invariant
            n <= s.len(),
            trim_path_end(s@.take(n as int)) == trim_path_end(s@),
        decreases n,
    {
        assert(s@.take(n as int).drop_last() =~= s@.take(n - 1));
        n -= 1;
    }
    slice_chars(s, 0, n)
}

/// The directory a configuration file's relative paths are taken from.
pub fn config_dir(path: &str) -> (r: String)
    ensures
        r@ == config_dir_spec(path@),
{
    let p = crate::text::chars_of(path);
    let t = trim_path_end_chars(&p);
    let is_root = t.len() == 1 && t[0] == '/';
    assert(is_root == (t@ == seq!['/'])) by {
        if t@ == seq!['/'] {
            assert(t@[0] == '/');
        }
        if is_root {
            assert(t@ =~= seq!['/']);
        }
    }
    let mut out: Vec<char> = Vec::new();
    if t.len() == 0 || is_root {
        out.push('.');
        assert(out@ =~= seq!['.']);
    } else {
        proof {
            lemma_rfind_before(t@, '/', t@.len() as int);
        }
        match rfind_char(&t, '/') {
            None => {
                assert(out@ =~= Seq::<char>::empty());
            },
            Some(k) => {
                let head = slice_chars(&t, 0, k);
                assert(head@ =~= t@.take(k as int));
                let h = trim_path_end_chars(&head);
                if h.len() == 0 {
                    out.push('/');
                    assert(out@ =~= seq!['/']);
                } else {
                    out = h;
                }
            },
        }
    }
    crate::text::string_of(&out)
}

} // verus!
