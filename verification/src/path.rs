//! File names, extensions and components of `/`-separated paths, as
//! `Path::file_name`, `Path::extension` and `Path::components` read them on
//! Unix.

use vstd::prelude::*;

use crate::text::{
    chars_eq, chars_of, first_index_exec, first_index_of, last_index_exec, last_index_of,
    lemma_first_index_bounds, lemma_last_index_of, string_from_chars, subrange_vec,
};

verus! {

/// The last component of `p` that names a file or directory: components are
/// separated by `/`, empty components and `.` ones are skipped, and a path
/// whose last component is `..`, or that has none, names nothing.
pub open spec fn file_name(p: Seq<char>) -> Option<Seq<char>>
    decreases p.len(),
{
    let k = last_index_of(p, '/');
    let seg = p.skip(k + 1);
    if seg.len() == 0 || seg == seq!['.'] {
        if k < 0 {
            None
        } else {
            proof {
                lemma_last_index_of(p, '/');
            }
            file_name(p.take(k))
        }
    } else if seg == seq!['.', '.'] {
        None
    } else {
        Some(seg)
    }
}

/// The extension of a file name: what follows its last `.`, where that dot
/// is not the name's first character.
pub open spec fn name_extension(name: Seq<char>) -> Option<Seq<char>> {
    let d = last_index_of(name, '.');
    if d <= 0 {
        None
    } else {
        Some(name.skip(d + 1))
    }
}

/// The extension of the file that `p` names, if any.
pub open spec fn path_extension(p: Seq<char>) -> Option<Seq<char>> {
    match file_name(p) {
        Some(name) => name_extension(name),
        None => None,
    }
}

/// The last `.` of `stem + "." + ext`, where `ext` holds none, is the one
/// before `ext`, whatever dots `stem` holds.
proof fn lemma_last_dot_before_extension(stem: Seq<char>, ext: Seq<char>)
    requires
        !ext.contains('.'),
    ensures
        last_index_of(stem + "."@ + ext, '.') == stem.len(),
{
    reveal_strlit(".");
    let name = stem + "."@ + ext;
    lemma_last_index_of(name, '.');
    assert(name[stem.len() as int] == '.');
    assert forall|j: int| stem.len() < j < name.len() implies name[j] != '.' by {
        assert(name[j] == ext[j - stem.len() - 1]);
    }
}

/// The extension of a file is what follows the last `.` of its name,
/// however many dots the name holds and in whatever directory the file
/// lies: `stem.ext` and `dir/stem.ext` both have the extension `ext`.
pub proof fn lemma_file_extension(dir: Seq<char>, stem: Seq<char>, ext: Seq<char>)
    requires
        stem.len() > 0,
        ext.len() > 0,
        !stem.contains('/'),
        !ext.contains('/'),
        !ext.contains('.'),
    ensures
        path_extension(stem + "."@ + ext) == Some(ext),
        path_extension(dir + "/"@ + stem + "."@ + ext) == Some(ext),
{
    reveal_strlit(".");
    reveal_strlit("/");
    let name = stem + "."@ + ext;
    assert(!name.contains('/')) by {
        assert forall|j: int| 0 <= j < name.len() implies name[j] != '/' by {
            if j < stem.len() {
                assert(name[j] == stem[j]);
            } else if j > stem.len() {
                assert(name[j] == ext[j - stem.len() - 1]);
            }
        }
    }
    lemma_last_dot_before_extension(stem, ext);
    assert(name.skip(stem.len() + 1int) =~= ext);
    assert(name_extension(name) == Some(ext));
    assert(name.len() >= 3);
    assert(name != seq!['.']);
    assert(name != seq!['.', '.']);
    // the file name of `name` alone
    lemma_last_index_of(name, '/');
    if last_index_of(name, '/') >= 0 {
        assert(name.contains(name[last_index_of(name, '/')]));
    }
    assert(name.skip(0) =~= name);
    assert(file_name(name) == Some(name));
    // the file name of `dir/name`
    let p = dir + "/"@ + name;
    assert(p =~= dir + "/"@ + stem + "."@ + ext);
    lemma_last_index_of(p, '/');
    assert(p[dir.len() as int] == '/');
    assert forall|j: int| dir.len() < j < p.len() implies p[j] != '/' by {
        assert(p[j] == name[j - dir.len() - 1]);
        assert(name.contains(name[j - dir.len() - 1]));
    }
    assert(last_index_of(p, '/') == dir.len());
    assert(p.skip(dir.len() + 1int) =~= name);
    assert(file_name(p) == Some(name));
}

/// A file whose name has no `.` past its first character has no
/// extension, in whatever directory it lies: `README`, `dir/Makefile` and
/// hidden files such as `.html` or `dir/.bashrc`.
pub proof fn lemma_file_without_extension(dir: Seq<char>, name: Seq<char>)
    requires
        name.len() > 0,
        name != seq!['.'],
        name != seq!['.', '.'],
        !name.contains('/'),
        forall|j: int| 0 < j < name.len() ==> name[j] != '.',
    ensures
        path_extension(name) is None,
        path_extension(dir + "/"@ + name) is None,
{
    reveal_strlit("/");
    lemma_last_index_of(name, '.');
    lemma_last_index_of(name, '/');
    if last_index_of(name, '/') >= 0 {
        assert(name.contains(name[last_index_of(name, '/')]));
    }
    assert(name.skip(0) =~= name);
    assert(file_name(name) == Some(name));
    let p = dir + "/"@ + name;
    lemma_last_index_of(p, '/');
    assert(p[dir.len() as int] == '/');
    assert forall|j: int| dir.len() < j < p.len() implies p[j] != '/' by {
        assert(p[j] == name[j - dir.len() - 1]);
        assert(name.contains(name[j - dir.len() - 1]));
    }
    assert(p.skip(dir.len() + 1int) =~= name);
    assert(file_name(p) == Some(name));
}

/// The file name of `p`, as characters.
fn file_name_chars(p: &[char]) -> (res: Option<Vec<char>>)
    ensures
        match res {
            Some(n) => file_name(p@) == Some(n@),
            None => file_name(p@) is None,
        },
{
    let mut cur = subrange_vec(p, 0, p.len());
    assert(p@.subrange(0, p@.len() as int) =~= p@);
    loop
        invariant
            file_name(p@) == file_name(cur@),
        decreases cur@.len(),
    {
        let n = cur.len();
        let k = last_index_exec(&cur, '/');
        let start = match k {
            Some(k) => k + 1,
            None => 0,
        };
        let seg = subrange_vec(&cur, start, n);
        assert(cur@.skip(last_index_of(cur@, '/') + 1) =~= seg@);
        let is_dot = seg.len() == 1 && seg[0] == '.';
        assert(is_dot <==> seg@ == seq!['.']) by {
            if is_dot {
                assert(seg@ =~= seq!['.']);
            }
            if seg@ == seq!['.'] {
                assert(seg@.len() == 1 && seg@[0] == '.');
            }
        }
        if seg.len() == 0 || is_dot {
            match k {
                None => {
                    return None;
                },
                Some(k) => {
                    let ghost prev = cur@;
                    cur = subrange_vec(&cur, 0, k);
                    assert(cur@ =~= prev.take(k as int));
                },
            }
        } else if seg.len() == 2 && seg[0] == '.' && seg[1] == '.' {
            assert(seg@ =~= seq!['.', '.']);
            return None;
        } else {
            assert(seg@ != seq!['.', '.']) by {
                if seg@ == seq!['.', '.'] {
                    assert(seg@.len() == 2 && seg@[0] == '.' && seg@[1] == '.');
                }
            }
            return Some(seg);
        }
    }
}

/// The extension of a file name, as characters.
fn name_extension_chars(name: &[char]) -> (res: Option<Vec<char>>)
    ensures
        match res {
            Some(e) => name_extension(name@) == Some(e@),
            None => name_extension(name@) is None,
        },
{
    let n = name.len();
    match last_index_exec(name, '.') {
        Some(d) => {
            if d == 0 {
                None
            } else {
                let e = subrange_vec(name, d + 1, n);
                assert(name@.skip(d + 1) =~= e@);
                Some(e)
            }
        },
        None => None,
    }
}

/// The extension of the file that `path` names, as characters.
pub fn path_extension_chars(path: &[char]) -> (res: Option<Vec<char>>)
    ensures
        match res {
            Some(e) => path_extension(path@) == Some(e@),
            None => path_extension(path@) is None,
        },
{
    match file_name_chars(path) {
        Some(name) => name_extension_chars(&name),
        None => None,
    }
}

/// The extension of the file that `path` names, if any (as
/// `Path::extension` gives it).
pub fn path_extension_of(path: &str) -> (res: Option<String>)
    ensures
        match res {
            Some(e) => path_extension(path@) == Some(e@),
            None => path_extension(path@) is None,
        },
{
    match path_extension_chars(&chars_of(path)) {
        Some(e) => Some(string_from_chars(&e)),
        None => None,
    }
}

/// A segment that names a file or directory: not empty and not `.`.
pub open spec fn is_named_segment(seg: Seq<char>) -> bool {
    seg.len() > 0 && seg != seq!['.']
}

/// The `/`-separated segments of `p` that name something, in order.
pub open spec fn named_segments(p: Seq<char>) -> Seq<Seq<char>>
    decreases p.len(),
{
    let k = first_index_of(p, '/');
    if k < 0 {
        if is_named_segment(p) {
            seq![p]
        } else {
            seq![]
        }
    } else {
        proof {
            lemma_first_index_bounds(p, '/');
        }
        let head = p.take(k);
        (if is_named_segment(head) {
            seq![head]
        } else {
            seq![]
        }) + named_segments(p.skip(k + 1))
    }
}

/// The components of `p`, as `Path::components` yields them on Unix: `/`
/// for a leading root, `.` for a leading current directory, then the named
/// segments (`..` among them). Repeated separators, a trailing separator
/// and `.` segments past the first add nothing.
pub open spec fn path_components(p: Seq<char>) -> Seq<Seq<char>> {
    let root: Seq<Seq<char>> = if p.len() > 0 && p[0] == '/' {
        seq![seq!['/']]
    } else {
        seq![]
    };
    let cur: Seq<Seq<char>> = if p.len() > 0 && p[0] == '.' && (p.len() == 1 || p[1] == '/') {
        seq![seq!['.']]
    } else {
        seq![]
    };
    root + cur + named_segments(p)
}

/// Two paths are the same path when their components are (as `Path`
/// compares them).
pub open spec fn same_path(p: Seq<char>, q: Seq<char>) -> bool {
    path_components(p) == path_components(q)
}

/// The texts of a sequence of character vectors.
pub open spec fn vecs_view(v: Seq<Vec<char>>) -> Seq<Seq<char>> {
    v.map_values(|x: Vec<char>| x@)
}

/// Whether `seg` names something.
fn is_named_segment_exec(seg: &[char]) -> (res: bool)
    ensures
        res == is_named_segment(seg@),
{
    let dot = seg.len() == 1 && seg[0] == '.';
    assert(dot <==> seg@ == seq!['.']) by {
        if dot {
            assert(seg@ =~= seq!['.']);
        }
        if seg@ == seq!['.'] {
            assert(seg@.len() == 1 && seg@[0] == '.');
        }
    }
    seg.len() > 0 && !dot
}

/// The named segments of `p`.
fn named_segments_exec(p: &[char]) -> (res: Vec<Vec<char>>)
    ensures
        vecs_view(res@) == named_segments(p@),
{
    let mut out: Vec<Vec<char>> = Vec::new();
    let mut rest = subrange_vec(p, 0, p.len());
    assert(p@.subrange(0, p@.len() as int) =~= p@);
    assert(vecs_view(out@) =~= Seq::<Seq<char>>::empty());
    loop
        invariant
            named_segments(p@) == vecs_view(out@) + named_segments(rest@),
        decreases rest@.len(),
    {
        let n = rest.len();
        let ghost r = rest@;
        let ghost o = vecs_view(out@);
        match first_index_exec(&rest, '/') {
            None => {
                if is_named_segment_exec(&rest) {
                    out.push(rest);
                    assert(vecs_view(out@) =~= o + seq![r]);
                } else {
                    assert(o + named_segments(r) =~= o);
                }
                return out;
            },
            Some(k) => {
                let head = subrange_vec(&rest, 0, k);
                assert(head@ =~= r.take(k as int));
                if is_named_segment_exec(&head) {
                    out.push(head);
                    assert(vecs_view(out@) =~= o + seq![r.take(k as int)]);
                } else {
                    assert(vecs_view(out@) =~= o + Seq::<Seq<char>>::empty());
                }
                rest = subrange_vec(&rest, k + 1, n);
                assert(rest@ =~= r.skip(k + 1));
                assert(vecs_view(out@) + named_segments(rest@) =~= o + named_segments(r));
            },
        }
    }
}

/// The components of `p`.
pub fn path_components_exec(p: &[char]) -> (res: Vec<Vec<char>>)
    ensures
        vecs_view(res@) == path_components(p@),
{
    let mut out: Vec<Vec<char>> = Vec::new();
    let n = p.len();
    if n > 0 && p[0] == '/' {
        let mut root: Vec<char> = Vec::new();
        root.push('/');
        out.push(root);
    }
    if n > 0 && p[0] == '.' && (n == 1 || p[1] == '/') {
        let mut cur: Vec<char> = Vec::new();
        cur.push('.');
        out.push(cur);
    }
    let ghost head = vecs_view(out@);
    let mut named = named_segments_exec(p);
    let ghost nseq = named@;
    let ghost o = out@;
    out.append(&mut named);
    assert(out@ == o + nseq);
    assert(vecs_view(out@) =~= head + vecs_view(nseq));
    assert(head =~= (if n > 0 && p@[0] == '/' {
        seq![seq!['/']]
    } else {
        Seq::<Seq<char>>::empty()
    }) + (if n > 0 && p@[0] == '.' && (n == 1 || p@[1] == '/') {
        seq![seq!['.']]
    } else {
        Seq::<Seq<char>>::empty()
    }));
    out
}

/// Whether `a` and `b` are the same path.
pub fn same_path_exec(a: &str, b: &str) -> (res: bool)
    ensures
        res == same_path(a@, b@),
{
    let ca = path_components_exec(&chars_of(a));
    let cb = path_components_exec(&chars_of(b));
    if ca.len() != cb.len() {
        assert(vecs_view(ca@).len() != vecs_view(cb@).len());
        return false;
    }
    let mut i: usize = 0;
    while i < ca.len()
        invariant
            ca@.len() == cb@.len(),
            vecs_view(ca@) == path_components(a@),
            vecs_view(cb@) == path_components(b@),
            i <= ca@.len(),
            forall|j: int| 0 <= j < i ==> ca@[j]@ == cb@[j]@,
        decreases ca@.len() - i,
    {
        let x: &Vec<char> = &ca[i];
        let y: &Vec<char> = &cb[i];
        if !chars_eq(x.as_slice(), y.as_slice()) {
            assert(vecs_view(ca@)[i as int] == ca@[i as int]@);
            assert(vecs_view(cb@)[i as int] == cb@[i as int]@);
            assert(vecs_view(ca@)[i as int] != vecs_view(cb@)[i as int]);
            return false;
        }
        i += 1;
    }
    assert(vecs_view(ca@) =~= vecs_view(cb@));
    true
}

} // verus!
