//! Relative file names ordered as `std::path::Path` orders them: by their
//! components, compared one by one.
use vstd::prelude::*;
use vstd::utf8::{encode_utf8, encode_utf8_decode_utf8};
use crate::sort::{bytes_le, key_le, law_bytes_le_lexicographic, views, DistinctKeyed, Keyed};

verus! {

/// The byte `/`, which separates the components of a path.
pub open spec fn is_separator(b: u8) -> bool {
    b == 47u8
}

/// The pieces of `s` between separators, empty pieces included.
pub open spec fn pieces(s: Seq<u8>) -> Seq<Seq<u8>>
    decreases s.len(),
{
    if s.len() == 0 {
        seq![seq![]]
    } else {
        let p = pieces(s.drop_last());
        if is_separator(s.last()) {
            p.push(seq![])
        } else {
            p.update(p.len() - 1, p.last().push(s.last()))
        }
    }
}

/// The key of a component: the root `[0]`, the current directory `[1]`,
/// the parent directory `[2]`, and a name `[3]` followed by its bytes;
/// so that keys compare as `std::path::Component` values do.
pub open spec fn normal_keys(ps: Seq<Seq<u8>>) -> Seq<Seq<u8>>
    decreases ps.len(),
{
    if ps.len() == 0 {
        seq![]
    } else {
        let rest = normal_keys(ps.drop_last());
        let p = ps.last();
        if p.len() == 0 || p == seq![46u8] {
            rest
        } else if p == seq![46u8, 46u8] {
            rest.push(seq![2u8])
        } else {
            rest.push(seq![3u8] + p)
        }
    }
}

/// The keys of the components of the path `s` (as bytes), in order, as
/// `Path::components` yields them: a root for a leading `/`, a current
/// directory for a leading `.` piece of a relative path, and then the
/// pieces, with empty and `.` pieces left out and `..` a parent directory.
pub open spec fn component_keys(s: Seq<u8>) -> Seq<Seq<u8>> {
    let ps = pieces(s);
    if s.len() > 0 && is_separator(s[0]) {
        seq![seq![0u8]] + normal_keys(ps.drop_first())
    } else if ps[0] == seq![46u8] {
        seq![seq![1u8]] + normal_keys(ps.drop_first())
    } else {
        normal_keys(ps)
    }
}

/// The pieces of `s` between separators.
fn pieces_exec(s: &[u8]) -> (r: Vec<Vec<u8>>)
    ensures
        r@.map_values(|p: Vec<u8>| p@) == pieces(s@),
        r@.len() > 0,
{
    let mut done: Vec<Vec<u8>> = Vec::new();
    let mut current: Vec<u8> = Vec::new();
    let mut i: usize = 0;
    assert(s@.take(0) =~= Seq::<u8>::empty());
    assert(done@.map_values(|p: Vec<u8>| p@).push(current@) =~= pieces(s@.take(0)));
    while i < s.len()
        invariant
            i <= s.len(),
            done@.map_values(|p: Vec<u8>| p@).push(current@) == pieces(s@.take(i as int)),
        decreases s.len() - i,
    {
        let b = s[i];
        let ghost before = done@.map_values(|p: Vec<u8>| p@).push(current@);
        assert(s@.take(i + 1).drop_last() =~= s@.take(i as int));
        if b == 47u8 {
            let finished = current;
            current = Vec::new();
            let ghost done_before = done@;
            done.push(finished);
            assert(done@.map_values(|p: Vec<u8>| p@) =~= done_before.map_values(|p: Vec<u8>| p@).push(
                finished@,
            ));
            assert(done@.map_values(|p: Vec<u8>| p@).push(current@) =~= before.push(seq![]));
        } else {
            current.push(b);
            assert(done@.map_values(|p: Vec<u8>| p@).push(current@) =~= before.update(
                before.len() - 1,
                before.last().push(b),
            ));
        }
        i = i + 1;
    }
    assert(s@.take(s.len() as int) =~= s@);
    let ghost done_before = done@;
    done.push(current);
    assert(done@.map_values(|p: Vec<u8>| p@) =~= done_before.map_values(|p: Vec<u8>| p@).push(
        current@,
    ));
    done
}

/// Whether the piece `p` is `.`.
fn is_dot(p: &[u8]) -> (r: bool)
    ensures
        r == (p@ == seq![46u8]),
{
    let r = p.len() == 1 && p[0] == 46u8;
    if r {
        assert(p@ =~= seq![46u8]);
    }
    r
}

/// Whether the piece `p` is `..`.
fn is_dot_dot(p: &[u8]) -> (r: bool)
    ensures
        r == (p@ == seq![46u8, 46u8]),
{
    let r = p.len() == 2 && p[0] == 46u8 && p[1] == 46u8;
    if r {
        assert(p@ =~= seq![46u8, 46u8]);
    }
    r
}

/// The keys of the pieces `ps[from..]`, empty and `.` pieces left out.
fn normal_keys_exec(ps: &Vec<Vec<u8>>, from: usize) -> (r: Vec<Vec<u8>>)
    requires
        from <= ps@.len(),
    ensures
        r@.map_values(|k: Vec<u8>| k@) == normal_keys(
            ps@.map_values(|p: Vec<u8>| p@).skip(from as int),
        ),
{
    let ghost all = ps@.map_values(|p: Vec<u8>| p@).skip(from as int);
    let mut r: Vec<Vec<u8>> = Vec::new();
    let mut i = from;
    assert(all.take(0) =~= Seq::<Seq<u8>>::empty());
    while i < ps.len()
        invariant
            from <= i <= ps@.len(),
            all == ps@.map_values(|p: Vec<u8>| p@).skip(from as int),
            r@.map_values(|k: Vec<u8>| k@) == normal_keys(all.take(i - from)),
        decreases ps@.len() - i,
    {
        let p = &ps[i];
        let ghost before = r@.map_values(|k: Vec<u8>| k@);
        assert(all.take(i - from + 1).drop_last() =~= all.take(i - from));
        assert(all.take(i - from + 1).last() == p@);
        if p.len() == 0 || is_dot(p) {
        } else if is_dot_dot(p) {
            let mut k: Vec<u8> = Vec::new();
            k.push(2u8);
            r.push(k);
            assert(r@.map_values(|k: Vec<u8>| k@) =~= before.push(seq![2u8]));
        } else {
            let mut k: Vec<u8> = Vec::new();
            k.push(3u8);
            let mut j: usize = 0;
            while j < p.len()
                invariant
                    j <= p@.len(),
                    k@ == seq![3u8] + p@.take(j as int),
                decreases p@.len() - j,
            {
                k.push(p[j]);
                assert(p@.take(j + 1) =~= p@.take(j as int).push(p@[j as int]));
                j = j + 1;
            }
            assert(p@.take(p@.len() as int) =~= p@);
            r.push(k);
            assert(r@.map_values(|k: Vec<u8>| k@) =~= before.push(seq![3u8] + p@));
        }
        i = i + 1;
    }
    assert(all.take(ps@.len() - from) =~= all);
    r
}

/// The keys of the components of the path `s`.
pub fn component_keys_exec(s: &[u8]) -> (r: Vec<Vec<u8>>)
    ensures
        r@.map_values(|k: Vec<u8>| k@) == component_keys(s@),
{
    let ps = pieces_exec(s);
    let ghost pv = ps@.map_values(|p: Vec<u8>| p@);
    assert(pv.skip(0) =~= pv);
    assert(pv.skip(1) =~= pv.drop_first());
    let mut r: Vec<Vec<u8>> = Vec::new();
    let rest = if s.len() > 0 && s[0] == 47u8 {
        let mut k: Vec<u8> = Vec::new();
        k.push(0u8);
        r.push(k);
        normal_keys_exec(&ps, 1)
    } else if is_dot(&ps[0]) {
        let mut k: Vec<u8> = Vec::new();
        k.push(1u8);
        r.push(k);
        normal_keys_exec(&ps, 1)
    } else {
        normal_keys_exec(&ps, 0)
    };
    let ghost head = r@.map_values(|k: Vec<u8>| k@);
    let mut rest = rest;
    let ghost tail = rest@.map_values(|k: Vec<u8>| k@);
    r.append(&mut rest);
    assert(r@.map_values(|k: Vec<u8>| k@) =~= head + tail);
    r
}

/// A file name, ordered by its bytes.
pub struct FileName(pub String);

/// A file name, ordered by the components of the path it names.
pub struct PathName(pub String);

impl View for FileName {
    type V = Seq<char>;

    open spec fn view(&self) -> Seq<char> {
        self.0@
    }
}

impl View for PathName {
    type V = Seq<char>;

    open spec fn view(&self) -> Seq<char> {
        self.0@
    }
}

/// The UTF-8 bytes of `s`.
fn bytes_of_str(s: &String) -> (r: Vec<u8>)
    ensures
        r@ == encode_utf8(s@),
{
    vstd::slice::slice_to_vec(s.as_str().as_bytes())
}

impl Keyed for FileName {
    open spec fn key_of(v: Seq<char>) -> Seq<Seq<u8>> {
        seq![encode_utf8(v)]
    }

    fn key(&self) -> (k: Vec<Vec<u8>>)
        ensures
            k@.map_values(|b: Vec<u8>| b@) == Self::key_of(self@),
    {
        let mut k: Vec<Vec<u8>> = Vec::new();
        k.push(bytes_of_str(&self.0));
        assert(k@.map_values(|b: Vec<u8>| b@) =~= Self::key_of(self@));
        k
    }
}

impl DistinctKeyed for FileName {
    proof fn lemma_key_injective(a: Seq<char>, b: Seq<char>) {
        assert(Self::key_of(a)[0] == Self::key_of(b)[0]);
        encode_utf8_decode_utf8(a);
        encode_utf8_decode_utf8(b);
    }
}

impl Keyed for PathName {
    open spec fn key_of(v: Seq<char>) -> Seq<Seq<u8>> {
        component_keys(encode_utf8(v))
    }

    fn key(&self) -> (k: Vec<Vec<u8>>)
        ensures
            k@.map_values(|b: Vec<u8>| b@) == Self::key_of(self@),
    {
        component_keys_exec(&bytes_of_str(&self.0))
    }
}

/// The same names, to be ordered by the components of the paths they name.
pub fn as_path_names(names: &Vec<FileName>) -> (r: Vec<PathName>)
    ensures
        views(r@) == views(names@),
{
    let ghost nv = views(names@);
    let mut r: Vec<PathName> = Vec::new();
    let mut i: usize = 0;
    while i < names.len()
        invariant
            i <= names@.len(),
            nv == views(names@),
            views(r@) == nv.take(i as int),
        decreases names@.len() - i,
    {
        let ghost before = r@;
        let name = names[i].0.clone();
        assert(name@ == nv[i as int]);
        r.push(PathName(name));
        assert(views(r@) =~= views(before).push(name@));
        assert(views(r@) =~= nv.take(i + 1));
        i = i + 1;
    }
    assert(nv.take(names@.len() as int) =~= nv);
    r
}

/// The strings of the path names.
pub fn path_strings(names: &Vec<PathName>) -> (r: Vec<String>)
    ensures
        views(r@) == views(names@),
{
    let ghost nv = views(names@);
    let mut r: Vec<String> = Vec::new();
    let mut i: usize = 0;
    while i < names.len()
        invariant
            i <= names@.len(),
            nv == views(names@),
            views(r@) == nv.take(i as int),
        decreases names@.len() - i,
    {
        let ghost before = r@;
        let name = names[i].0.clone();
        assert(name@ == nv[i as int]);
        r.push(name);
        assert(views(r@) =~= views(before).push(name@));
        assert(views(r@) =~= nv.take(i + 1));
        i = i + 1;
    }
    assert(nv.take(names@.len() as int) =~= nv);
    r
}

/// File names (and the output lines sorted as file names) are ordered by
/// their UTF-8 bytes, lexicographically, as `[&str]::sort` orders them:
/// one comes first (or is equal) exactly when its bytes are a prefix of
/// the other's, or at the first byte where they differ its byte is the
/// smaller.
pub proof fn law_file_name_byte_order(a: Seq<char>, b: Seq<char>)
    ensures
        key_le(<FileName as Keyed>::key_of(a), <FileName as Keyed>::key_of(b)) <==> ({
            let x = encode_utf8(a);
            let y = encode_utf8(b);
            (x.len() <= y.len() && x == y.take(x.len() as int)) || exists|i: int|
                0 <= i < x.len() && i < y.len() && x.take(i) == y.take(i) && #[trigger] x[i] < y[i]
        }),
{
    let x = encode_utf8(a);
    let y = encode_utf8(b);
    law_bytes_le_lexicographic(x, y);
    let ka = <FileName as Keyed>::key_of(a);
    let kb = <FileName as Keyed>::key_of(b);
    assert(ka[0] == x && kb[0] == y);
    if x == y {
        assert(ka.drop_first() =~= Seq::<Seq<u8>>::empty());
        assert(kb.drop_first() =~= Seq::<Seq<u8>>::empty());
        assert(x =~= y.take(x.len() as int));
        assert(key_le(ka.drop_first(), kb.drop_first()));
        assert(key_le(ka, kb));
    } else {
        assert(key_le(ka, kb) == bytes_le(x, y));
    }
}

} // verus!
