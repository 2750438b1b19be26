//! Helpers for comparing and copying byte strings and component paths.
//!
//! Throughout the crate a textual value (a file name, a path, a metadata
//! value) is a `Vec<u8>`, and a sanitized path is a list of components,
//! `Vec<Vec<u8>>`. The spec-level form of a byte string is its `Seq<u8>`
//! view; a component path is seen through `deep_view` as `Seq<Seq<u8>>`.

use vstd::prelude::*;

verus! {

/// A byte string's deep view is its view.
pub proof fn lemma_bytes_deep_view(v: Vec<u8>)
    ensures
        v.deep_view() == v@,
{
    assert(v.deep_view() =~= v@);
}

/// Pushing onto a vector pushes the element's deep view onto its deep view.
pub proof fn lemma_deep_view_push<T: DeepView>(pre: Vec<T>, post: Vec<T>, x: T)
    requires
        post@ == pre@.push(x),
    ensures
        post.deep_view() == pre.deep_view().push(x.deep_view()),
{
    assert(post.deep_view() =~= pre.deep_view().push(x.deep_view()));
}

/// True iff the two byte strings hold the same bytes.
pub fn bytes_eq(a: &Vec<u8>, b: &Vec<u8>) -> (r: bool)
    ensures
        r == (a@ == b@),
{
    let r = a == b;
    proof {
        if r {
            assert(a@ =~= b@);
        }
    }
    r
}

/// True iff the two component paths hold the same components.
pub fn path_eq(a: &Vec<Vec<u8>>, b: &Vec<Vec<u8>>) -> (r: bool)
    ensures
        r == (a.deep_view() == b.deep_view()),
{
    proof {
        broadcast use vstd::laws_eq::group_laws_eq;
        broadcast use vstd::std_specs::vec::lemma_vec_obeys_deep_eq;

        reveal(vstd::laws_eq::obeys_deep_eq);
        assert(vstd::laws_eq::obeys_deep_eq::<u8>());
        assert(vstd::laws_eq::obeys_deep_eq::<Vec<u8>>());
        assert(vstd::laws_eq::obeys_deep_eq::<Vec<Vec<u8>>>());
    }
    a == b
}

/// Copies a byte string.
pub fn clone_bytes(c: &Vec<u8>) -> (r: Vec<u8>)
    ensures
        r@ == c@,
{
    let mut r: Vec<u8> = Vec::new();
    let mut i: usize = 0;
    while i < c.len()
        invariant
            i <= c.len(),
            r@ == c@.take(i as int),
        decreases c.len() - i,
    {
        r.push(c[i]);
        proof {
            assert(c@.take(i + 1) =~= c@.take(i as int).push(c@[i as int]));
        }
        i = i + 1;
    }
    proof {
        assert(c@.take(c@.len() as int) =~= c@);
    }
    r
}

/// Copies a component path.
pub fn clone_path(p: &Vec<Vec<u8>>) -> (r: Vec<Vec<u8>>)
    ensures
        r.deep_view() == p.deep_view(),
{
    let mut r: Vec<Vec<u8>> = Vec::new();
    let mut i: usize = 0;
    while i < p.len()
        invariant
            i <= p.len(),
            r.deep_view() == p.deep_view().take(i as int),
        decreases p.len() - i,
    {
        let ghost r0 = r;
        let c = clone_bytes(&p[i]);
        let ghost c0 = c;
        r.push(c);
        proof {
            lemma_bytes_deep_view(c0);
            lemma_bytes_deep_view(p@[i as int]);
            lemma_deep_view_push(r0, r, c0);
            assert(r.deep_view() =~= p.deep_view().take(i + 1));
        }
        i = i + 1;
    }
    proof {
        assert(p.deep_view().take(p.deep_view().len() as int) =~= p.deep_view());
    }
    r
}

/// Appends a copy of `b` to `a`.
pub fn extend_bytes(a: &mut Vec<u8>, b: &Vec<u8>)
    ensures
        final(a)@ == old(a)@ + b@,
{
    let mut i: usize = 0;
    while i < b.len()
        invariant
            i <= b.len(),
            a@ == old(a)@ + b@.take(i as int),
        decreases b.len() - i,
    {
        a.push(b[i]);
        proof {
            assert(old(a)@ + b@.take(i + 1) =~= (old(a)@ + b@.take(i as int)).push(b@[i as int]));
        }
        i = i + 1;
    }
    proof {
        assert(b@.take(b@.len() as int) =~= b@);
    }
}

/// Copies the byte range `[start, end)` out of `data`.
pub fn copy_range(data: &Vec<u8>, start: usize, end: usize) -> (r: Vec<u8>)
    requires
        start <= end <= data@.len(),
    ensures
        r@ == data@.subrange(start as int, end as int),
{
    let mut r: Vec<u8> = Vec::new();
    let mut i: usize = start;
    while i < end
        invariant
            start <= i <= end <= data@.len(),
            r@ == data@.subrange(start as int, i as int),
        decreases end - i,
    {
        r.push(data[i]);
        proof {
            assert(data@.subrange(start as int, i + 1) =~= data@.subrange(
                start as int,
                i as int,
            ).push(data@[i as int]));
        }
        i = i + 1;
    }
    r
}

} // verus!
