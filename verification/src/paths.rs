//! Path sanitizer: turns a client-supplied relative path into a clean list of
//! components confined to the server root.
//!
//! A raw path is a byte string with `/`-separated components. Cleaning drops
//! empty components and `.`, resolves `..` against the components seen so
//! far, and rejects any path whose `..` segments would climb above the root.
//! Cleaning is purely textual, so paths that do not exist yet can be
//! sanitized before they are created.

use vstd::prelude::*;

verus! {

/// The byte that separates path components (`/`).
pub const SEPARATOR: u8 = 47;

/// The byte `.`, the self component and the doubled parent component.
pub const DOT: u8 = 46;

/// Error returned when a relative path would escape the root.
#[derive(Debug, Clone, Copy, PartialEq, Eq, Structural)]
pub enum PathError {
    /// The path's `..` components climb above the root.
    Traversal,
}

/// Splits a byte string on `SEPARATOR`. The result always has at least one
/// component; empty components (leading, trailing or doubled separators)
/// are preserved here and dropped by `clean_components`.
pub open spec fn split_path(s: Seq<u8>) -> Seq<Seq<u8>>
    decreases s.len(),
{
    if s.len() == 0 {
        seq![Seq::<u8>::empty()]
    } else if s.last() == SEPARATOR {
        split_path(s.drop_last()).push(Seq::<u8>::empty())
    } else {
        let r = split_path(s.drop_last());
        r.update(r.len() - 1, r.last().push(s.last()))
    }
}

pub proof fn lemma_split_path_nonempty(s: Seq<u8>)
    ensures
        split_path(s).len() >= 1,
    decreases s.len(),
{
    if s.len() > 0 {
        lemma_split_path_nonempty(s.drop_last());
    }
}

/// True of a component spelled `.`.
pub open spec fn is_dot(c: Seq<u8>) -> bool {
    c == seq![DOT]
}

/// True of a component spelled `..`.
pub open spec fn is_dot_dot(c: Seq<u8>) -> bool {
    c == seq![DOT, DOT]
}

/// Folds a component list left to right: skips empty and `.` components,
/// pops on `..`, pushes anything else. `None` means some `..` had nothing
/// left to pop, i.e. the path escapes the root.
pub open spec fn clean_components(cs: Seq<Seq<u8>>) -> Option<Seq<Seq<u8>>>
    decreases cs.len(),
{
    if cs.len() == 0 {
        Some(Seq::empty())
    } else {
        match clean_components(cs.drop_last()) {
            None => None,
            Some(acc) => {
                let c = cs.last();
                if c.len() == 0 || is_dot(c) {
                    Some(acc)
                } else if is_dot_dot(c) {
                    if acc.len() == 0 {
                        None
                    } else {
                        Some(acc.drop_last())
                    }
                } else {
                    Some(acc.push(c))
                }
            },
        }
    }
}

/// The sanitized form of a raw relative path: its split components, cleaned.
pub open spec fn clean_path_spec(s: Seq<u8>) -> Option<Seq<Seq<u8>>> {
    clean_components(split_path(s))
}

/// Splits a raw path on the separator byte.
fn split_bytes(path: &Vec<u8>) -> (r: Vec<Vec<u8>>)
    ensures
        r.deep_view() == split_path(path@),
{
    let mut comps: Vec<Vec<u8>> = Vec::new();
    let mut cur: Vec<u8> = Vec::new();
    let mut i: usize = 0;
    proof {
        assert(path@.take(0) =~= Seq::<u8>::empty());
        assert(comps.deep_view().push(cur@) =~= split_path(path@.take(0)));
    }
    while i < path.len()
        invariant
            i <= path.len(),
            comps.deep_view().push(cur@) == split_path(path@.take(i as int)),
        decreases path.len() - i,
    {
        let ghost pre = path@.take(i as int);
        let ghost post = path@.take(i + 1);
        proof {
            assert(post.drop_last() =~= pre);
            assert(post.last() == path@[i as int]);
            lemma_split_path_nonempty(pre);
        }
        let b = path[i];
        if b == SEPARATOR {
            comps.push(cur);
            cur = Vec::new();
            proof {
                assert(comps.deep_view().push(cur@) =~~= split_path(post));
            }
        } else {
            cur.push(b);
            proof {
                let r = split_path(pre);
                assert(split_path(post) =~= r.update(r.len() - 1, r.last().push(path@[i as int])));
                assert(comps.deep_view().push(cur@) =~~= split_path(post));
            }
        }
        i = i + 1;
    }
    comps.push(cur);
    proof {
        assert(path@.take(path@.len() as int) =~= path@);
        assert(comps.deep_view() =~~= split_path(path@));
    }
    comps
}

/// Cleans a raw relative path into its component list.
///
/// Returns `Err(PathError::Traversal)` exactly when the path's `..`
/// components would climb above the root.
pub fn clean_path(path: &Vec<u8>) -> (r: Result<Vec<Vec<u8>>, PathError>)
    ensures
        match r {
            Ok(cs) => clean_path_spec(path@) == Some(cs.deep_view()),
            Err(e) => clean_path_spec(path@) is None && e == PathError::Traversal,
        },
{
    let comps = split_bytes(path);
    let mut acc: Vec<Vec<u8>> = Vec::new();
    let mut i: usize = 0;
    proof {
        assert(comps.deep_view().take(0) =~= Seq::<Seq<u8>>::empty());
        assert(clean_components(comps.deep_view().take(0)) == Some(acc.deep_view()));
    }
    while i < comps.len()
        invariant
            i <= comps.len(),
            comps.deep_view() == split_path(path@),
            clean_components(comps.deep_view().take(i as int)) == Some(acc.deep_view()),
        decreases comps.len() - i,
    {
        let ghost pre = comps.deep_view().take(i as int);
        let ghost post = comps.deep_view().take(i + 1);
        proof {
            assert(post.drop_last() =~= pre);
            assert(post.last() == comps.deep_view()[i as int]);
        }
        let c = &comps[i];
        let is_empty_or_dot = c.len() == 0 || (c.len() == 1 && c[0] == DOT);
        let is_parent = c.len() == 2 && c[0] == DOT && c[1] == DOT;
        proof {
            if c.len() == 1 && c@[0] == DOT {
                assert(c@ =~= seq![DOT]);
            }
            if is_parent {
                assert(c@ =~= seq![DOT, DOT]);
            }
            assert(comps.deep_view()[i as int] == c@);
            if !(c.len() == 0 || (c.len() == 1 && c@[0] == DOT)) {
                assert(!is_dot(c@));
            }
            if !is_parent {
                assert(!is_dot_dot(c@)) by {
                    if c@ == seq![DOT, DOT] {
                        assert(c@.len() == 2 && c@[0] == DOT && c@[1] == DOT);
                    }
                }
            }
        }
        if is_empty_or_dot {
            // dropped
        } else if is_parent {
            if acc.len() == 0 {
                proof {
                    assert(clean_components(post) is None);
                    lemma_clean_components_none_extends(post, comps.deep_view());
                }
                return Err(PathError::Traversal);
            }
            acc.pop();
            proof {
                assert(acc.deep_view() =~= clean_components(post).unwrap());
            }
        } else {
            let comp = clone_component(c);
            acc.push(comp);
            proof {
                assert(acc.deep_view() =~= clean_components(post).unwrap());
            }
        }
        proof {
            if is_empty_or_dot {
                assert(clean_components(post) == Some(acc.deep_view()));
            }
        }
        i = i + 1;
    }
    proof {
        assert(comps.deep_view().take(comps.deep_view().len() as int) =~= comps.deep_view());
    }
    Ok(acc)
}

/// Once cleaning fails on a prefix of the component list, it fails on the
/// whole list.
proof fn lemma_clean_components_none_extends(pre: Seq<Seq<u8>>, cs: Seq<Seq<u8>>)
    requires
        pre == cs.take(pre.len() as int),
        pre.len() <= cs.len(),
        clean_components(pre) is None,
    ensures
        clean_components(cs) is None,
    decreases cs.len() - pre.len(),
{
    if pre.len() < cs.len() {
        let next = cs.take(pre.len() as int + 1);
        assert(next.drop_last() =~= pre);
        assert(clean_components(next) is None);
        lemma_clean_components_none_extends(next, cs);
    } else {
        assert(pre =~= cs);
    }
}

/// Copies one path component.
fn clone_component(c: &Vec<u8>) -> (r: Vec<u8>)
    ensures
        r@ == c@,
{
    let mut r: Vec<u8> = Vec::new();
    let mut i: usize = 0;
    while i < c.len()
        invariant
            i <= c.len(),
            r@ == c@.take(i as int),
        decreases c.len() - i,
    {
        r.push(c[i]);
        proof {
            assert(c@.take(i + 1) =~= c@.take(i as int).push(c@[i as int]));
        }
        i = i + 1;
    }
    proof {
        assert(c@.take(c@.len() as int) =~= c@);
    }
    r
}

/// True iff `p` is a (not necessarily proper) prefix of `q`.
pub open spec fn is_prefix_of(p: Seq<Seq<u8>>, q: Seq<Seq<u8>>) -> bool {
    p.len() <= q.len() && p == q.take(p.len() as int)
}

/// True iff the path `q` starts with the path `p`.
pub fn path_starts_with(q: &Vec<Vec<u8>>, p: &Vec<Vec<u8>>) -> (r: bool)
    ensures
        r == is_prefix_of(p.deep_view(), q.deep_view()),
{
    if p.len() > q.len() {
        return false;
    }
    let mut k: usize = 0;
    while k < p.len()
        invariant
            k <= p@.len() <= q@.len(),
            forall|m: int| 0 <= m < k ==> p.deep_view()[m] == #[trigger] q.deep_view()[m],
        decreases p@.len() - k,
    {
        if !crate::bytes::bytes_eq(&p[k], &q[k]) {
            proof {
                crate::bytes::lemma_bytes_deep_view(p@[k as int]);
                crate::bytes::lemma_bytes_deep_view(q@[k as int]);
                assert(p.deep_view()[k as int] != q.deep_view()[k as int]);
                assert(!is_prefix_of(p.deep_view(), q.deep_view())) by {
                    if is_prefix_of(p.deep_view(), q.deep_view()) {
                        assert(p.deep_view()[k as int] == q.deep_view().take(
                            p.deep_view().len() as int,
                        )[k as int]);
                    }
                }
            }
            return false;
        }
        proof {
            crate::bytes::lemma_bytes_deep_view(p@[k as int]);
            crate::bytes::lemma_bytes_deep_view(q@[k as int]);
        }
        k = k + 1;
    }
    proof {
        assert(p.deep_view() =~= q.deep_view().take(p.deep_view().len() as int));
    }
    true
}

} // verus!
