//! Paths as sequences of raw name components.
//!
//! A name is a raw filesystem entry name (`Vec<u8>`, not necessarily UTF-8)
//! and a path is a sequence of names.  At the specification level a path is a
//! `Seq<Seq<u8>>`, obtained through [`pview`].

use vstd::prelude::*;

verus! {

/// The specification view of a path: the view of each of its components.
pub open spec fn pview(p: Seq<Vec<u8>>) -> Seq<Seq<u8>> {
    Seq::new(p.len(), |i: int| p[i]@)
}

/// Equality of two raw names, decided byte by byte.
pub fn name_eq(a: &Vec<u8>, b: &Vec<u8>) -> (r: bool)
    ensures
        r == (a@ == b@),
{
    if a.len() != b.len() {
        assert(a@ != b@);
        return false;
    }
    let mut i: usize = 0;
    while i < a.len()
        invariant
            i <= a.len(),
            a@.len() == b@.len(),
            forall|j: int| 0 <= j < i ==> a@[j] == b@[j],
        decreases a.len() - i,
    {
        if a[i] != b[i] {
            assert(a@ != b@);
            return false;
        }
        i += 1;
    }
    assert(a@ =~= b@);
    true
}

/// Equality of two paths, decided component by component.
pub fn path_eq(a: &Vec<Vec<u8>>, b: &Vec<Vec<u8>>) -> (r: bool)
    ensures
        r == (pview(a@) == pview(b@)),
{
    if a.len() != b.len() {
        assert(pview(a@).len() != pview(b@).len());
        return false;
    }
    let mut i: usize = 0;
    while i < a.len()
        invariant
            i <= a.len(),
            a@.len() == b@.len(),
            forall|j: int| 0 <= j < i ==> pview(a@)[j] == pview(b@)[j],
        decreases a.len() - i,
    {
        if !name_eq(&a[i], &b[i]) {
            assert(pview(a@)[i as int] != pview(b@)[i as int]);
            return false;
        }
        i += 1;
    }
    assert(pview(a@) =~= pview(b@));
    true
}

/// Copies a raw name.
pub fn clone_name(a: &Vec<u8>) -> (r: Vec<u8>)
    ensures
        r@ == a@,
{
    let mut out: Vec<u8> = Vec::new();
    let mut i: usize = 0;
    while i < a.len()
        invariant
            i <= a.len(),
            out@ == a@.take(i as int),
        decreases a.len() - i,
    {
        out.push(a[i]);
        assert(out@ =~= a@.take(i + 1));
        i += 1;
    }
    assert(a@.take(a@.len() as int) =~= a@);
    out
}

/// Copies a path.
pub fn clone_path(a: &Vec<Vec<u8>>) -> (r: Vec<Vec<u8>>)
    ensures
        pview(r@) == pview(a@),
{
    let mut out: Vec<Vec<u8>> = Vec::new();
    let mut i: usize = 0;
    while i < a.len()
        invariant
            i <= a.len(),
            out@.len() == i,
            forall|j: int| 0 <= j < i ==> out@[j]@ == a@[j]@,
        decreases a.len() - i,
    {
        out.push(clone_name(&a[i]));
        i += 1;
    }
    assert(pview(out@) =~= pview(a@));
    out
}

/// Appends `b`'s components to a copy of `a`.
pub fn concat_paths(a: &Vec<Vec<u8>>, b: &Vec<Vec<u8>>) -> (r: Vec<Vec<u8>>)
    ensures
        pview(r@) == pview(a@) + pview(b@),
{
    let mut out = clone_path(a);
    proof {
        assert(pview(out@).len() == out@.len());
        assert forall|j: int| 0 <= j < a@.len() implies out@[j]@ == a@[j]@ by {
            assert(pview(out@)[j] == out@[j]@);
            assert(pview(a@)[j] == a@[j]@);
        }
    }
    let mut i: usize = 0;
    while i < b.len()
        invariant
            i <= b.len(),
            out@.len() == a@.len() + i,
            forall|j: int| 0 <= j < a@.len() ==> out@[j]@ == a@[j]@,
            forall|j: int| 0 <= j < i ==> out@[a@.len() + j]@ == b@[j]@,
        decreases b.len() - i,
    {
        out.push(clone_name(&b[i]));
        i += 1;
    }
    assert(pview(out@) =~= pview(a@) + pview(b@));
    out
}

/// Does `p` lie strictly beneath `prefix` (longer, and agreeing on every
/// component of `prefix`)?
pub open spec fn strictly_under(prefix: Seq<Seq<u8>>, p: Seq<Seq<u8>>) -> bool {
    p.len() > prefix.len() && p.take(prefix.len() as int) == prefix
}

/// Decides [`strictly_under`] for concrete paths.
pub fn is_strictly_under(prefix: &Vec<Vec<u8>>, p: &Vec<Vec<u8>>) -> (r: bool)
    ensures
        r == strictly_under(pview(prefix@), pview(p@)),
{
    if p.len() <= prefix.len() {
        return false;
    }
    let mut i: usize = 0;
    while i < prefix.len()
        invariant
            i <= prefix.len(),
            p@.len() > prefix@.len(),
            forall|j: int| 0 <= j < i ==> p@[j]@ == prefix@[j]@,
        decreases prefix.len() - i,
    {
        if !name_eq(&p[i], &prefix[i]) {
            assert(pview(p@).take(prefix@.len() as int)[i as int] != pview(prefix@)[i as int]);
            return false;
        }
        i += 1;
    }
    assert(pview(p@).take(prefix@.len() as int) =~= pview(prefix@));
    true
}

} // verus!
