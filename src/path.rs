//! File paths compared by their components.

use vstd::prelude::*;
use vstd::slice::{slice_subrange, slice_to_vec};

verus! {

/// The path separator `/`.
pub open spec fn is_slash(c: u8) -> bool {
    c == 47u8
}

/// `n` is where the first component of `p` ends: at its first `/`, or at its end.
pub open spec fn is_component_end(p: Seq<u8>, n: int) -> bool {
    &&& 0 <= n <= p.len()
    &&& (n == p.len() || is_slash(p[n]))
    &&& forall|j: int| 0 <= j < n ==> !is_slash(p[j])
}

/// Where the first component of `p` ends.
pub open spec fn component_end(p: Seq<u8>) -> int {
    choose|n: int| is_component_end(p, n)
}

/// The components of `p` after its first, joined by single `/`: empty
/// components and `.` components are left out.
pub open spec fn normal_rest(p: Seq<u8>) -> Seq<u8>
    decreases p.len(),
{
    if p.len() == 0 {
        Seq::empty()
    } else if is_slash(p[0]) {
        normal_rest(p.drop_first())
    } else {
        let n = component_end(p);
        if 0 < n <= p.len() {
            let seg = p.take(n);
            let rest = normal_rest(p.skip(n));
            if seg == seq![46u8] {
                rest
            } else if rest.len() == 0 {
                seg
            } else {
                seg + seq![47u8] + rest
            }
        } else {
            Seq::empty()
        }
    }
}

/// The normal form of a path: a leading `/` for a rooted path, a leading `.`
/// for a relative path whose first component is `.`, then the other
/// components without repeated or trailing `/` or `.` components. Two paths
/// name the same components exactly when their normal forms are equal.
pub open spec fn normal_path(p: Seq<u8>) -> Seq<u8> {
    if p.len() > 0 && is_slash(p[0]) {
        seq![47u8] + normal_rest(p)
    } else if p.len() > 0 && p[0] == 46u8 && (p.len() == 1 || is_slash(p[1])) {
        let rest = normal_rest(p.skip(1));
        if rest.len() == 0 {
            seq![46u8]
        } else {
            seq![46u8, 47u8] + rest
        }
    } else {
        normal_rest(p)
    }
}

fn component_end_of(p: &[u8]) -> (n: usize)
    ensures
        is_component_end(p@, n as int),
        n as int == component_end(p@),
{
    let mut i: usize = 0;
    while i < p.len() && p[i] != 47u8
        invariant
            0 <= i <= p@.len(),
            forall|j: int| 0 <= j < i ==> !is_slash(p@[j]),
        decreases p@.len() - i,
    {
        i = i + 1;
    }
    assert(is_component_end(p@, i as int));
    assert forall|m: int| is_component_end(p@, m) implies m == i as int by {
        if m < i {
            assert(!is_slash(p@[m]));
        } else if m > i {
            assert(is_slash(p@[i as int]));
        }
    }
    i
}

fn normal_rest_of(p: &[u8]) -> (r: Vec<u8>)
    ensures
        r@ == normal_rest(p@),
    decreases p@.len(),
{
    if p.len() == 0 {
        return Vec::new();
    }
    if p[0] == 47u8 {
        let tail = slice_subrange(p, 1, p.len());
        assert(tail@ =~= p@.drop_first());
        return normal_rest_of(tail);
    }
    let n = component_end_of(p);
    assert(n > 0);
    let seg = slice_subrange(p, 0, n);
    let tail = slice_subrange(p, n, p.len());
    assert(seg@ =~= p@.take(n as int));
    assert(tail@ =~= p@.skip(n as int));
    let mut rest = normal_rest_of(tail);
    if n == 1 && p[0] == 46u8 {
        assert(seg@ =~= seq![46u8]);
        return rest;
    }
    assert(seg@ != seq![46u8]) by {
        let dot = seq![46u8];
        assert(dot.len() == 1 && dot[0] == 46u8);
        if n == 1 {
            assert(seg@[0] == p@[0]);
        }
    }
    let mut r = slice_to_vec(seg);
    if rest.len() == 0 {
        return r;
    }
    r.push(47u8);
    r.append(&mut rest);
    assert(r@ =~= p@.take(n as int) + seq![47u8] + normal_rest(p@.skip(n as int)));
    r
}

/// The normal form of path `p`.
pub fn normalize_path(p: &[u8]) -> (r: Vec<u8>)
    ensures
        r@ == normal_path(p@),
{
    if p.len() > 0 && p[0] == 47u8 {
        let mut r: Vec<u8> = Vec::new();
        r.push(47u8);
        let mut rest = normal_rest_of(p);
        r.append(&mut rest);
        assert(r@ =~= seq![47u8] + normal_rest(p@));
        return r;
    }
    if p.len() > 0 && p[0] == 46u8 && (p.len() == 1 || p[1] == 47u8) {
        let tail = slice_subrange(p, 1, p.len());
        assert(tail@ =~= p@.skip(1));
        let mut rest = normal_rest_of(tail);
        let mut r: Vec<u8> = Vec::new();
        r.push(46u8);
        if rest.len() == 0 {
            assert(r@ =~= seq![46u8]);
            return r;
        }
        r.push(47u8);
        r.append(&mut rest);
        assert(r@ =~= seq![46u8, 47u8] + normal_rest(p@.skip(1)));
        return r;
    }
    normal_rest_of(p)
}

} // verus!
