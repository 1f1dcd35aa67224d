//! Expansion of a barcode into every variant within a substitution budget.

use vstd::prelude::*;
use crate::table::DestinationTable;

verus! {

/// The alphabet that substitutions draw from: the four nucleotides and `N`
/// (`A` 65, `C` 67, `G` 71, `T` 84, `N` 78).
pub open spec fn is_base(c: u8) -> bool {
    c == 65u8 || c == 67u8 || c == 71u8 || c == 84u8 || c == 78u8
}

/// The bases in the order in which substitutions try them: `A`, `C`, `G`, `T`, `N`.
pub open spec fn base_at(j: int) -> u8 {
    if j == 0 {
        65u8
    } else if j == 1 {
        67u8
    } else if j == 2 {
        71u8
    } else if j == 3 {
        84u8
    } else {
        78u8
    }
}

/// `s` is `b` with the base at position `i` replaced by a different base.
pub open spec fn is_substitution(b: Seq<u8>, s: Seq<u8>, i: int) -> bool {
    &&& 0 <= i < b.len()
    &&& s.len() == b.len()
    &&& is_base(b[i])
    &&& is_base(s[i])
    &&& s[i] != b[i]
    &&& s == b.update(i, s[i])
}

/// `s` is reachable from `b` by at most `k` successive substitutions.
pub open spec fn in_expansion(b: Seq<u8>, s: Seq<u8>, k: nat) -> bool
    decreases k,
{
    if k == 0 {
        s == b
    } else {
        in_expansion(b, s, (k - 1) as nat) || exists|v: Seq<u8>, i: int|
            #[trigger] is_substitution(b, v, i) && in_expansion(v, s, (k - 1) as nat)
    }
}

/// Every variant of `b` within a budget of `k` substitutions.
pub open spec fn expansion(b: Seq<u8>, k: nat) -> Set<Seq<u8>> {
    Set::new(|s: Seq<u8>| in_expansion(b, s, k))
}

/// The byte strings held by a vector of byte vectors.
pub open spec fn views(v: Seq<Vec<u8>>) -> Seq<Seq<u8>> {
    v.map_values(|x: Vec<u8>| x@)
}

/// What a sequence holds after a push.
pub proof fn lemma_push_contains(v: Seq<Seq<u8>>, x: Seq<u8>)
    ensures
        forall|y: Seq<u8>| #[trigger] v.push(x).contains(y) <==> (v.contains(y) || y == x),
{
    assert forall|y: Seq<u8>| #[trigger] v.push(x).contains(y) <==> (v.contains(y) || y == x) by {
        if v.contains(y) {
            let k = choose|k: int| 0 <= k < v.len() && v[k] == y;
            assert(v.push(x)[k] == y);
        }
        if y == x {
            assert(v.push(x)[v.len() as int] == y);
        }
        if v.push(x).contains(y) && y != x {
            let k = choose|k: int| 0 <= k < v.len() + 1 && v.push(x)[k] == y;
            assert(v[k] == y);
        }
    }
}

fn is_valid_base(c: u8) -> (r: bool)
    ensures
        r == is_base(c),
{
    c == 65u8 || c == 67u8 || c == 71u8 || c == 84u8 || c == 78u8
}

fn nth_base(j: usize) -> (c: u8)
    requires
        j < 5,
    ensures
        c == base_at(j as int),
        is_base(c),
{
    if j == 0 {
        65u8
    } else if j == 1 {
        67u8
    } else if j == 2 {
        71u8
    } else if j == 3 {
        84u8
    } else {
        78u8
    }
}

/// Whether two byte strings are equal.
pub fn bytes_eq(a: &[u8], b: &[u8]) -> (r: bool)
    ensures
        r == (a@ == b@),
{
    if a.len() != b.len() {
        return false;
    }
    let mut i: usize = 0;
    while i < a.len()
        invariant
            a@.len() == b@.len(),
            0 <= i <= a@.len(),
            forall|j: int| 0 <= j < i ==> a@[j] == b@[j],
        decreases a@.len() - i,
    {
        if a[i] != b[i] {
            return false;
        }
        i = i + 1;
    }
    assert(a@ =~= b@);
    true
}

/// The index of `x` in `v`, if `v` holds it.
pub(crate) fn find_bytes(v: &Vec<Vec<u8>>, x: &[u8]) -> (r: Option<usize>)
    ensures
        match r {
            Some(i) => i < v@.len() && views(v@)[i as int] == x@,
            None => !views(v@).contains(x@),
        },
{
    let mut i: usize = 0;
    while i < v.len()
        invariant
            0 <= i <= v@.len(),
            forall|j: int| 0 <= j < i ==> views(v@)[j] != x@,
        decreases v@.len() - i,
    {
        assert(views(v@)[i as int] == v@[i as int]@);
        if bytes_eq(v[i].as_slice(), x) {
            return Some(i);
        }
        i = i + 1;
    }
    None
}

/// Adds each of `items` to `out` that it does not hold yet; `seen` holds as
/// keys the strings of `out`.
fn add_missing(out: &mut Vec<Vec<u8>>, seen: &mut DestinationTable, items: Vec<Vec<u8>>)
    requires
        views(old(out)@).no_duplicates(),
        old(seen).wf(),
        forall|s: Seq<u8>| #[trigger] old(seen)@.contains_key(s) <==> views(old(out)@).contains(s),
    ensures
        views(final(out)@).no_duplicates(),
        final(seen).wf(),
        forall|s: Seq<u8>| #[trigger] final(seen)@.contains_key(s) <==> views(final(out)@).contains(s),
        forall|s: Seq<u8>|
            views(final(out)@).contains(s) <==> (views(old(out)@).contains(s) || views(
                items@,
            ).contains(s)),
{
    let mut t: usize = 0;
    while t < items.len()
        invariant
            0 <= t <= items@.len(),
            views(out@).no_duplicates(),
            seen.wf(),
            forall|s: Seq<u8>| #[trigger] seen@.contains_key(s) <==> views(out@).contains(s),
            forall|s: Seq<u8>|
                views(out@).contains(s) <==> (views(old(out)@).contains(s) || exists|u: int|
                    0 <= u < t && views(items@)[u] == s),
        decreases items@.len() - t,
    {
        let item = &items[t];
        let ghost prev = views(out@);
        if seen.get(item.as_slice()).is_none() {
            out.push(item.clone());
            seen.insert(item.clone(), 0);
            assert(views(out@) =~= prev.push(item@));
            proof {
                lemma_push_contains(prev, item@);
            }
        }
        assert(views(items@)[t as int] == item@);
        assert forall|s: Seq<u8>|
            views(out@).contains(s) <==> (views(old(out)@).contains(s) || exists|u: int|
                0 <= u < t + 1 && views(items@)[u] == s) by {
            if exists|u: int| 0 <= u < t + 1 && views(items@)[u] == s {
                if s != item@ {
                    let u = choose|u: int| 0 <= u < t + 1 && views(items@)[u] == s;
                    assert(0 <= u < t && views(items@)[u] == s);
                }
            }
        }
        t = t + 1;
    }
}


/// The barcode itself followed by each single substitution of it.
fn one_step_variants(input: &Vec<u8>) -> (r: Vec<Vec<u8>>)
    ensures
        views(r@).contains(input@),
        forall|i: int, v: Seq<u8>| is_substitution(input@, v, i) ==> views(r@).contains(v),
        forall|x: Seq<u8>|
            views(r@).contains(x) ==> x == input@ || exists|i: int| is_substitution(input@, x, i),
{
    let mut r: Vec<Vec<u8>> = Vec::new();
    r.push(input.clone());
    assert(views(r@)[0] == input@);
    let mut idx: usize = 0;
    while idx < input.len()
        invariant
            0 <= idx <= input@.len(),
            views(r@).contains(input@),
            forall|i: int, v: Seq<u8>|
                0 <= i < idx && is_substitution(input@, v, i) ==> views(r@).contains(v),
            forall|x: Seq<u8>|
                views(r@).contains(x) ==> x == input@ || exists|i: int|
                    is_substitution(input@, x, i),
        decreases input@.len() - idx,
    {
        let base = input[idx];
        if is_valid_base(base) {
            let mut j: usize = 0;
            while j < 5
                invariant
                    0 <= idx < input@.len(),
                    base == input@[idx as int],
                    is_base(base),
                    0 <= j <= 5,
                    views(r@).contains(input@),
                    forall|i: int, v: Seq<u8>|
                        0 <= i < idx && is_substitution(input@, v, i) ==> views(r@).contains(v),
                    forall|jj: int|
                        0 <= jj < j && base_at(jj) != base ==> views(r@).contains(
                            input@.update(idx as int, base_at(jj)),
                        ),
                    forall|x: Seq<u8>|
                        views(r@).contains(x) ==> x == input@ || exists|i: int|
                            is_substitution(input@, x, i),
                decreases 5 - j,
            {
                let new_base = nth_base(j);
                if new_base != base {
                    let mut new_bc = input.clone();
                    new_bc.set(idx, new_base);
                    let ghost prev = views(r@);
                    assert(new_bc@ =~= input@.update(idx as int, new_base));
                    assert(is_substitution(input@, new_bc@, idx as int));
                    r.push(new_bc);
                    assert(views(r@) =~= prev.push(input@.update(idx as int, new_base)));
                    proof {
                        lemma_push_contains(prev, input@.update(idx as int, new_base));
                    }
                }
                j = j + 1;
            }
            assert forall|i: int, v: Seq<u8>|
                0 <= i < idx + 1 && is_substitution(input@, v, i) implies views(r@).contains(v) by {
                if i == idx {
                    let c = v[i];
                    let jj: int = if c == 65u8 {
                        0
                    } else if c == 67u8 {
                        1
                    } else if c == 71u8 {
                        2
                    } else if c == 84u8 {
                        3
                    } else {
                        4
                    };
                    assert(base_at(jj) == c);
                }
            }
        }
        idx = idx + 1;
    }
    r
}

/// Every variant of `input` within `mismatches` substitutions, each once.
pub fn generate_mismatches(input: Vec<u8>, mismatches: u8) -> (r: Vec<Vec<u8>>)
    ensures
        views(r@).no_duplicates(),
        views(r@).to_set() == expansion(input@, mismatches as nat),
    decreases mismatches,
{
    if mismatches == 0 {
        let ghost b = input@;
        let mut r: Vec<Vec<u8>> = Vec::new();
        r.push(input);
        assert(views(r@) =~= seq![b]);
        assert(views(r@)[0] == b);
        assert forall|s: Seq<u8>| #[trigger] expansion(b, 0).contains(s) <==> views(r@).to_set().contains(s) by {
            if views(r@).contains(s) {
                let k = choose|k: int| 0 <= k < 1 && views(r@)[k] == s;
            }
        }
        assert(views(r@).to_set() =~= expansion(b, 0));
        return r;
    }
    let ghost k = (mismatches - 1) as nat;
    let variants = one_step_variants(&input);
    let mut out: Vec<Vec<u8>> = Vec::new();
    // The variants found so far, each mapped to nothing in particular.
    let mut seen = DestinationTable::new();
    let mut j: usize = 0;
    while j < variants.len()
        invariant
            0 <= j <= variants@.len(),
            k == mismatches - 1,
            views(out@).no_duplicates(),
            seen.wf(),
            forall|s: Seq<u8>| #[trigger] seen@.contains_key(s) <==> views(out@).contains(s),
            forall|s: Seq<u8>|
                views(out@).contains(s) <==> exists|u: int|
                    0 <= u < j && #[trigger] in_expansion(views(variants@)[u], s, k),
        decreases variants@.len() - j,
    {
        let sub = generate_mismatches(variants[j].clone(), mismatches - 1);
        assert(views(variants@)[j as int] == variants@[j as int]@);
        let ghost prev = out@;
        add_missing(&mut out, &mut seen, sub);
        assert forall|s: Seq<u8>|
            (exists|u: int|
                0 <= u < j + 1 && #[trigger] in_expansion(views(variants@)[u], s, k)) implies views(out@).contains(s) by {
            if !views(prev).contains(s) {
                let u = choose|u: int| 0 <= u < j + 1 && #[trigger] in_expansion(views(variants@)[u], s, k);
                assert(u == j);
                assert(expansion(variants@[j as int]@, k).contains(s));
            }
        }
        assert forall|s: Seq<u8>|
            views(out@).contains(s) implies exists|u: int|
                0 <= u < j + 1 && #[trigger] in_expansion(views(variants@)[u], s, k) by {
            if !views(prev).contains(s) {
                assert(views(sub@).to_set().contains(s));
                assert(in_expansion(views(variants@)[j as int], s, k));
            }
        }
        j = j + 1;
    }
    let ghost b = input@;
    assert forall|s: Seq<u8>|
        views(out@).contains(s) <==> #[trigger] in_expansion(b, s, mismatches as nat) by {
        if views(out@).contains(s) {
            let u = choose|u: int| 0 <= u < variants@.len() && #[trigger] in_expansion(views(variants@)[u], s, k);
            let v = views(variants@)[u];
            assert(views(variants@).contains(v));
            if v != b {
                let i = choose|i: int| is_substitution(b, v, i);
                assert(is_substitution(b, v, i) && in_expansion(v, s, k));
            }
        }
        if in_expansion(b, s, mismatches as nat) {
            if in_expansion(b, s, k) {
                let u = choose|u: int| 0 <= u < variants@.len() && views(variants@)[u] == b;
                assert(in_expansion(views(variants@)[u], s, k));
            } else {
                let (v, i) = choose|v: Seq<u8>, i: int| #[trigger] is_substitution(b, v, i) && in_expansion(v, s, k);
                assert(views(variants@).contains(v));
                let u = choose|u: int| 0 <= u < variants@.len() && views(variants@)[u] == v;
                assert(in_expansion(views(variants@)[u], s, k));
            }
        }
    }
    assert(views(out@).to_set() =~= expansion(b, mismatches as nat));
    out
}

/// With no substitutions allowed, a barcode expands to itself alone.
pub proof fn lemma_expansion_zero(b: Seq<u8>)
    ensures
        expansion(b, 0) == set![b],
{
    assert(expansion(b, 0) =~= set![b]);
}

/// Expansion only substitutes valid bases: every variant has the barcode's
/// length and keeps each of its positions that holds another byte.
pub proof fn lemma_expansion_keeps_other_bytes(b: Seq<u8>, s: Seq<u8>, k: nat)
    requires
        expansion(b, k).contains(s),
    ensures
        s.len() == b.len(),
        forall|i: int| 0 <= i < b.len() && !is_base(b[i]) ==> s[i] == b[i],
    decreases k,
{
    if k > 0 {
        if in_expansion(b, s, (k - 1) as nat) {
            assert(expansion(b, (k - 1) as nat).contains(s));
            lemma_expansion_keeps_other_bytes(b, s, (k - 1) as nat);
        } else {
            let (v, j) = choose|v: Seq<u8>, j: int|
                #[trigger] is_substitution(b, v, j) && in_expansion(v, s, (k - 1) as nat);
            assert(expansion(v, (k - 1) as nat).contains(s));
            lemma_expansion_keeps_other_bytes(v, s, (k - 1) as nat);
            assert forall|i: int| 0 <= i < b.len() && !is_base(b[i]) implies s[i] == b[i] by {
                assert(i != j);
                assert(v[i] == b.update(j, v[j])[i]);
            }
        }
    }
}

/// Where base `c` stands in the order of `base_at`.
spec fn base_index(c: u8) -> int {
    if c == 65u8 {
        0
    } else if c == 67u8 {
        1
    } else if c == 71u8 {
        2
    } else if c == 84u8 {
        3
    } else {
        4
    }
}

/// The `t`-th of the four bases other than `c`.
spec fn other_base(c: u8, t: int) -> u8 {
    if t < base_index(c) {
        base_at(t)
    } else {
        base_at(t + 1)
    }
}

/// Each single substitution of `b`, listed by position and then by new base.
spec fn substitution_seq(b: Seq<u8>) -> Seq<Seq<u8>> {
    Seq::new(4 * b.len(), |m: int| b.update(m / 4, other_base(b[m / 4], m % 4)))
}

proof fn lemma_split_index(m: int, n: int)
    requires
        0 <= m < 4 * n,
    ensures
        0 <= m / 4 < n,
        0 <= m % 4 < 4,
        m == 4 * (m / 4) + m % 4,
{
    assert(0 <= m / 4 < n && 0 <= m % 4 < 4 && m == 4 * (m / 4) + m % 4) by (nonlinear_arith)
        requires
            0 <= m < 4 * n,
    ;
}

/// A barcode of valid bases of length `L` has exactly `1 + 4 * L` variants
/// within one substitution: itself, and four other bases at each position.
pub proof fn lemma_expansion_one_size(b: Seq<u8>)
    requires
        forall|i: int| 0 <= i < b.len() ==> is_base(#[trigger] b[i]),
    ensures
        expansion(b, 1).finite(),
        expansion(b, 1).len() == 1 + 4 * b.len(),
{
    let subs = substitution_seq(b);
    let all = seq![b] + subs;
    assert forall|m: int| 0 <= m < subs.len() implies #[trigger] is_substitution(b, subs[m], m / 4)
        by {
        lemma_split_index(m, b.len() as int);
        assert(subs[m] =~= b.update(m / 4, subs[m][m / 4]));
    }
    assert forall|s: Seq<u8>| #[trigger] expansion(b, 1).contains(s) <==> all.contains(s) by {
        assert(all[0] == b);
        if all.contains(s) {
            let x = choose|x: int| 0 <= x < all.len() && all[x] == s;
            if x > 0 {
                assert(all[x] == subs[x - 1]);
                assert(is_substitution(b, s, (x - 1) / 4));
                assert(in_expansion(s, s, 0));
            }
            assert(in_expansion(b, s, 1));
        }
        if in_expansion(b, s, 1) && s != b {
            assert(!in_expansion(b, s, 0));
            let (v, i) = choose|v: Seq<u8>, i: int|
                #[trigger] is_substitution(b, v, i) && in_expansion(v, s, 0);
            assert(v == s);
            let c = s[i];
            let t = if base_index(c) < base_index(b[i]) {
                base_index(c)
            } else {
                base_index(c) - 1
            };
            assert(other_base(b[i], t) == c);
            let m = 4 * i + t;
            assert(0 <= m < 4 * b.len()) by (nonlinear_arith)
                requires
                    m == 4 * i + t,
                    0 <= i < b.len(),
                    0 <= t < 4,
            ;
            vstd::arithmetic::div_mod::lemma_fundamental_div_mod_converse(m, 4, i, t);
            assert(subs[m] =~= s);
            assert(all[m + 1] == s);
        }
    }
    assert(expansion(b, 1) =~= all.to_set());
    assert forall|x: int, y: int| 0 <= x < y < all.len() implies all[x] != all[y] by {
        lemma_split_index(y - 1, b.len() as int);
        let i2 = (y - 1) / 4;
        assert(all[y] == subs[y - 1]);
        assert(all[y][i2] != b[i2]);
        if x > 0 {
            lemma_split_index(x - 1, b.len() as int);
            let i1 = (x - 1) / 4;
            assert(all[x] == subs[x - 1]);
            if i1 != i2 {
                assert(all[x][i1] != b[i1]);
                assert(all[y][i1] == b[i1]);
            } else {
                assert(all[x][i1] != all[y][i1]);
            }
        }
    }
    all.unique_seq_to_set();
    vstd::seq_lib::seq_to_set_is_finite(all);
}

/// How many of the first `n` positions of `b` and `s` differ.
pub open spec fn diff_count(b: Seq<u8>, s: Seq<u8>, n: nat) -> nat
    decreases n,
{
    if n == 0 {
        0
    } else {
        diff_count(b, s, (n - 1) as nat) + if b[n - 1] != s[n - 1] {
            1nat
        } else {
            0nat
        }
    }
}

/// The number of positions at which `b` and `s` differ.
pub open spec fn hamming(b: Seq<u8>, s: Seq<u8>) -> nat {
    diff_count(b, s, b.len())
}

/// `s` has the length of `b`, and differs from it only where both hold valid bases.
pub open spec fn substitutable(b: Seq<u8>, s: Seq<u8>) -> bool {
    &&& s.len() == b.len()
    &&& forall|i: int| 0 <= i < b.len() && s[i] != b[i] ==> is_base(b[i]) && is_base(s[i])
}

proof fn lemma_diff_count_zero(b: Seq<u8>, s: Seq<u8>, n: nat)
    requires
        n <= b.len(),
        n <= s.len(),
    ensures
        diff_count(b, s, n) == 0 <==> forall|i: int| 0 <= i < n ==> b[i] == s[i],
    decreases n,
{
    if n > 0 {
        lemma_diff_count_zero(b, s, (n - 1) as nat);
    }
}

proof fn lemma_diff_count_update(b: Seq<u8>, s: Seq<u8>, i: int, c: u8, n: nat)
    requires
        0 <= i < b.len(),
        b.len() == s.len(),
        n <= b.len(),
    ensures
        diff_count(b, s, n) <= diff_count(b.update(i, c), s, n) + 1,
        n <= i ==> diff_count(b, s, n) == diff_count(b.update(i, c), s, n),
        c == s[i] && i < n && b[i] != s[i] ==> diff_count(b.update(i, c), s, n) + 1 == diff_count(
            b,
            s,
            n,
        ),
    decreases n,
{
    if n > 0 {
        lemma_diff_count_update(b, s, i, c, (n - 1) as nat);
        assert(b.update(i, c)[n - 1] == if n - 1 == i {
            c
        } else {
            b[n - 1]
        });
    }
}

proof fn lemma_in_expansion_self(b: Seq<u8>, k: nat)
    ensures
        in_expansion(b, b, k),
    decreases k,
{
    if k > 0 {
        lemma_in_expansion_self(b, (k - 1) as nat);
    }
}

/// The variants of `b` within `k` substitutions are exactly the strings of its
/// length that differ from it in at most `k` positions, each of which holds a
/// valid base in both.
pub proof fn lemma_expansion_is_hamming_ball(b: Seq<u8>, s: Seq<u8>, k: nat)
    ensures
        expansion(b, k).contains(s) <==> substitutable(b, s) && hamming(b, s) <= k,
    decreases k,
{
    if in_expansion(b, s, k) {
        if k == 0 {
            lemma_diff_count_zero(b, s, b.len());
        } else if in_expansion(b, s, (k - 1) as nat) {
            lemma_expansion_is_hamming_ball(b, s, (k - 1) as nat);
        } else {
            let (v, i) = choose|v: Seq<u8>, i: int|
                #[trigger] is_substitution(b, v, i) && in_expansion(v, s, (k - 1) as nat);
            lemma_expansion_is_hamming_ball(v, s, (k - 1) as nat);
            assert forall|j: int| 0 <= j < b.len() && s[j] != b[j] implies is_base(b[j]) && is_base(
                s[j],
            ) by {
                if j != i {
                    assert(v[j] == b.update(i, v[i])[j]);
                }
            }
            assert(b.update(i, v[i]) =~= v);
            lemma_diff_count_update(b, s, i, v[i], b.len());
        }
    }
    if substitutable(b, s) && hamming(b, s) <= k {
        if hamming(b, s) == 0 {
            lemma_diff_count_zero(b, s, b.len());
            assert(s =~= b);
            lemma_in_expansion_self(b, k);
        } else {
            if forall|j: int| 0 <= j < b.len() ==> b[j] == s[j] {
                lemma_diff_count_zero(b, s, b.len());
            }
            let i = choose|i: int| 0 <= i < b.len() && b[i] != s[i];
            let v = b.update(i, s[i]);
            lemma_diff_count_update(b, s, i, s[i], b.len());
            assert(is_substitution(b, v, i));
            assert forall|j: int| 0 <= j < v.len() && s[j] != v[j] implies is_base(v[j]) && is_base(
                s[j],
            ) by {}
            lemma_expansion_is_hamming_ball(v, s, (k - 1) as nat);
            assert(in_expansion(v, s, (k - 1) as nat));
            assert(in_expansion(b, s, k));
        }
    }
}

} // verus!
