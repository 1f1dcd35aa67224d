//! Building the destination table from assignments, and routing records by it.

use vstd::prelude::*;
use vstd::slice::slice_subrange;
use crate::assignment::{BarcodeAssignment, DemuxError};
use crate::expand::{find_bytes, generate_mismatches, in_expansion, lemma_push_contains, views};
use crate::path::{normal_path, normalize_path};
use crate::table::DestinationTable;

verus! {

/// A demultiplexing run: the assignments, the worker threads that output may
/// use, and the substitution budget.
pub struct Demultiplexer {
    pub assignments: Vec<BarcodeAssignment>,
    pub threads: usize,
    pub mismatches: u8,
}

/// The assignments as (barcode, path) pairs.
pub open spec fn assignment_views(a: Seq<BarcodeAssignment>) -> Seq<(Seq<u8>, Seq<u8>)> {
    a.map_values(|x: BarcodeAssignment| x@)
}

/// The paths of `ps`, each once, in the order in which they first occur.
pub open spec fn unique_paths(ps: Seq<Seq<u8>>) -> Seq<Seq<u8>>
    decreases ps.len(),
{
    if ps.len() == 0 {
        Seq::empty()
    } else {
        let prev = unique_paths(ps.drop_last());
        if prev.contains(ps.last()) {
            prev
        } else {
            prev.push(ps.last())
        }
    }
}

/// The destination paths of the assignments in normal form, each once, first
/// seen first: two paths with the same components are one destination.
pub open spec fn destinations(a: Seq<(Seq<u8>, Seq<u8>)>) -> Seq<Seq<u8>> {
    unique_paths(a.map_values(|x: (Seq<u8>, Seq<u8>)| normal_path(x.1)))
}

/// The table after the first `n` assignments: every variant of an assignment's
/// barcode maps to the index of its path among `paths`, a later assignment
/// overriding an earlier one.
pub open spec fn variant_table(
    a: Seq<(Seq<u8>, Seq<u8>)>,
    k: nat,
    paths: Seq<Seq<u8>>,
    n: nat,
) -> Map<Seq<u8>, usize>
    decreases n,
{
    if n == 0 {
        Map::empty()
    } else {
        let prev = variant_table(a, k, paths, (n - 1) as nat);
        let bc = a[n - 1].0;
        let d = paths.index_of(normal_path(a[n - 1].1)) as usize;
        Map::new(
            |s: Seq<u8>| prev.contains_key(s) || in_expansion(bc, s, k),
            |s: Seq<u8>|
                if in_expansion(bc, s, k) {
                    d
                } else {
                    prev[s]
                },
        )
    }
}

/// The paths in first-seen order hold no path twice, and hold each path of `ps`.
pub proof fn lemma_unique_paths(ps: Seq<Seq<u8>>)
    ensures
        unique_paths(ps).no_duplicates(),
        forall|p: Seq<u8>| #[trigger] unique_paths(ps).contains(p) <==> ps.contains(p),
    decreases ps.len(),
{
    if ps.len() > 0 {
        let init = ps.drop_last();
        lemma_unique_paths(init);
        lemma_push_contains(init, ps.last());
        assert(ps =~= init.push(ps.last()));
        lemma_push_contains(unique_paths(init), ps.last());
    }
}

/// A variant is in the table exactly when some assignment's expansion holds
/// it, and then it maps to the destination of the last such assignment.
pub proof fn lemma_variant_table_lookup(
    a: Seq<(Seq<u8>, Seq<u8>)>,
    k: nat,
    paths: Seq<Seq<u8>>,
    n: nat,
    s: Seq<u8>,
)
    requires
        n <= a.len(),
    ensures
        variant_table(a, k, paths, n).contains_key(s) <==> exists|j: int|
            0 <= j < n && #[trigger] in_expansion(a[j].0, s, k),
        variant_table(a, k, paths, n).contains_key(s) ==> exists|j: int|
            {
                &&& 0 <= j < n
                &&& #[trigger] in_expansion(a[j].0, s, k)
                &&& forall|l: int| j < l < n ==> !in_expansion(a[l].0, s, k)
                &&& variant_table(a, k, paths, n)[s] == paths.index_of(normal_path(a[j].1)) as usize
            },
    decreases n,
{
    if n > 0 {
        lemma_variant_table_lookup(a, k, paths, (n - 1) as nat, s);
        let last = n - 1;
        if in_expansion(a[last].0, s, k) {
            assert(forall|l: int| last < l < n ==> !in_expansion(a[l].0, s, k));
        } else if variant_table(a, k, paths, n).contains_key(s) {
            let j = choose|j: int|
                {
                    &&& 0 <= j < n - 1
                    &&& #[trigger] in_expansion(a[j].0, s, k)
                    &&& forall|l: int| j < l < n - 1 ==> !in_expansion(a[l].0, s, k)
                    &&& variant_table(a, k, paths, (n - 1) as nat)[s] == paths.index_of(normal_path(a[j].1)) as usize
                };
            assert(forall|l: int| j < l < n ==> !in_expansion(a[l].0, s, k));
        }
    }
}

/// `base` with each of the first `t` strings of `vs` mapped to `w`.
spec fn overlay(base: Map<Seq<u8>, usize>, vs: Seq<Seq<u8>>, t: int, w: usize) -> Map<
    Seq<u8>,
    usize,
> {
    Map::new(
        |s: Seq<u8>| base.contains_key(s) || exists|u: int| 0 <= u < t && vs[u] == s,
        |s: Seq<u8>|
            if exists|u: int| 0 <= u < t && vs[u] == s {
                w
            } else {
                base[s]
            },
    )
}

fn index_in(v: &Vec<Vec<u8>>, x: &[u8]) -> (r: usize)
    requires
        views(v@).contains(x@),
    ensures
        r < v@.len(),
        views(v@)[r as int] == x@,
{
    match find_bytes(v, x) {
        Some(i) => i,
        // Not reached: `find_bytes` finds every string that `v` holds.
        None => 0,
    }
}

/// The table from every variant of each assignment's barcode to the index of
/// its destination, and the destination paths in index order: each path once,
/// in normal form, in the order in which the assignments first name it. Paths
/// with the same components are one destination. Where the variants of two
/// assignments meet, the later assignment wins.
pub fn generate_demux_map(barcodes: &Vec<BarcodeAssignment>, mismatches: u8) -> (r: (
    DestinationTable,
    Vec<Vec<u8>>,
))
    ensures
        r.0.wf(),
        views(r.1@) == destinations(assignment_views(barcodes@)),
        r.0@ == variant_table(
            assignment_views(barcodes@),
            mismatches as nat,
            views(r.1@),
            barcodes@.len(),
        ),
        forall|s: Seq<u8>| #[trigger] r.0@.contains_key(s) ==> r.0@[s] < r.1@.len(),
{
    let ghost av = assignment_views(barcodes@);
    let ghost ps = av.map_values(|x: (Seq<u8>, Seq<u8>)| normal_path(x.1));
    let ghost k = mismatches as nat;
    let mut paths: Vec<Vec<u8>> = Vec::new();
    let mut i: usize = 0;
    assert(ps.take(0) =~= Seq::<Seq<u8>>::empty());
    while i < barcodes.len()
        invariant
            0 <= i <= barcodes@.len(),
            av == assignment_views(barcodes@),
            ps == av.map_values(|x: (Seq<u8>, Seq<u8>)| normal_path(x.1)),
            views(paths@) == unique_paths(ps.take(i as int)),
        decreases barcodes@.len() - i,
    {
        let fp = normalize_path(barcodes[i].filepath());
        let ghost prev = views(paths@);
        proof {
            assert(ps.take(i + 1).drop_last() =~= ps.take(i as int));
            assert(ps.take(i + 1).last() == fp@);
        }
        if find_bytes(&paths, fp.as_slice()).is_none() {
            paths.push(fp);
            assert(views(paths@) =~= prev.push(fp@));
        }
        i = i + 1;
    }
    proof {
        assert(ps.take(barcodes@.len() as int) =~= ps);
        lemma_unique_paths(ps);
    }
    let ghost pv = views(paths@);
    let mut table = DestinationTable::new();
    let mut j: usize = 0;
    while j < barcodes.len()
        invariant
            0 <= j <= barcodes@.len(),
            av == assignment_views(barcodes@),
            ps == av.map_values(|x: (Seq<u8>, Seq<u8>)| normal_path(x.1)),
            pv == views(paths@),
            pv == unique_paths(ps),
            pv.no_duplicates(),
            forall|p: Seq<u8>| #[trigger] pv.contains(p) <==> ps.contains(p),
            k == mismatches as nat,
            table.wf(),
            table@ == variant_table(av, k, pv, j as nat),
            forall|s: Seq<u8>| #[trigger] table@.contains_key(s) ==> table@[s] < paths@.len(),
        decreases barcodes@.len() - j,
    {
        let a = &barcodes[j];
        let fp = normalize_path(a.filepath());
        assert(ps[j as int] == fp@);
        let w = index_in(&paths, fp.as_slice());
        assert(pv.index_of(fp@) == w as int);
        let variants = generate_mismatches(vstd::slice::slice_to_vec(a.barcode()), mismatches);
        let ghost base = table@;
        let ghost vs = views(variants@);
        let mut t: usize = 0;
        assert(table@ =~= overlay(base, vs, 0, w));
        while t < variants.len()
            invariant
                0 <= t <= variants@.len(),
                vs == views(variants@),
                w < paths@.len(),
                table.wf(),
                table@ == overlay(base, vs, t as int, w),
                forall|s: Seq<u8>| #[trigger] base.contains_key(s) ==> base[s] < paths@.len(),
            decreases variants@.len() - t,
        {
            assert(vs[t as int] == variants@[t as int]@);
            table.insert(variants[t].clone(), w);
            assert(table@ =~= overlay(base, vs, t + 1, w));
            t = t + 1;
        }
        proof {
            let bc = av[j as int].0;
            assert(bc == a@.0);
            assert forall|s: Seq<u8>|
                (exists|u: int| 0 <= u < vs.len() && vs[u] == s) == in_expansion(bc, s, k) by {
                assert(vs.to_set().contains(s) == vs.contains(s));
            }
            assert(table@ =~= variant_table(av, k, pv, (j + 1) as nat));
        }
        j = j + 1;
    }
    proof {
        assert(barcodes@.len() == av.len());
    }
    (table, paths)
}

/// The byte that precedes the barcode in a record header: `:`.
pub open spec fn is_header_sep(c: u8) -> bool {
    c == 58u8
}

/// Position `i` holds the last `:` of `h`.
pub open spec fn last_header_sep(h: Seq<u8>, i: int) -> bool {
    &&& 0 <= i < h.len()
    &&& is_header_sep(h[i])
    &&& forall|j: int| i < j < h.len() ==> !is_header_sep(h[j])
}

/// The barcode of a header: what follows its last `:`; none where it has no `:`.
pub open spec fn header_barcode(h: Seq<u8>) -> Option<Seq<u8>> {
    if exists|i: int| last_header_sep(h, i) {
        let i = choose|i: int| last_header_sep(h, i);
        Some(h.subrange(i + 1, h.len() as int))
    } else {
        None
    }
}

/// Where a record with header `h` goes under `table`: the destination of its
/// barcode, nowhere where the table lacks the barcode, and an error where the
/// header has no barcode.
pub open spec fn route(table: Map<Seq<u8>, usize>, h: Seq<u8>) -> Result<Option<usize>, DemuxError> {
    match header_barcode(h) {
        None => Err(DemuxError::MalformedHeader),
        Some(b) => Ok(
            if table.contains_key(b) {
                Some(table[b])
            } else {
                None
            },
        ),
    }
}

/// The barcode of a record header: everything after its last `:`.
pub fn get_record_bc(head: &[u8]) -> (r: Result<&[u8], DemuxError>)
    ensures
        match header_barcode(head@) {
            Some(b) => r is Ok && r->Ok_0@ == b,
            None => r == Err::<&[u8], DemuxError>(DemuxError::MalformedHeader),
        },
{
    let mut i: usize = head.len();
    while i > 0 && head[i - 1] != 58u8
        invariant
            0 <= i <= head@.len(),
            forall|j: int| i <= j < head@.len() ==> !is_header_sep(head@[j]),
        decreases i,
    {
        i = i - 1;
    }
    if i == 0 {
        assert(!exists|k: int| last_header_sep(head@, k));
        return Err(DemuxError::MalformedHeader);
    }
    proof {
        assert(last_header_sep(head@, i - 1));
        assert forall|k: int| last_header_sep(head@, k) implies k == i - 1 by {
            if k < i - 1 {
                assert(is_header_sep(head@[i - 1]));
            }
        }
    }
    Ok(slice_subrange(head, i, head.len()))
}

/// Where the record with header `head` goes: the index of the destination that
/// `table` gives its barcode, or none.
pub fn route_record(table: &DestinationTable, head: &[u8]) -> (r: Result<Option<usize>, DemuxError>)
    requires
        table.wf(),
    ensures
        r == route(table@, head@),
{
    match get_record_bc(head) {
        Ok(bc) => Ok(table.get(bc)),
        Err(e) => Err(e),
    }
}

} // verus!
