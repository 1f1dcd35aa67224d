//! Barcode assignments, written `barcode=path`.

use vstd::prelude::*;
use vstd::slice::{slice_subrange, slice_to_vec};
use vstd::string::StringSliceAdditionalSpecFns;

verus! {

/// Why a run cannot go on.
#[derive(Debug, Clone, Copy, PartialEq, Eq, Structural)]
pub enum DemuxError {
    /// An assignment is not of the form `barcode=path` with both sides non-empty.
    AssignmentFormat,
    /// A record header holds no `:` before its barcode.
    MalformedHeader,
}

/// A barcode and the path of the file that receives its records.
#[derive(Debug, Clone)]
pub struct BarcodeAssignment {
    barcode: Vec<u8>,
    filepath: Vec<u8>,
}

/// The byte that separates a barcode from its path: `=`.
pub open spec fn is_assign_sep(c: u8) -> bool {
    c == 61u8
}

/// Position `i` holds the first `=` of `s`.
pub open spec fn first_assign_sep(s: Seq<u8>, i: int) -> bool {
    &&& 0 <= i < s.len()
    &&& is_assign_sep(s[i])
    &&& forall|j: int| 0 <= j < i ==> !is_assign_sep(s[j])
}

/// The assignment that `s` spells, split at its first `=`; none where either side is empty.
pub open spec fn parse_assignment(s: Seq<u8>) -> Option<(Seq<u8>, Seq<u8>)> {
    if exists|i: int| first_assign_sep(s, i) && 0 < i && i + 1 < s.len() {
        let i = choose|i: int| first_assign_sep(s, i) && 0 < i && i + 1 < s.len();
        Some((s.subrange(0, i), s.subrange(i + 1, s.len() as int)))
    } else {
        None
    }
}

impl View for BarcodeAssignment {
    type V = (Seq<u8>, Seq<u8>);

    closed spec fn view(&self) -> (Seq<u8>, Seq<u8>) {
        (self.barcode@, self.filepath@)
    }
}

impl BarcodeAssignment {
    /// An assignment of `barcode` to the file at `filepath`.
    pub fn new(barcode: Vec<u8>, filepath: Vec<u8>) -> (r: Self)
        ensures
            r@ == (barcode@, filepath@),
    {
        BarcodeAssignment { barcode, filepath }
    }

    /// The barcode.
    pub fn barcode(&self) -> (r: &[u8])
        ensures
            r@ == self@.0,
    {
        self.barcode.as_slice()
    }

    /// The path of the destination file.
    pub fn filepath(&self) -> (r: &[u8])
        ensures
            r@ == self@.1,
    {
        self.filepath.as_slice()
    }

    /// Reads `barcode=path`, splitting at the first `=`.
    pub fn parse(s: &[u8]) -> (r: Result<Self, DemuxError>)
        ensures
            match parse_assignment(s@) {
                Some(p) => r is Ok && r->Ok_0@ == p,
                None => r == Err::<Self, DemuxError>(DemuxError::AssignmentFormat),
            },
    {
        let mut i: usize = 0;
        while i < s.len() && s[i] != 61u8
            invariant
                0 <= i <= s@.len(),
                forall|j: int| 0 <= j < i ==> !is_assign_sep(s@[j]),
            decreases s@.len() - i,
        {
            i = i + 1;
        }
        proof {
            assert forall|k: int| first_assign_sep(s@, k) implies k == i as int by {
                if k < i {
                } else if k > i {
                    assert(!is_assign_sep(s@[i as int]));
                }
            }
        }
        if i == 0 || i >= s.len() - 1 {
            return Err(DemuxError::AssignmentFormat);
        }
        assert(first_assign_sep(s@, i as int));
        let barcode = slice_to_vec(slice_subrange(s, 0, i));
        let filepath = slice_to_vec(slice_subrange(s, i + 1, s.len()));
        Ok(BarcodeAssignment { barcode, filepath })
    }
}

impl std::str::FromStr for BarcodeAssignment {
    type Err = DemuxError;

    fn from_str(s: &str) -> (r: Result<Self, DemuxError>)
        ensures
            match parse_assignment(s.spec_bytes()) {
                Some(p) => r is Ok && r->Ok_0@ == p,
                None => r == Err::<Self, DemuxError>(DemuxError::AssignmentFormat),
            },
    {
        BarcodeAssignment::parse(s.as_bytes())
    }
}

} // verus!
