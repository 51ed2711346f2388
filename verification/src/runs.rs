use vstd::prelude::*;

verus! {

/// The ways the encoder can reject its input.
#[derive(Clone, Copy, Debug, PartialEq, Eq, Structural)]
pub enum BvfError {
    /// A frame's actual dimensions differ from the declared resolution.
    DimensionMismatch,
    /// A dimension, coordinate or count does not fit its one-byte field.
    Range,
}

/// One run of contiguous "on" pixels on a scanline: the closed column
/// interval `[start, end]`.
#[derive(Clone, Copy, Debug, PartialEq, Eq, Structural)]
pub struct Vector {
    pub start: u8,
    pub end: u8,
}

/// A run is well formed when its interval is non-empty: `start <= end`.
pub open spec fn vector_wf(v: Vector) -> bool {
    v.start <= v.end
}

/// Every run in the list is a non-empty interval.
pub open spec fn vectors_wf(rs: Seq<Vector>) -> bool {
    forall|k: int| 0 <= k < rs.len() ==> vector_wf(#[trigger] rs[k])
}

/// Every run ends strictly before column `bound`.
pub open spec fn vectors_in_bounds(rs: Seq<Vector>, bound: int) -> bool {
    forall|k: int| #![trigger rs[k]] 0 <= k < rs.len() ==> (rs[k].end as int) < bound
}

/// Runs appear left to right with at least one off pixel between
/// consecutive runs, so they are sorted by `start`, disjoint, and maximal.
pub open spec fn vectors_separated(rs: Seq<Vector>) -> bool {
    forall|k: int| #![trigger rs[k]] 0 <= k < rs.len() - 1 ==> rs[k].end + 1 < rs[k + 1].start
}

/// Column `x` lies inside one of the runs.
pub open spec fn covers(rs: Seq<Vector>, x: int) -> bool {
    exists|k: int| #![trigger rs[k]] 0 <= k < rs.len() && rs[k].start <= x && x <= rs[k].end
}

/// `rs` is the run list of the scanline `l`: well-formed, ordered, maximal
/// runs that cover exactly the on pixels of `l`.
pub open spec fn run_list_matches(l: Seq<bool>, rs: Seq<Vector>) -> bool {
    &&& vectors_wf(rs)
    &&& vectors_in_bounds(rs, l.len() as int)
    &&& vectors_separated(rs)
    &&& forall|x: int| 0 <= x < l.len() ==> (#[trigger] l[x] <==> covers(rs, x))
}

impl Vector {
    /// The two-byte serialization of a run: its start column, then its end
    /// column.
    pub open spec fn bytes_spec(self) -> Seq<u8> {
        seq![self.start, self.end]
    }

    pub fn bytes(&self) -> (r: [u8; 2])
        ensures
            r@ == self.bytes_spec(),
    {
        [self.start, self.end]
    }
}

/// The serialization of a run list: each run's two bytes, left to right.
pub open spec fn vectors_bytes(rs: Seq<Vector>) -> Seq<u8>
    decreases rs.len(),
{
    if rs.len() == 0 {
        Seq::empty()
    } else {
        vectors_bytes(rs.drop_last()) + rs.last().bytes_spec()
    }
}

/// One scanline's ordered run list together with its count field.
#[derive(Clone, Debug, PartialEq, Eq)]
pub struct Line {
    pub num_vectors: usize,
    pub vectors: Vec<Vector>,
}

impl Line {
    /// The count field agrees with the list and fits the one-byte field.
    pub open spec fn wf(self) -> bool {
        &&& self.num_vectors == self.vectors@.len()
        &&& self.vectors@.len() <= 255
    }

    /// The serialization of a line: one count byte, then each run's bytes.
    pub open spec fn bytes_spec(self) -> Seq<u8> {
        seq![self.num_vectors as u8] + vectors_bytes(self.vectors@)
    }

    /// Wraps a run list as a line, rejecting a list whose count does not fit
    /// the one-byte count field.
    pub fn new(vectors: Vec<Vector>) -> (r: Result<Line, BvfError>)
        ensures
            vectors@.len() <= 255 ==> (r matches Ok(l) && l.vectors@ == vectors@
                && l.num_vectors == vectors@.len() && l.wf()),
            vectors@.len() > 255 ==> r == Err::<Line, BvfError>(BvfError::Range),
    {
        if vectors.len() > 255 {
            Err(BvfError::Range)
        } else {
            let n = vectors.len();
            Ok(Line { num_vectors: n, vectors })
        }
    }

    pub fn bytes(&self) -> (r: Vec<u8>)
        requires
            self.wf(),
        ensures
            r@ == self.bytes_spec(),
    {
        let mut bytes: Vec<u8> = Vec::new();
        bytes.push(self.num_vectors as u8);
        let n = self.vectors.len();
        for i in 0..n
            invariant
                n == self.vectors@.len(),
                self.wf(),
                bytes@ == seq![self.num_vectors as u8] + vectors_bytes(self.vectors@.take(i as int)),
        {
            let v = self.vectors[i];
            bytes.push(v.start);
            bytes.push(v.end);
            proof {
                let pre = self.vectors@.take(i as int);
                let post = self.vectors@.take(i + 1);
                assert(post.drop_last() =~= pre);
                assert(post.last() == self.vectors@[i as int]);
            }
        }
        proof {
            assert(self.vectors@.take(self.vectors@.len() as int) =~= self.vectors@);
        }
        bytes
    }
}

/// In an ordered, well-formed run list the `k`-th run starts no earlier than
/// column `2 * k`: each run takes at least one column and leaves at least one
/// off column before the next.
pub proof fn lemma_vector_start_lower_bound(rs: Seq<Vector>, k: int)
    requires
        vectors_wf(rs),
        vectors_separated(rs),
        0 <= k < rs.len(),
    ensures
        rs[k].start as int >= 2 * k,
    decreases k,
{
    if k > 0 {
        lemma_vector_start_lower_bound(rs, k - 1);
        assert(rs[k - 1].end + 1 < rs[k].start);
    }
}

/// A run list over a scanline of width at most 255 holds at most 128 runs,
/// so its count always fits the one-byte count field.
pub proof fn lemma_run_count(l: Seq<bool>, rs: Seq<Vector>)
    requires
        run_list_matches(l, rs),
        l.len() <= 255,
    ensures
        rs.len() <= 128,
{
    if rs.len() > 128 {
        lemma_vector_start_lower_bound(rs, 128);
        assert((rs[128].end as int) < l.len() as int);
        assert(false);
    }
}

} // verus!
