use vstd::prelude::*;
use crate::runs::{
    BvfError, Line, Vector, covers, lemma_run_count, run_list_matches, vector_wf,
    vectors_separated, vectors_wf,
};

verus! {

/// A pixel is "on" (dark) when its intensity lies below half the channel
/// maximum.
pub open spec fn pixel_on(p: u8) -> bool {
    p < 127
}

/// The on/off pattern of one row of pixel intensities.
pub open spec fn on_row(row: Seq<u8>) -> Seq<bool> {
    Seq::new(row.len(), |i: int| pixel_on(row[i]))
}

/// The scanner's state after some prefix of a scanline: the start column of
/// the run still open, if any, and the runs already emitted.
pub struct ScanState {
    pub pending: Option<u8>,
    pub runs: Seq<Vector>,
}

/// One step of the scanner at column `x` of the pattern `l`: a rising
/// transition (or an on pixel in column 0) opens a run, a falling transition
/// (or an on pixel in the last column) closes it and emits it.
pub open spec fn scan_step(l: Seq<bool>, x: int, st: ScanState) -> ScanState {
    let on = l[x];
    let started = if x == 0 {
        if on {
            Some(0u8)
        } else {
            None
        }
    } else if on && !l[x - 1] {
        Some(x as u8)
    } else {
        st.pending
    };
    let ended = if x != 0 && !on && l[x - 1] {
        Some((x - 1) as u8)
    } else if x + 1 == l.len() && on {
        Some(x as u8)
    } else {
        None::<u8>
    };
    match ended {
        Some(e) => {
            let s = match started {
                Some(s) => s,
                None => 0u8,
            };
            ScanState { pending: None, runs: st.runs.push(Vector { start: s, end: e }) }
        }
        None => ScanState { pending: started, runs: st.runs },
    }
}

/// The scanner's state after the first `n` columns of `l`.
pub open spec fn scan(l: Seq<bool>, n: int) -> ScanState
    decreases n,
{
    if n <= 0 {
        ScanState { pending: None, runs: Seq::empty() }
    } else {
        scan_step(l, n - 1, scan(l, n - 1))
    }
}

/// The full run list the scanner emits for the pattern `l`.
pub open spec fn scan_runs(l: Seq<bool>) -> Seq<Vector> {
    scan(l, l.len() as int).runs
}

/// The emitted runs are well formed, ordered with gaps, end before column
/// `b`, and cover exactly the on pixels among the first `b` columns.
spec fn prefix_matches(l: Seq<bool>, rs: Seq<Vector>, b: int) -> bool {
    &&& vectors_wf(rs)
    &&& vectors_separated(rs)
    &&& forall|k: int| #![trigger rs[k]] 0 <= k < rs.len() ==> (rs[k].end as int) < b
    &&& forall|x: int| 0 <= x < b ==> (#[trigger] l[x] <==> covers(rs, x))
}

/// What holds of the scanner's state after `n` columns: with a run open from
/// column `s`, the pixels from `s` onwards are all on, `s` sits just after an
/// off pixel or at the left edge, and the emitted runs account for the
/// columns before `s`; with no run open they account for all `n` columns.
spec fn scan_inv(l: Seq<bool>, n: int, st: ScanState) -> bool {
    match st.pending {
        Some(s) => {
            &&& 0 < n < l.len()
            &&& (s as int) < n
            &&& (s == 0 || !l[s as int - 1])
            &&& forall|j: int| s as int <= j < n ==> l[j]
            &&& prefix_matches(l, st.runs, s as int)
        }
        None => {
            &&& prefix_matches(l, st.runs, n)
            &&& (n <= 0 || n == l.len() || !l[n - 1])
        }
    }
}

/// Appending the closed run `[s, e]` to a run list that accounts for the
/// columns before `s` yields a run list that accounts for the columns before
/// `n`, provided the pixels of `[s, e]` are on and those of `(e, n)` are off.
proof fn lemma_emit(l: Seq<bool>, rs: Seq<Vector>, s: u8, e: u8, n: int)
    requires
        s <= e,
        (e as int) < n <= l.len(),
        prefix_matches(l, rs, s as int),
        s == 0 || !l[s as int - 1],
        forall|j: int| s as int <= j <= e as int ==> l[j],
        forall|j: int| (e as int) < j < n ==> !l[j],
    ensures
        prefix_matches(l, rs.push(Vector { start: s, end: e }), n),
{
    let v = Vector { start: s, end: e };
    let rs2 = rs.push(v);
    assert forall|k: int| 0 <= k < rs2.len() implies vector_wf(#[trigger] rs2[k]) by {
        if k < rs.len() {
            assert(rs2[k] == rs[k]);
        } else {
            assert(rs2[k] == v);
        }
    }
    assert forall|k: int| #![trigger rs2[k]] 0 <= k < rs2.len() implies (rs2[k].end as int)
        < n by {
        if k < rs.len() {
            assert(rs2[k] == rs[k]);
            assert((rs[k].end as int) < s as int);
        } else {
            assert(rs2[k] == v);
        }
    }
    assert forall|k: int| #![trigger rs2[k]] 0 <= k < rs2.len() - 1 implies rs2[k].end + 1
        < rs2[k + 1].start by {
        if k < rs.len() - 1 {
            assert(rs2[k] == rs[k]);
            assert(rs2[k + 1] == rs[k + 1]);
        } else {
            assert(rs2[k] == rs[k]);
            assert(rs2[k + 1] == v);
            assert((rs[k].end as int) < s as int);
            if rs[k].end as int == s as int - 1 {
                assert(covers(rs, s as int - 1));
                assert(l[s as int - 1]);
                assert(false);
            }
        }
    }
    assert forall|x: int| 0 <= x < n implies (#[trigger] l[x] <==> covers(rs2, x)) by {
        if x < s as int {
            if l[x] {
                assert(covers(rs, x));
                let k = choose|k: int|
                    0 <= k < rs.len() && rs[k].start <= x && x <= rs[k].end;
                assert(rs2[k] == rs[k]);
                assert(covers(rs2, x));
            }
            if covers(rs2, x) {
                let k = choose|k: int|
                    0 <= k < rs2.len() && rs2[k].start <= x && x <= rs2[k].end;
                if k < rs.len() {
                    assert(rs2[k] == rs[k]);
                    assert(covers(rs, x));
                    assert(l[x]);
                } else {
                    assert(rs2[k] == v);
                    assert(false);
                }
            }
        } else if x <= e as int {
            assert(l[x]);
            assert(rs2[rs.len() as int] == v);
            assert(covers(rs2, x));
        } else {
            assert(!l[x]);
            if covers(rs2, x) {
                let k = choose|k: int|
                    0 <= k < rs2.len() && rs2[k].start <= x && x <= rs2[k].end;
                if k < rs.len() {
                    assert(rs2[k] == rs[k]);
                    assert((rs[k].end as int) < s as int);
                    assert(false);
                } else {
                    assert(rs2[k] == v);
                    assert(false);
                }
            }
        }
    }
}

/// The scanner's state satisfies its invariant after every prefix.
proof fn lemma_scan_inv(l: Seq<bool>, n: int)
    requires
        0 <= n <= l.len(),
        l.len() <= 255,
    ensures
        scan_inv(l, n, scan(l, n)),
    decreases n,
{
    if n > 0 {
        lemma_scan_inv(l, n - 1);
        let st = scan(l, n - 1);
        let st2 = scan(l, n);
        let x = n - 1;
        let on = l[x];
        assert(st2 == scan_step(l, x, st));
        if x == 0 {
            if on {
                if n == l.len() {
                    // width-1 line whose single pixel is on: emit [0, 0]
                    lemma_emit(l, st.runs, 0u8, 0u8, n);
                }
            }
        } else {
            if !l[x - 1] {
                // the previous pixel is off, so no run is open
                match st.pending {
                    Some(s) => {
                        assert(l[x - 1]);
                        assert(false);
                    }
                    None => {}
                }
                if on {
                    if x + 1 == l.len() {
                        // single-pixel run at the last column: emit [x, x]
                        lemma_emit(l, st.runs, x as u8, x as u8, n);
                    }
                } else {
                    // still off: the emitted runs also account for column x
                    assert forall|y: int| 0 <= y < n implies (#[trigger] l[y] <==> covers(
                        st.runs,
                        y,
                    )) by {
                        if y == x {
                            if covers(st.runs, y) {
                                let k = choose|k: int|
                                    0 <= k < st.runs.len() && st.runs[k].start <= y && y
                                        <= st.runs[k].end;
                                assert((st.runs[k].end as int) < x);
                                assert(false);
                            }
                        }
                    }
                }
            } else {
                // the previous pixel is on, so a run is open from some s
                assert(st.pending is Some);
                let s = st.pending->Some_0;
                if on {
                    if x + 1 == l.len() {
                        // the run reaches the right edge: emit [s, x]
                        lemma_emit(l, st.runs, s, x as u8, n);
                    }
                } else {
                    // falling transition: emit [s, x - 1]
                    lemma_emit(l, st.runs, s, (x - 1) as u8, n);
                }
            }
        }
    }
}

/// Scans one row of pixel intensities left to right and returns its ordered
/// run list: exactly the maximal spans of on pixels, each run's count and
/// columns fitting one byte.
pub fn line_runs(row: &Vec<u8>) -> (runs: Vec<Vector>)
    requires
        row@.len() <= 255,
    ensures
        runs@ == scan_runs(on_row(row@)),
        run_list_matches(on_row(row@), runs@),
        runs@.len() <= 128,
{
    let ghost l = on_row(row@);
    let w: usize = row.len();
    let mut runs: Vec<Vector> = Vec::new();
    let mut pending: Option<u8> = None;
    let mut prev_on = false;
    for x in 0..w
        invariant
            w == row@.len(),
            row@.len() <= 255,
            l == on_row(row@),
            pending == scan(l, x as int).pending,
            runs@ == scan(l, x as int).runs,
            prev_on == (x > 0 && l[x as int - 1]),
    {
        let px: u8 = row[x];
        let on = px < 127;
        let ghost st = scan(l, x as int);
        proof {
            lemma_scan_inv(l, x as int);
            assert(l[x as int] == on);
        }
        let mut ended: Option<u8> = None;
        if on != prev_on && x != 0 {
            if !prev_on {
                // rising transition: the run opens at this column
                pending = Some(x as u8);
            } else {
                // falling transition: the run ended at the previous column
                ended = Some((x - 1) as u8);
            }
        }
        if x == 0 && on {
            // left edge: a run starting in column 0 produces no transition
            pending = Some(0);
        }
        if x + 1 == w && on {
            // right edge: a run reaching the last column produces no transition
            ended = Some(x as u8);
        }
        if ended.is_some() {
            proof {
                if x > 0 && l[x as int - 1] {
                    assert(st.pending is Some);
                }
            }
            let s = pending.unwrap();
            let e = ended.unwrap();
            runs.push(Vector { start: s, end: e });
            pending = None;
        }
        prev_on = on;
        proof {
            assert(scan(l, x as int + 1) == scan_step(l, x as int, st));
        }
    }
    proof {
        lemma_scan_inv(l, w as int);
        match scan(l, w as int).pending {
            Some(s) => {
                assert(false);
            }
            None => {}
        }
        assert(run_list_matches(l, runs@));
        lemma_run_count(l, runs@);
    }
    runs
}

/// The frame has exactly the declared number of rows, each of the declared
/// width.
pub open spec fn frame_dims_ok(rows: Seq<Vec<u8>>, width: u8, height: u8) -> bool {
    &&& rows.len() == height
    &&& forall|i: int| 0 <= i < rows.len() ==> (#[trigger] rows[i])@.len() == width
}

/// `line` is the extracted scanline of `row`: a well-formed line holding
/// exactly the scanner's run list for that row.
pub open spec fn line_extracted(row: Seq<u8>, line: Line) -> bool {
    &&& line.wf()
    &&& line.vectors@ == scan_runs(on_row(row))
    &&& run_list_matches(on_row(row), line.vectors@)
}

/// `lines` are the extracted scanlines of the frame `rows`, in scan order.
pub open spec fn frame_extracted(rows: Seq<Vec<u8>>, lines: Seq<Line>) -> bool {
    &&& lines.len() == rows.len()
    &&& forall|i: int| 0 <= i < rows.len() ==> line_extracted(
        (#[trigger] rows[i])@,
        lines[i],
    )
}

/// Extracts every scanline's run list from one frame of pixel intensities,
/// given the declared resolution. A frame whose dimensions match the
/// declared resolution is always accepted; any other frame is rejected with
/// a dimension-mismatch error.
pub fn extract_frame(rows: &Vec<Vec<u8>>, width: u8, height: u8) -> (r: Result<
    Vec<Line>,
    BvfError,
>)
    ensures
        frame_dims_ok(rows@, width, height) <==> r is Ok,
        r matches Ok(lines) ==> frame_extracted(rows@, lines@),
        !frame_dims_ok(rows@, width, height) ==> r == Err::<Vec<Line>, BvfError>(
            BvfError::DimensionMismatch,
        ),
{
    if rows.len() != height as usize {
        return Err(BvfError::DimensionMismatch);
    }
    let n: usize = rows.len();
    let mut lines: Vec<Line> = Vec::new();
    for i in 0..n
        invariant
            n == rows@.len(),
            rows@.len() == height,
            lines@.len() == i,
            forall|j: int| 0 <= j < i ==> (#[trigger] rows@[j])@.len() == width,
            forall|j: int| 0 <= j < i ==> line_extracted((#[trigger] rows@[j])@, lines@[j]),
    {
        let row = &rows[i];
        if row.len() != width as usize {
            return Err(BvfError::DimensionMismatch);
        }
        let runs = line_runs(row);
        let nv: usize = runs.len();
        lines.push(Line { num_vectors: nv, vectors: runs });
    }
    Ok(lines)
}

} // verus!
