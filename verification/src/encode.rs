use vstd::prelude::*;
use crate::extract::{extract_frame, frame_dims_ok, frame_extracted, line_extracted, on_row, scan_runs};
use crate::runs::{BvfError, Line, Vector, vectors_bytes};

verus! {

/// The stream's global header: playback rate, frame count, and the frame
/// resolution, each dimension one byte wide.
pub struct Metadata {
    pub frame_rate: u8,
    pub frame_count: u32,
    pub horizontal_resolution: u8,
    pub vertical_resolution: u8,
}

/// The four-byte little-endian serialization of a 32-bit count.
pub open spec fn u32_le_bytes(n: u32) -> Seq<u8> {
    seq![
        (n & 0xff) as u8,
        ((n >> 8) & 0xff) as u8,
        ((n >> 16) & 0xff) as u8,
        ((n >> 24) & 0xff) as u8,
    ]
}

impl Metadata {
    /// The seven-byte header: rate, four count bytes little-endian, then the
    /// horizontal and vertical resolution.
    pub open spec fn bytes_spec(self) -> Seq<u8> {
        seq![self.frame_rate] + u32_le_bytes(self.frame_count) + seq![
            self.horizontal_resolution,
            self.vertical_resolution,
        ]
    }

    pub fn bytes(&self) -> (r: Vec<u8>)
        ensures
            r@ == self.bytes_spec(),
            r@.len() == 7,
    {
        let mut bytes: Vec<u8> = Vec::new();
        bytes.push(self.frame_rate);
        bytes.push((self.frame_count & 0xff) as u8);
        bytes.push(((self.frame_count >> 8) & 0xff) as u8);
        bytes.push(((self.frame_count >> 16) & 0xff) as u8);
        bytes.push(((self.frame_count >> 24) & 0xff) as u8);
        bytes.push(self.horizontal_resolution);
        bytes.push(self.vertical_resolution);
        proof {
            assert(bytes@ =~= self.bytes_spec());
        }
        bytes
    }
}

/// The serialization of a whole frame: each line's bytes in scanline order.
pub open spec fn lines_bytes(lines: Seq<Line>) -> Seq<u8>
    decreases lines.len(),
{
    if lines.len() == 0 {
        Seq::empty()
    } else {
        lines_bytes(lines.drop_last()) + lines.last().bytes_spec()
    }
}

/// The serialization of one line's run list: its one-byte count, then each
/// run's two bytes.
pub open spec fn line_bytes_of(rs: Seq<Vector>) -> Seq<u8> {
    seq![rs.len() as u8] + vectors_bytes(rs)
}

/// The frame bytes that extraction and serialization produce for one frame
/// of pixel intensities: per row, the scanner's run list serialized.
pub open spec fn frame_stream(rows: Seq<Vec<u8>>) -> Seq<u8>
    decreases rows.len(),
{
    if rows.len() == 0 {
        Seq::empty()
    } else {
        frame_stream(rows.drop_last()) + line_bytes_of(scan_runs(on_row(rows.last()@)))
    }
}

/// The whole output stream: the header once, then each frame's bytes in
/// frame order.
pub open spec fn bvf_stream(meta: Metadata, frames: Seq<Vec<Vec<u8>>>) -> Seq<u8>
    decreases frames.len(),
{
    if frames.len() == 0 {
        meta.bytes_spec()
    } else {
        bvf_stream(meta, frames.drop_last()) + frame_stream(frames.last()@)
    }
}

/// Every frame has exactly the declared resolution.
pub open spec fn all_dims_ok(frames: Seq<Vec<Vec<u8>>>, width: u8, height: u8) -> bool {
    forall|n: int| 0 <= n < frames.len() ==> frame_dims_ok((#[trigger] frames[n])@, width, height)
}

/// Serializes one extracted frame: per line, one count byte then the runs'
/// bytes, in scanline order.
pub fn frame_bytes(lines: &Vec<Line>) -> (r: Vec<u8>)
    requires
        forall|i: int| 0 <= i < lines@.len() ==> (#[trigger] lines@[i]).wf(),
    ensures
        r@ == lines_bytes(lines@),
{
    let mut out: Vec<u8> = Vec::new();
    let n: usize = lines.len();
    for i in 0..n
        invariant
            n == lines@.len(),
            forall|j: int| 0 <= j < lines@.len() ==> (#[trigger] lines@[j]).wf(),
            out@ == lines_bytes(lines@.take(i as int)),
    {
        let mut lb = lines[i].bytes();
        out.append(&mut lb);
        proof {
            let pre = lines@.take(i as int);
            let post = lines@.take(i as int + 1);
            assert(post.drop_last() =~= pre);
            assert(post.last() == lines@[i as int]);
        }
    }
    proof {
        assert(lines@.take(lines@.len() as int) =~= lines@);
    }
    out
}

/// The serialization of extracted lines equals the frame bytes of the rows
/// they were extracted from.
pub proof fn lemma_lines_bytes_eq(rows: Seq<Vec<u8>>, lines: Seq<Line>)
    requires
        frame_extracted(rows, lines),
    ensures
        lines_bytes(lines) == frame_stream(rows),
    decreases rows.len(),
{
    if rows.len() > 0 {
        assert forall|i: int| 0 <= i < rows.len() - 1 implies line_extracted(
            (#[trigger] rows.drop_last()[i])@,
            lines.drop_last()[i],
        ) by {
            assert(rows.drop_last()[i] == rows[i]);
            assert(lines.drop_last()[i] == lines[i]);
            assert(line_extracted(rows[i]@, lines[i]));
        }
        lemma_lines_bytes_eq(rows.drop_last(), lines.drop_last());
        assert(line_extracted(rows[rows.len() - 1]@, lines[lines.len() - 1]));
        assert(lines.last().bytes_spec() =~= line_bytes_of(scan_runs(on_row(rows.last()@))));
    }
}

/// Runs the whole pipeline on in-memory frames: writes the header, then
/// extracts and serializes each frame in order. Frames whose dimensions all
/// match the declared resolution are always converted; any mismatch aborts
/// with a dimension-mismatch error. A frame count of zero yields the
/// seven-byte header alone.
pub fn convert(meta: &Metadata, frames: &Vec<Vec<Vec<u8>>>) -> (r: Result<Vec<u8>, BvfError>)
    requires
        frames@.len() == meta.frame_count,
    ensures
        all_dims_ok(frames@, meta.horizontal_resolution, meta.vertical_resolution) <==> r is Ok,
        r matches Ok(out) ==> out@ == bvf_stream(*meta, frames@),
        !all_dims_ok(frames@, meta.horizontal_resolution, meta.vertical_resolution) ==> r
            == Err::<Vec<u8>, BvfError>(BvfError::DimensionMismatch),
{
    let mut out = meta.bytes();
    let n: usize = frames.len();
    for i in 0..n
        invariant
            n == frames@.len(),
            out@ == bvf_stream(*meta, frames@.take(i as int)),
            forall|j: int| 0 <= j < i ==> frame_dims_ok(
                (#[trigger] frames@[j])@,
                meta.horizontal_resolution,
                meta.vertical_resolution,
            ),
    {
        match extract_frame(&frames[i], meta.horizontal_resolution, meta.vertical_resolution) {
            Ok(lines) => {
                proof {
                    assert forall|k: int| 0 <= k < lines@.len() implies (
                    #[trigger] lines@[k]).wf() by {
                        assert(line_extracted((frames@[i as int]@[k])@, lines@[k]));
                    }
                }
                let mut fb = frame_bytes(&lines);
                out.append(&mut fb);
                proof {
                    lemma_lines_bytes_eq(frames@[i as int]@, lines@);
                    let pre = frames@.take(i as int);
                    let post = frames@.take(i as int + 1);
                    assert(post.drop_last() =~= pre);
                    assert(post.last() == frames@[i as int]);
                }
            }
            Err(e) => {
                return Err(e);
            }
        }
    }
    proof {
        assert(frames@.take(frames@.len() as int) =~= frames@);
    }
    Ok(out)
}

/// Re-running the conversion on identical input and configuration yields
/// byte-identical output: the stream is a function of the metadata and the
/// frames' pixels alone.
pub proof fn lemma_convert_deterministic(
    meta: Metadata,
    frames: Seq<Vec<Vec<u8>>>,
    out1: Seq<u8>,
    out2: Seq<u8>,
)
    requires
        out1 == bvf_stream(meta, frames),
        out2 == bvf_stream(meta, frames),
    ensures
        out1 == out2,
{
}

} // verus!
