use bvf_encoder::encode::{convert, frame_bytes, Metadata};
use bvf_encoder::extract::{extract_frame, line_runs};
use bvf_encoder::runs::{BvfError, Line, Vector};

const ON: u8 = 0;
const OFF: u8 = 255;

fn row(pattern: &[bool]) -> Vec<u8> {
    pattern.iter().map(|&b| if b { ON } else { OFF }).collect()
}

fn bits(s: &str) -> Vec<bool> {
    s.chars().map(|c| c == '1').collect()
}

#[test]
fn round_trip_middle_run() {
    let runs = line_runs(&row(&bits("0000111110000")));
    assert_eq!(runs, vec![Vector { start: 4, end: 8 }]);
}

#[test]
fn left_edge_run() {
    let runs = line_runs(&row(&bits("1111000")));
    assert_eq!(runs, vec![Vector { start: 0, end: 3 }]);
}

#[test]
fn right_edge_run() {
    let runs = line_runs(&row(&bits("0001111")));
    assert_eq!(runs, vec![Vector { start: 3, end: 6 }]);
}

#[test]
fn all_on_line() {
    let runs = line_runs(&row(&bits("1111111")));
    assert_eq!(runs, vec![Vector { start: 0, end: 6 }]);
}

#[test]
fn all_off_line() {
    let runs = line_runs(&row(&bits("0000000")));
    assert_eq!(runs, vec![]);
    let line = Line {
        num_vectors: runs.len(),
        vectors: runs,
    };
    assert_eq!(line.bytes(), vec![0]);
}

#[test]
fn single_pixel_run_at_last_column() {
    let runs = line_runs(&row(&bits("0001")));
    assert_eq!(runs, vec![Vector { start: 3, end: 3 }]);
}

#[test]
fn single_pixel_run_at_first_column() {
    let runs = line_runs(&row(&bits("1000")));
    assert_eq!(runs, vec![Vector { start: 0, end: 0 }]);
}

#[test]
fn width_one_line() {
    assert_eq!(line_runs(&row(&bits("1"))), vec![Vector { start: 0, end: 0 }]);
    assert_eq!(line_runs(&row(&bits("0"))), vec![]);
}

#[test]
fn empty_line() {
    assert_eq!(line_runs(&Vec::new()), vec![]);
}

#[test]
fn alternating_runs_sorted_and_nonempty() {
    let runs = line_runs(&row(&bits("1010101")));
    assert_eq!(
        runs,
        vec![
            Vector { start: 0, end: 0 },
            Vector { start: 2, end: 2 },
            Vector { start: 4, end: 4 },
            Vector { start: 6, end: 6 },
        ]
    );
    for w in runs.windows(2) {
        assert!(w[0].end < w[1].start);
    }
    for v in &runs {
        assert!(v.start <= v.end);
    }
}

#[test]
fn binarization_threshold() {
    // On means strictly below half the channel maximum: 126 is on, 127 is off.
    let runs = line_runs(&vec![126, 127]);
    assert_eq!(runs, vec![Vector { start: 0, end: 0 }]);
}

#[test]
fn vector_bytes_start_then_end() {
    let v = Vector { start: 5, end: 9 };
    assert_eq!(v.bytes(), [5, 9]);
}

#[test]
fn line_bytes_count_then_runs() {
    let line = Line {
        num_vectors: 2,
        vectors: vec![Vector { start: 1, end: 2 }, Vector { start: 4, end: 6 }],
    };
    assert_eq!(line.bytes(), vec![2, 1, 2, 4, 6]);
}

#[test]
fn line_new_accepts_short_list() {
    let line = Line::new(vec![Vector { start: 0, end: 1 }]).unwrap();
    assert_eq!(line.num_vectors, 1);
    assert_eq!(line.vectors, vec![Vector { start: 0, end: 1 }]);
}

#[test]
fn line_new_rejects_oversized_count() {
    let too_many = vec![Vector { start: 0, end: 0 }; 256];
    assert_eq!(Line::new(too_many), Err(BvfError::Range));
}

#[test]
fn metadata_bytes_little_endian() {
    let meta = Metadata {
        frame_rate: 30,
        frame_count: 0x01020304,
        horizontal_resolution: 16,
        vertical_resolution: 8,
    };
    assert_eq!(meta.bytes(), vec![30, 4, 3, 2, 1, 16, 8]);
}

#[test]
fn frame_bytes_in_scanline_order() {
    let lines = vec![
        Line {
            num_vectors: 1,
            vectors: vec![Vector { start: 0, end: 2 }],
        },
        Line {
            num_vectors: 0,
            vectors: vec![],
        },
    ];
    assert_eq!(frame_bytes(&lines), vec![1, 0, 2, 0]);
}

#[test]
fn extract_frame_accepts_matching_dimensions() {
    let frame = vec![row(&bits("0110")), row(&bits("0000"))];
    let lines = extract_frame(&frame, 4, 2).unwrap();
    assert_eq!(lines.len(), 2);
    assert_eq!(lines[0].vectors, vec![Vector { start: 1, end: 2 }]);
    assert_eq!(lines[0].num_vectors, 1);
    assert_eq!(lines[1].vectors, vec![]);
    assert_eq!(lines[1].num_vectors, 0);
}

#[test]
fn extract_frame_rejects_wrong_height() {
    let frame = vec![row(&bits("0110"))];
    assert_eq!(extract_frame(&frame, 4, 2), Err(BvfError::DimensionMismatch));
}

#[test]
fn extract_frame_rejects_wrong_width() {
    let frame = vec![row(&bits("0110")), row(&bits("011"))];
    assert_eq!(extract_frame(&frame, 4, 2), Err(BvfError::DimensionMismatch));
}

#[test]
fn end_to_end_stream() {
    let meta = Metadata {
        frame_rate: 24,
        frame_count: 1,
        horizontal_resolution: 4,
        vertical_resolution: 1,
    };
    let frames = vec![vec![row(&bits("0110"))]];
    let out = convert(&meta, &frames).unwrap();
    assert_eq!(out, vec![24, 1, 0, 0, 0, 4, 1, 1, 1, 2]);
}

#[test]
fn zero_frames_is_header_only() {
    let meta = Metadata {
        frame_rate: 24,
        frame_count: 0,
        horizontal_resolution: 4,
        vertical_resolution: 1,
    };
    let out = convert(&meta, &Vec::new()).unwrap();
    assert_eq!(out.len(), 7);
    assert_eq!(out, vec![24, 0, 0, 0, 0, 4, 1]);
}

#[test]
fn convert_is_idempotent() {
    let meta = Metadata {
        frame_rate: 10,
        frame_count: 2,
        horizontal_resolution: 7,
        vertical_resolution: 2,
    };
    let frames = vec![
        vec![row(&bits("1111000")), row(&bits("0001111"))],
        vec![row(&bits("1010101")), row(&bits("0000000"))],
    ];
    let first = convert(&meta, &frames).unwrap();
    let second = convert(&meta, &frames).unwrap();
    assert_eq!(first, second);
}

#[test]
fn convert_rejects_mismatched_frame() {
    let meta = Metadata {
        frame_rate: 10,
        frame_count: 2,
        horizontal_resolution: 4,
        vertical_resolution: 1,
    };
    let frames = vec![vec![row(&bits("0110"))], vec![row(&bits("011"))]];
    assert_eq!(convert(&meta, &frames), Err(BvfError::DimensionMismatch));
}
