use gstoverlays::facedetlitetensordec::{
    arrange_face_tensors, cell_at, collect_centers, decode_faces, detect_faces, face_centers,
    find_face_tensors, is_arrangeable, max_pool_nms, nchw_to_nhwc, numbers_of, read_face_tensors,
    FaceCell, FacePeak, FaceShape, FaceTensorGroup, FaceTensors, Layout, Settings, Tensor,
    TensorSet, NUM_LANDMARKS,
};
use gstoverlays::scalar::Scalar;
use gstoverlays::suppress::{rank_scores, suppress_overlaps};
use gstoverlays::words::{words_in, WordsError};

const STRIDE: f32 = 8.0;

fn scalar(v: f32) -> Scalar {
    Scalar::from_bits(v.to_bits())
}

fn float(v: Scalar) -> f32 {
    f32::from_bits(v.bits)
}

fn scalars(values: &[f32]) -> Vec<Scalar> {
    values.iter().map(|v| scalar(*v)).collect()
}

fn sigmoid(v: Scalar) -> Scalar {
    scalar(1.0 / (1.0 + (-float(v)).exp()))
}

#[derive(Debug)]
struct Face {
    score: f32,
    left: f32,
    top: f32,
    right: f32,
    bottom: f32,
    landmarks: Vec<(f32, f32)>,
}

fn decode(cell: &FaceCell) -> Face {
    let (x, y) = (cell.center.column as f32, cell.center.row as f32);
    Face {
        score: float(cell.center.score),
        left: (x - float(cell.edges[0])) * STRIDE,
        top: (y - float(cell.edges[1])) * STRIDE,
        right: (x + float(cell.edges[2])) * STRIDE,
        bottom: (y + float(cell.edges[3])) * STRIDE,
        landmarks: (0..NUM_LANDMARKS)
            .map(|k| {
                (
                    (float(cell.landmark_xs[k]) + x) * STRIDE,
                    (float(cell.landmark_ys[k]) + y) * STRIDE,
                )
            })
            .collect(),
    }
}

fn iou(a: &Face, b: &Face) -> Scalar {
    let w = (a.right.min(b.right) - a.left.max(b.left)).max(0.0);
    let h = (a.bottom.min(b.bottom) - a.top.max(b.top)).max(0.0);
    let inter = w * h;
    if inter == 0.0 {
        return scalar(0.0);
    }
    let area_a = (a.right - a.left).max(0.0) * (a.bottom - a.top).max(0.0);
    let area_b = (b.right - b.left).max(0.0) * (b.bottom - b.top).max(0.0);
    scalar(inter / (area_a + area_b - inter))
}

fn tensor(values: &[f32], dims: &[usize]) -> Option<Tensor> {
    Some(Tensor {
        dims: dims.to_vec(),
        data: Some(values.iter().flat_map(|v| v.to_ne_bytes()).collect()),
    })
}

fn settings(confidence: f32) -> Settings {
    Settings {
        confidence_threshold: scalar(confidence),
        nms_iou_threshold: scalar(0.5),
        max_detections: 100,
    }
}

/// The faces in a set of tensors.
fn faces(set: TensorSet, settings: &Settings) -> Option<Vec<Face>> {
    let sets = vec![set];
    let (index, shape) = find_face_tensors(&sets)?;
    let group = match shape.layout {
        Layout::ChannelsLast => sets[index].channels_last.as_ref(),
        Layout::ChannelsFirst => sets[index].channels_first.as_ref(),
    };
    let tensors = read_face_tensors(group?, shape)?;
    let found = detect_faces(&tensors, settings, &sigmoid, &decode, &iou);
    let mut candidates: Vec<Option<Face>> = found.candidates.into_iter().map(Some).collect();
    Some(
        found
            .chosen
            .iter()
            .map(|i| candidates[*i].take().unwrap())
            .collect(),
    )
}

/// Tensors of the detector for a feature map with one peak. All other cells of the heatmap
/// are -10.0 (sigmoid close to 0.0). The box offsets at the peak cell give a box of
/// `box_size` squared around the cell. Landmark offsets are zero.
fn one_face(
    fm_h: usize,
    fm_w: usize,
    peak_cy: usize,
    peak_cx: usize,
    peak_logit: f32,
    box_size: f32,
) -> TensorSet {
    let n_cells = fm_h * fm_w;
    let mut hm = vec![-10.0f32; n_cells];
    hm[peak_cy * fm_w + peak_cx] = peak_logit;
    let half_size_fm = (box_size / 2.0) / STRIDE;
    let mut boxes = vec![0.0f32; n_cells * 4];
    let cell = peak_cy * fm_w + peak_cx;
    for edge in 0..4 {
        boxes[cell * 4 + edge] = half_size_fm;
    }
    let landmarks = vec![0.0f32; n_cells * 10];
    TensorSet {
        channels_last: Some(FaceTensorGroup {
            heatmap: tensor(&hm, &[1, fm_h, fm_w, 1]),
            boxes: tensor(&boxes, &[1, fm_h, fm_w, 4]),
            landmarks: tensor(&landmarks, &[1, fm_h, fm_w, 10]),
        }),
        channels_first: None,
    }
}

#[test]
fn max_pool_nms_suppresses_non_maxima() {
    // 3x3 heatmap, centre cell is the maximum
    let hm = scalars(&[0.1, 0.2, 0.1, 0.2, 0.9, 0.2, 0.1, 0.2, 0.1]);
    let result = max_pool_nms(&hm, 3, 3);
    // Only the centre peak (index 4) should survive
    assert!(float(result[4]) > 0.0, "centre peak must survive");
    for (i, v) in result.iter().enumerate() {
        if i != 4 {
            assert_eq!(float(*v), 0.0, "non-maximum at index {i} must be suppressed");
        }
    }
}

#[test]
fn max_pool_nms_preserves_all_equal_peaks() {
    // All cells equal: every cell is its own maximum so none are suppressed
    let hm = scalars(&[0.5f32; 9]);
    let result = max_pool_nms(&hm, 3, 3);
    for v in &result {
        assert!((float(*v) - 0.5).abs() < 1e-6);
    }
}

fn make_candidate(score: f32, left: f32, top: f32, right: f32, bottom: f32) -> Face {
    Face {
        score,
        left,
        top,
        right,
        bottom,
        landmarks: vec![(0.0, 0.0); NUM_LANDMARKS],
    }
}

#[test]
fn nms_removes_overlapping_detection() {
    let high = make_candidate(0.9, 0.0, 0.0, 100.0, 100.0);
    let low = make_candidate(0.5, 0.0, 0.0, 100.0, 100.0);
    let candidates = vec![high, low];
    let result = suppress_overlaps(&candidates, 10, scalar(0.5), &iou);
    assert_eq!(result.len(), 1);
    assert!((candidates[result[0]].score - 0.9).abs() < 1e-6);
}

#[test]
fn nms_keeps_non_overlapping_detections() {
    let a = make_candidate(0.9, 0.0, 0.0, 50.0, 50.0);
    let b = make_candidate(0.8, 200.0, 200.0, 250.0, 250.0);
    let result = suppress_overlaps(&vec![a, b], 10, scalar(0.5), &iou);
    assert_eq!(result.len(), 2);
}

#[test]
fn nms_respects_max_detections() {
    let candidates: Vec<Face> = (0..20)
        .map(|i| {
            make_candidate(
                0.9 - i as f32 * 0.01,
                i as f32 * 200.0,
                0.0,
                i as f32 * 200.0 + 100.0,
                100.0,
            )
        })
        .collect();
    let result = suppress_overlaps(&candidates, 5, scalar(0.5), &iou);
    assert_eq!(result.len(), 5);
}

#[test]
fn no_more_candidates_are_kept_than_the_limit_allows() {
    let candidates = vec![
        make_candidate(0.9, 0.0, 0.0, 10.0, 10.0),
        make_candidate(0.8, 20.0, 0.0, 30.0, 10.0),
    ];
    assert!(suppress_overlaps(&candidates, 0, scalar(0.5), &iou).is_empty());
    assert_eq!(suppress_overlaps(&candidates, 1, scalar(0.5), &iou), vec![0]);
    assert_eq!(suppress_overlaps(&candidates, 2, scalar(0.5), &iou), vec![0, 1]);
}

#[test]
fn scores_are_ranked_from_high_to_low_and_stably() {
    let scores = scalars(&[0.5, 0.9, 0.5, 0.7]);
    assert_eq!(rank_scores(&scores), vec![1, 3, 0, 2]);
}

#[test]
fn detects_single_face() {
    // A single strong peak in the centre of the 16x16 feature map:
    // sigmoid(5) is about 0.993, far above the threshold.
    let found = faces(one_face(16, 16, 8, 8, 5.0, 40.0), &settings(0.3)).unwrap();

    assert_eq!(found.len(), 1, "Expected exactly one face");

    // Cell (8,8) lies at pixel (64, 64). Box half-size = 20px.
    let face = &found[0];
    let (x, y) = (face.left as i32, face.top as i32);
    let (w, h) = ((face.right - face.left) as i32, (face.bottom - face.top) as i32);
    assert!(x >= 40 && x <= 50, "Unexpected x={x}");
    assert!(y >= 40 && y <= 50, "Unexpected y={y}");
    assert!(w >= 35 && w <= 45, "Unexpected w={w}");
    assert!(h >= 35 && h <= 45, "Unexpected h={h}");
    assert_eq!(face.landmarks.len(), 5, "Expected 5 facial landmark keypoints");
    assert_eq!(face.landmarks[0], (64.0, 64.0));
}

#[test]
fn no_detection_below_threshold() {
    // sigmoid(1.0) is about 0.73, below the threshold
    let found = faces(one_face(16, 16, 4, 4, 1.0, 40.0), &settings(0.9)).unwrap();
    assert!(found.is_empty(), "No faces expected when score is below threshold");
}

#[test]
fn nms_suppresses_duplicate_faces() {
    let fm_h = 16usize;
    let fm_w = 16usize;
    let n_cells = fm_h * fm_w;

    // Two adjacent peaks at (8,8) and (8,9): they produce heavily overlapping boxes
    let peak_logit = 5.0f32;
    let mut hm = vec![-10.0f32; n_cells];
    hm[8 * fm_w + 8] = peak_logit;
    hm[8 * fm_w + 9] = peak_logit - 0.1; // slightly lower so first one wins

    let half_size_fm = (64.0f32 / 2.0) / 8.0; // big boxes overlap
    let mut boxes = vec![0.0f32; n_cells * 4];
    for &cell in &[8 * fm_w + 8, 8 * fm_w + 9] {
        for edge in 0..4 {
            boxes[cell * 4 + edge] = half_size_fm;
        }
    }
    let landmarks = vec![0.0f32; n_cells * 10];
    let set = TensorSet {
        channels_last: Some(FaceTensorGroup {
            heatmap: tensor(&hm, &[1, fm_h, fm_w, 1]),
            boxes: tensor(&boxes, &[1, fm_h, fm_w, 4]),
            landmarks: tensor(&landmarks, &[1, fm_h, fm_w, 10]),
        }),
        channels_first: None,
    };

    let count = faces(set, &settings(0.3)).unwrap().len();
    assert_eq!(count, 1, "NMS should suppress the duplicate detection, got {count}");
}

#[test]
fn v2_variant_detection() {
    let fm_h = 16usize;
    let fm_w = 16usize;
    let n_cells = fm_h * fm_w;

    // Channels first. Heatmap: [1, 1, fm_h, fm_w]
    let cell = 8 * fm_w + 8;
    let mut hm = vec![-10.0f32; n_cells];
    hm[cell] = 5.0;

    let half_size_fm = (40.0f32 / 2.0) / STRIDE;

    // Boxes: [1, 4, fm_h, fm_w]. Each channel is a full feature map.
    let mut boxes = vec![0.0f32; 4 * n_cells];
    for edge in 0..4 {
        boxes[edge * n_cells + cell] = half_size_fm;
    }

    // Landmarks: [1, 10, fm_h, fm_w]. Zero offsets: landmarks at cell centre.
    let landmarks = vec![0.0f32; 10 * n_cells];

    let set = TensorSet {
        channels_last: None,
        channels_first: Some(FaceTensorGroup {
            heatmap: tensor(&hm, &[1, 1, fm_h, fm_w]),
            boxes: tensor(&boxes, &[1, 4, fm_h, fm_w]),
            landmarks: tensor(&landmarks, &[1, 10, fm_h, fm_w]),
        }),
    };

    let found = faces(set, &settings(0.3)).unwrap();
    assert_eq!(found.len(), 1, "Expected exactly one face from v2 variant");

    let (x, y) = (found[0].left as i32, found[0].top as i32);
    assert!(x >= 40 && x <= 50, "Unexpected x={x}");
    assert!(y >= 40 && y <= 50, "Unexpected y={y}");
    assert_eq!(found[0].landmarks.len(), 5, "Expected 5 facial landmark keypoints");
}

#[test]
fn tensors_of_another_shape_are_not_taken() {
    let mut set = one_face(4, 4, 1, 1, 5.0, 8.0);
    if let Some(group) = &mut set.channels_last {
        group.boxes = tensor(&[0.0; 48], &[1, 4, 4, 3]);
    }
    assert!(find_face_tensors(&vec![set]).is_none());
    assert!(find_face_tensors(&Vec::new()).is_none());
}

#[test]
fn transposing_moves_every_value() {
    // Two channels of three cells each.
    let values = scalars(&[1.0, 2.0, 3.0, 10.0, 20.0, 30.0]);
    assert_eq!(
        nchw_to_nhwc(&values, 2, 1, 3),
        scalars(&[1.0, 10.0, 2.0, 20.0, 3.0, 30.0])
    );
}

#[test]
fn channels_last_tensors_are_taken_as_they_are() {
    let shape = FaceShape { layout: Layout::ChannelsLast, rows: 1, columns: 1 };
    let boxes = scalars(&[1.0, 2.0, 3.0, 4.0]);
    let landmarks = scalars(&[0.0, 1.0, 2.0, 3.0, 4.0, 5.0, 6.0, 7.0, 8.0, 9.0]);
    let tensors: FaceTensors =
        arrange_face_tensors(scalars(&[0.5]), boxes.clone(), landmarks.clone(), shape);
    assert_eq!(tensors.boxes, boxes);
    let cell = cell_at(&tensors, FacePeak { row: 0, column: 0, score: scalar(0.5) });
    assert_eq!(cell.edges, boxes);
    assert_eq!(cell.landmark_xs, scalars(&[0.0, 1.0, 2.0, 3.0, 4.0]));
    assert_eq!(cell.landmark_ys, scalars(&[5.0, 6.0, 7.0, 8.0, 9.0]));
}

#[test]
fn centers_are_the_cells_that_reach_the_threshold() {
    let scores = scalars(&[0.1, 0.5, 0.4, 0.9]);
    assert_eq!(
        collect_centers(&scores, 2, scalar(0.5)),
        vec![
            FacePeak { row: 0, column: 1, score: scalar(0.5) },
            FacePeak { row: 1, column: 1, score: scalar(0.9) },
        ]
    );
}

#[test]
fn words_are_read_from_bytes() {
    let words = [1u32, 0x8000_0001, u32::MAX];
    let bytes: Vec<u8> = words.iter().flat_map(|w| w.to_ne_bytes()).collect();
    assert_eq!(words_in(&bytes), Ok(words.to_vec()));
    assert_eq!(words_in(&[]), Ok(Vec::new()));
    assert_eq!(words_in(&bytes[..6]), Err(WordsError::Length));
    // One byte further nothing is aligned.
    assert_eq!(words_in(&bytes[1..5]), Err(WordsError::Alignment));
    assert_eq!(numbers_of(&vec![1.5f32.to_bits()]), vec![scalar(1.5)]);
}

#[test]
fn face_settings_have_their_documented_defaults() {
    let settings = Settings::default();
    assert_eq!(settings.confidence_threshold, scalar(0.30));
    assert_eq!(settings.nms_iou_threshold, scalar(0.50));
    assert_eq!(settings.max_detections, 100);
}

#[test]
fn what_is_left_out_overlaps_a_better_candidate() {
    let candidates = vec![
        make_candidate(0.9, 0.0, 0.0, 10.0, 10.0),
        make_candidate(0.8, 1.0, 0.0, 11.0, 10.0),
        make_candidate(0.7, 20.0, 0.0, 30.0, 10.0),
        make_candidate(0.6, 20.0, 1.0, 30.0, 11.0),
    ];
    let chosen = suppress_overlaps(&candidates, 10, scalar(0.5), &iou);
    assert_eq!(chosen, vec![0, 2]);
    assert!(float(iou(&candidates[1], &candidates[0])) > 0.5);
    assert!(float(iou(&candidates[3], &candidates[2])) > 0.5);
}

#[test]
fn a_detector_without_a_limit_to_fill_finds_nothing() {
    let mut none = settings(0.3);
    none.max_detections = 0;
    let found = faces(one_face(16, 16, 8, 8, 5.0, 40.0), &none).unwrap();
    assert!(found.is_empty());
}

#[test]
fn short_tensors_matter_only_where_they_are_read() {
    // Two cells, of which the first is a center; boxes and landmarks for the first one only.
    let tensors = FaceTensors {
        heatmap: scalars(&[5.0, -5.0]),
        boxes: scalars(&[1.0; 4]),
        landmarks: scalars(&[0.0; 10]),
        rows: 1,
        columns: 2,
    };
    assert!(tensors.is_mapped());
    let settings = settings(0.3);
    let centers = face_centers(&tensors, &settings, &sigmoid);
    assert_eq!(centers.len(), 1);
    assert!(tensors.covers_centers(&centers));
    let found = decode_faces(&tensors, &settings, &centers, &decode, &iou);
    assert_eq!(found.chosen, vec![0]);
    assert_eq!(detect_faces(&tensors, &settings, &sigmoid, &decode, &iou).chosen, vec![0]);

    let second = vec![FacePeak { row: 0, column: 1, score: scalar(0.9) }];
    assert!(!tensors.covers_centers(&second));
    let far = vec![FacePeak { row: usize::MAX, column: 1, score: scalar(0.9) }];
    assert!(!tensors.covers_centers(&far));
    assert!(tensors.covers_centers(&Vec::new()));
    assert!(!FaceTensors { rows: 2, ..tensors }.is_mapped());
}

#[test]
fn channels_first_need_numbers_for_every_cell() {
    let tensor = |bytes: usize| Some(Tensor { dims: vec![], data: Some(vec![0; bytes]) });
    let shape = |layout: Layout| FaceShape { rows: 1, columns: 2, layout };
    let group = |boxes: usize, landmarks: usize| FaceTensorGroup {
        heatmap: tensor(8),
        boxes: tensor(boxes),
        landmarks: tensor(landmarks),
    };
    assert!(is_arrangeable(&group(32, 80), shape(Layout::ChannelsFirst)));
    assert!(!is_arrangeable(&group(28, 80), shape(Layout::ChannelsFirst)));
    assert!(!is_arrangeable(&group(32, 76), shape(Layout::ChannelsFirst)));
    assert!(is_arrangeable(&group(28, 76), shape(Layout::ChannelsLast)));
    // What cannot be read is not arranged.
    assert!(is_arrangeable(&group(30, 76), shape(Layout::ChannelsFirst)));
    assert!(read_face_tensors(&group(30, 76), shape(Layout::ChannelsFirst)).is_none());
}
