use gstoverlays::handlandmarktensordec::{
    collect_hands, decode_landmark_hands, dims_fit, extract_hands, extract_keypoint_confidence,
    hand_keypoints, hand_layout, hand_reach, landmark_tensor, normalize_landmark_axis,
    read_landmark_tensor, select_hands, HandBox, HandData, HandKeypoint, HandLayout,
    LandmarkTensor, Limits, HAND_LANDMARKS_TENSOR_ID, HAND_ROTATION_TENSOR_ID,
    HAND_SCORE_TENSOR_ID,
};
use gstoverlays::scalar::Scalar;
use gstoverlays::words::WordsError;

fn scalar(v: f32) -> Scalar {
    Scalar::from_bits(v.to_bits())
}

fn float(v: Scalar) -> f32 {
    f32::from_bits(v.bits)
}

fn times(value: Scalar, size: i32) -> Scalar {
    scalar(float(value) * size as f32)
}

fn pad(reach: HandBox) -> HandBox {
    reach
}

fn turn(_landmarks: &Vec<Scalar>, _stride: usize) -> Option<Scalar> {
    None
}

fn iou(a: &HandData, b: &HandData) -> Scalar {
    let w = (float(a.bbox.max_x).min(float(b.bbox.max_x))
        - float(a.bbox.min_x).max(float(b.bbox.min_x)))
    .max(0.0);
    let h = (float(a.bbox.max_y).min(float(b.bbox.max_y))
        - float(a.bbox.min_y).max(float(b.bbox.min_y)))
    .max(0.0);
    let area = |hand: &HandData| {
        (float(hand.bbox.max_x) - float(hand.bbox.min_x))
            * (float(hand.bbox.max_y) - float(hand.bbox.min_y))
    };
    scalar(w * h / (area(a) + area(b) - w * h))
}

/// A hand of 21 keypoints on a diagonal from (x, y), two numbers each.
fn landmarks(x: f32, y: f32) -> Vec<Scalar> {
    (0..21)
        .flat_map(|k| [scalar(x + k as f32), scalar(y + k as f32)])
        .collect()
}

fn hand(confidence: f32, x: f32, y: f32) -> HandData {
    let landmarks = landmarks(x, y);
    let bbox = hand_reach(&landmarks, 2, None, &times).unwrap();
    HandData {
        confidence: scalar(confidence),
        rotation: scalar(0.0),
        bbox,
        landmarks,
        stride: 2,
    }
}

#[test]
fn layouts_of_landmark_tensors() {
    let layout = |dims: &[usize]| hand_layout(&dims.to_vec());
    assert_eq!(layout(&[1, 2, 21, 3]), Some(HandLayout { hands: 2, stride: 3 }));
    assert_eq!(layout(&[4, 21, 2]), Some(HandLayout { hands: 4, stride: 2 }));
    assert_eq!(layout(&[21, 3, 1]), Some(HandLayout { hands: 1, stride: 3 }));
    assert_eq!(layout(&[5, 63]), Some(HandLayout { hands: 5, stride: 3 }));
    assert_eq!(layout(&[21, 2]), Some(HandLayout { hands: 1, stride: 2 }));
    assert_eq!(layout(&[42]), Some(HandLayout { hands: 1, stride: 2 }));
    assert_eq!(layout(&[21]), None);
    assert_eq!(layout(&[3, 21]), None);
    assert_eq!(layout(&[1, 20, 3]), None);
    assert_eq!(layout(&[]), None);
}

#[test]
fn landmark_tensors_are_split_into_hands() {
    let data: Vec<Scalar> = (0..84).map(|i| scalar(i as f32)).collect();
    let (hands, stride) = decode_landmark_hands(&data, &vec![2, 42]).unwrap();
    assert_eq!(stride, 2);
    assert_eq!(hands.len(), 2);
    assert_eq!(hands[1][0], scalar(42.0));
    // Too short.
    assert!(decode_landmark_hands(&data, &vec![3, 42]).is_none());
}

#[test]
fn fractions_become_pixels() {
    assert_eq!(normalize_landmark_axis(scalar(0.5), 100, &times), scalar(50.0));
    assert_eq!(normalize_landmark_axis(scalar(1.0), 100, &times), scalar(100.0));
    assert_eq!(normalize_landmark_axis(scalar(1.5), 100, &times), scalar(1.5));
    assert_eq!(normalize_landmark_axis(scalar(-0.5), 100, &times), scalar(-0.5));
    assert_eq!(normalize_landmark_axis(scalar(0.5), 0, &times), scalar(0.5));
}

#[test]
fn a_hand_reaches_as_far_as_its_keypoints() {
    let mut points = landmarks(10.0, 20.0);
    // A keypoint without a finite coordinate does not count.
    points[0] = scalar(f32::NAN);
    let reach = hand_reach(&points, 2, Some((640, 480)), &times).unwrap();
    assert_eq!((float(reach.min_x), float(reach.max_x)), (11.0, 30.0));
    assert_eq!((float(reach.min_y), float(reach.max_y)), (21.0, 40.0));
    // Incomplete landmarks, and landmarks that are all the same.
    assert!(hand_reach(&points[..40].to_vec(), 2, None, &times).is_none());
    assert!(hand_reach(&vec![scalar(3.0); 42], 2, None, &times).is_none());
}

#[test]
fn keypoints_tell_whether_they_are_visible() {
    let mut hand = hand(0.8, 10.0, 20.0);
    let keypoints = hand_keypoints(&hand, Some((640, 480)), &times).unwrap();
    assert_eq!(keypoints.len(), 21);
    assert_eq!(
        keypoints[2],
        HandKeypoint { x: 12, y: 22, visible: true, confidence: scalar(0.8) }
    );
    assert_eq!(extract_keypoint_confidence(&hand, 2), None);

    hand.stride = 3;
    hand.landmarks = (0..63)
        .map(|i| scalar(if i % 3 == 2 { 0.5 } else { 4.0 + i as f32 }))
        .collect();
    hand.landmarks[5] = scalar(0.75);
    let keypoints = hand_keypoints(&hand, None, &times).unwrap();
    assert!(!keypoints[0].visible);
    assert!(keypoints[1].visible);
    assert_eq!(keypoints[1].confidence, scalar(0.75));
    assert_eq!(extract_keypoint_confidence(&hand, 1), Some(scalar(0.75)));
    assert_eq!(extract_keypoint_confidence(&hand, 21), None);

    hand.landmarks.truncate(10);
    assert!(hand_keypoints(&hand, None, &times).is_err());
}

fn limits(max_hands: usize) -> Limits {
    Limits {
        max_hands,
        confidence_threshold: scalar(0.5),
        nms_iou_threshold: scalar(0.3),
    }
}

#[test]
fn doubtful_hands_are_left_out() {
    let lists = vec![landmarks(0.0, 0.0), landmarks(100.0, 0.0), landmarks(200.0, 0.0)];
    let scores = Some(vec![scalar(0.9), scalar(0.4)]);
    let hands = collect_hands(&lists, 2, &scores, &None, scalar(0.5), None, &times, &pad, &turn);
    assert_eq!(hands.len(), 2);
    assert_eq!(hands[0].confidence, scalar(0.9));
    // There is no score for the third hand.
    assert_eq!(hands[1].confidence, scalar(1.0));
    assert_eq!(hands[1].rotation, scalar(0.0));
}

#[test]
fn the_best_of_overlapping_hands_is_selected() {
    let hands = vec![hand(0.6, 0.0, 0.0), hand(0.9, 1.0, 1.0), hand(0.7, 100.0, 0.0)];
    let selection = select_hands(&hands, limits(2), &iou);
    let chosen: Vec<f32> = selection
        .chosen
        .iter()
        .map(|i| float(selection.hands[*i].confidence))
        .collect();
    assert_eq!(chosen, vec![0.9, 0.7]);
    assert_eq!(select_hands(&hands, limits(1), &iou).chosen.len(), 1);
}

#[test]
fn hands_are_found_in_a_tensor() {
    let mut data = landmarks(0.0, 0.0);
    data.extend(landmarks(100.0, 50.0));
    let tensor = Some(LandmarkTensor { data, dims: vec![2, 21, 2] });
    let found = extract_hands(&tensor, &None, &None, limits(2), None, &times, &pad, &turn, &iou);
    assert_eq!(found.chosen.len(), 2);
    let found = extract_hands(&None, &None, &None, limits(2), None, &times, &pad, &turn, &iou);
    assert!(found.hands.is_empty());
    let odd = Some(LandmarkTensor { data: vec![scalar(0.0); 7], dims: vec![7] });
    let found = extract_hands(&odd, &None, &None, limits(2), None, &times, &pad, &turn, &iou);
    assert!(found.chosen.is_empty());
}

#[test]
fn hand_limits_have_their_documented_defaults() {
    let limits = Limits::default();
    assert_eq!(limits.max_hands, 2);
    assert_eq!(limits.confidence_threshold, scalar(0.5));
    assert_eq!(limits.nms_iou_threshold, scalar(0.2));
}

fn told_turn(_landmarks: &Vec<Scalar>, _stride: usize) -> Option<Scalar> {
    Some(scalar(0.25))
}

#[test]
fn a_given_rotation_is_used_before_the_landmarks() {
    let tensor = Some(LandmarkTensor { data: landmarks(0.0, 0.0), dims: vec![1, 42] });
    let given = Some(vec![scalar(1.5)]);
    let found =
        extract_hands(&tensor, &None, &given, limits(1), None, &times, &pad, &told_turn, &iou);
    assert_eq!(found.chosen, vec![0]);
    assert_eq!(found.hands[0].confidence, scalar(1.0));
    assert_eq!(found.hands[0].rotation, scalar(1.5));

    // Without one, or with none for this hand, the landmarks tell.
    for absent in [None, Some(Vec::new())] {
        let found =
            extract_hands(&tensor, &None, &absent, limits(1), None, &times, &pad, &told_turn, &iou);
        assert_eq!(found.hands[0].rotation, scalar(0.25));
    }
    // The landmarks may not tell either.
    let found = extract_hands(&tensor, &None, &None, limits(1), None, &times, &pad, &turn, &iou);
    assert_eq!(found.hands[0].rotation, scalar(0.0));
}

#[test]
fn rotations_belong_to_the_hands_in_their_order() {
    let lists = vec![landmarks(0.0, 0.0), landmarks(100.0, 0.0), landmarks(200.0, 0.0)];
    let scores = Some(vec![scalar(0.9), scalar(0.4), scalar(0.8)]);
    let given = Some(vec![scalar(1.0), scalar(2.0), scalar(3.0)]);
    let hands =
        collect_hands(&lists, 2, &scores, &given, scalar(0.5), None, &times, &pad, &told_turn);
    let rotations: Vec<f32> = hands.iter().map(|hand| float(hand.rotation)).collect();
    assert_eq!(rotations, vec![1.0, 3.0]);
}

#[test]
fn landmark_tensors_are_read_from_bytes() {
    // Numbers lie at an address for words, so their bytes can be read as such.
    let values: Vec<u32> = landmarks(0.0, 5.0).iter().map(|v| v.bits).collect();
    let bytes: Vec<u8> = values.iter().flat_map(|v| v.to_ne_bytes()).collect();
    let tensor = read_landmark_tensor(&bytes, &[1, 42]).unwrap();
    assert_eq!(tensor.data, landmarks(0.0, 5.0));
    assert_eq!(tensor.dims, vec![1, 42]);
    assert!(matches!(read_landmark_tensor(&bytes[..7], &[1]), Err(WordsError::Length)));
    assert!(read_landmark_tensor(&[], &[0, 42]).unwrap().data.is_empty());

    let tensor = landmark_tensor(&values, &[1, 42]);
    assert_eq!(tensor.data, landmarks(0.0, 5.0));
    assert_eq!(tensor.dims, vec![1, 42]);
}

#[test]
fn sizes_that_cannot_be_computed_are_told() {
    for dims in [vec![], vec![7], vec![42], vec![2, 42], vec![21, 2], vec![21, 3, 1], vec![1, 2, 21, 3]] {
        assert!(dims_fit(&dims));
    }
    assert!(!dims_fit(&vec![usize::MAX, 42]));
    assert!(!dims_fit(&vec![usize::MAX, 21, 2]));
    assert!(!dims_fit(&vec![usize::MAX, 2, 21, 2]));
    assert!(!dims_fit(&vec![1, 1, 21, usize::MAX]));
    assert!(dims_fit(&vec![usize::MAX, 5]));
}

#[test]
fn hand_tensors_have_their_documented_names() {
    assert_eq!(HAND_LANDMARKS_TENSOR_ID, "hand_landmarks");
    assert_eq!(HAND_SCORE_TENSOR_ID, "hand_score");
    assert_eq!(HAND_ROTATION_TENSOR_ID, "hand_rotation");
}
