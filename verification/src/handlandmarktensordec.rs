//! Decoding hand landmarks: lists of 21 keypoints for each hand.

use vstd::prelude::*;

use crate::facedetlitetensordec::numbers_of;
use crate::scalar::Scalar;
use crate::suppress::{rank_scores, suppress_overlaps};
use crate::words::{words_in, WordsError};

verus! {

pub const HAND_KEYPOINT_COUNT: usize = 21;

pub const HAND_CLASS_LABEL: &'static str = "hand";

pub const HAND_LANDMARKS_TENSOR_ID: &'static str = "hand_landmarks";

pub const HAND_SCORE_TENSOR_ID: &'static str = "hand_score";

pub const HAND_ROTATION_TENSOR_ID: &'static str = "hand_rotation";

/// What a landmark tensor holds: how many hands, and how many numbers for each keypoint.
#[derive(Debug, Clone, Copy, PartialEq, Eq, Structural)]
pub struct HandLayout {
    pub hands: usize,
    pub stride: usize,
}

/// The layout that a tensor's dimensions stand for: batches of hands of keypoints, hands of
/// keypoints, the keypoints of one hand, hands of flattened keypoints, or the flattened
/// keypoints of one hand. A keypoint has at least two numbers.
pub open spec fn layout_of(dims: Seq<usize>) -> Option<(int, int)> {
    if dims.len() == 4 && dims[2] == 21 && dims[3] >= 2 {
        Some((dims[0] * dims[1], dims[3] as int))
    } else if dims.len() == 3 && dims[1] == 21 && dims[2] >= 2 {
        Some((dims[0] as int, dims[2] as int))
    } else if dims.len() == 3 && dims[0] == 21 && dims[1] >= 2 && dims[2] == 1 {
        Some((1, dims[1] as int))
    } else if dims.len() == 2 && dims[1] % 21 == 0 {
        if dims[1] / 21 < 2 {
            None
        } else {
            Some((dims[0] as int, (dims[1] / 21) as int))
        }
    } else if dims.len() == 2 && dims[0] == 21 && dims[1] >= 2 {
        Some((1, dims[1] as int))
    } else if dims.len() == 1 && dims[0] % 21 == 0 {
        if dims[0] / 21 < 2 {
            None
        } else {
            Some((1, (dims[0] / 21) as int))
        }
    } else {
        None
    }
}

/// The tensor's size can be computed.
pub open spec fn layout_fits(dims: Seq<usize>) -> bool {
    layout_of(dims) matches Some((hands, stride)) ==> {
        &&& hands <= usize::MAX
        &&& 21 * stride <= usize::MAX
        &&& hands * (21 * stride) <= usize::MAX
    }
}

/// Whether that many hands have a size that can be computed.
fn hands_fit(hands: usize, stride: usize) -> (r: bool)
    ensures
        r == (21 * stride <= usize::MAX && hands * (21 * stride) <= usize::MAX),
{
    match HAND_KEYPOINT_COUNT.checked_mul(stride) {
        Some(len) => match hands.checked_mul(len) {
            Some(_) => true,
            None => false,
        },
        None => false,
    }
}

/// Whether the tensor's size can be computed.
pub fn dims_fit(dims: &Vec<usize>) -> (r: bool)
    ensures
        r == layout_fits(dims@),
{
    if dims.len() == 4 {
        if dims[2] == HAND_KEYPOINT_COUNT && dims[3] >= 2 {
            return match dims[0].checked_mul(dims[1]) {
                Some(hands) => hands_fit(hands, dims[3]),
                None => false,
            };
        }
        return true;
    }
    if dims.len() == 3 {
        if dims[1] == HAND_KEYPOINT_COUNT && dims[2] >= 2 {
            return hands_fit(dims[0], dims[2]);
        }
        return !(dims[0] == HAND_KEYPOINT_COUNT && dims[1] >= 2 && dims[2] == 1) || hands_fit(
            1,
            dims[1],
        );
    }
    if dims.len() == 2 {
        if dims[1] % HAND_KEYPOINT_COUNT == 0 {
            let stride: usize = dims[1] / HAND_KEYPOINT_COUNT;
            return stride < 2 || hands_fit(dims[0], stride);
        }
        return !(dims[0] == HAND_KEYPOINT_COUNT && dims[1] >= 2) || hands_fit(1, dims[1]);
    }
    if dims.len() == 1 && dims[0] % HAND_KEYPOINT_COUNT == 0 {
        let stride: usize = dims[0] / HAND_KEYPOINT_COUNT;
        return stride < 2 || hands_fit(1, stride);
    }
    true
}

/// The layout that a tensor's dimensions stand for.
pub fn hand_layout(dims: &Vec<usize>) -> (r: Option<HandLayout>)
    requires
        layout_fits(dims@),
    ensures
        (r is Some) == (layout_of(dims@) is Some),
        r matches Some(layout) ==> layout_of(dims@) == Some(
            (layout.hands as int, layout.stride as int),
        ),
{
    if dims.len() == 4 {
        if dims[2] == HAND_KEYPOINT_COUNT && dims[3] >= 2 {
            assert(0 <= dims@[0] * dims@[1]) by (nonlinear_arith)
                requires
                    0 <= dims@[0],
                    0 <= dims@[1],
            ;
            return Some(HandLayout { hands: dims[0] * dims[1], stride: dims[3] });
        }
        return None;
    }
    if dims.len() == 3 {
        if dims[1] == HAND_KEYPOINT_COUNT && dims[2] >= 2 {
            return Some(HandLayout { hands: dims[0], stride: dims[2] });
        }
        if dims[0] == HAND_KEYPOINT_COUNT && dims[1] >= 2 && dims[2] == 1 {
            return Some(HandLayout { hands: 1, stride: dims[1] });
        }
        return None;
    }
    if dims.len() == 2 {
        if dims[1] % HAND_KEYPOINT_COUNT == 0 {
            let stride: usize = dims[1] / HAND_KEYPOINT_COUNT;
            if stride < 2 {
                return None;
            }
            return Some(HandLayout { hands: dims[0], stride });
        }
        if dims[0] == HAND_KEYPOINT_COUNT && dims[1] >= 2 {
            return Some(HandLayout { hands: 1, stride: dims[1] });
        }
        return None;
    }
    if dims.len() == 1 {
        if dims[0] % HAND_KEYPOINT_COUNT == 0 {
            let stride: usize = dims[0] / HAND_KEYPOINT_COUNT;
            if stride < 2 {
                return None;
            }
            return Some(HandLayout { hands: 1, stride });
        }
        return None;
    }
    None
}

/// The numbers of the `k`-th hand.
pub open spec fn hand_part(data: Seq<Scalar>, stride: int, k: int) -> Seq<Scalar> {
    data.subrange(k * (21 * stride), k * (21 * stride) + 21 * stride)
}

/// Split a landmark tensor into its hands. `None` where the dimensions stand for no layout,
/// or the data is too short for it.
pub fn decode_landmark_hands(
    data: &Vec<Scalar>,
    dims: &Vec<usize>,
) -> (r: Option<(Vec<Vec<Scalar>>, usize)>)
    requires
        layout_fits(dims@),
    ensures
        (r is Some) == (layout_of(dims@) matches Some((hands, stride)) && hands * (21 * stride)
            <= data@.len()),
        r matches Some((hands, stride)) ==> {
            &&& layout_of(dims@) == Some((hands@.len() as int, stride as int))
            &&& 2 <= stride
            &&& forall|k: int|
                0 <= k < hands@.len() ==> (#[trigger] hands@[k])@ == hand_part(
                    data@,
                    stride as int,
                    k,
                )
        },
{
    let layout = match hand_layout(dims) {
        Some(layout) => layout,
        None => {
            return None;
        },
    };
    let stride: usize = layout.stride;
    let hand_len: usize = HAND_KEYPOINT_COUNT * stride;
    let ghost total: int = layout.hands * (21 * stride);
    if data.len() < layout.hands * hand_len {
        return None;
    }
    let mut hands: Vec<Vec<Scalar>> = Vec::new();
    let mut k: usize = 0;
    while k < layout.hands
        invariant
            k <= layout.hands,
            k == hands@.len(),
            hand_len == 21 * stride,
            layout.hands * hand_len <= data.len(),
            forall|j: int|
                0 <= j < k ==> (#[trigger] hands@[j])@ == hand_part(data@, stride as int, j),
        decreases layout.hands - k,
    {
        let n: usize = layout.hands;
        assert(0 <= k * hand_len && k * hand_len + hand_len <= n * hand_len) by (nonlinear_arith)
            requires
                0 <= k,
                k + 1 <= n,
                0 <= hand_len,
        ;
        let start: usize = k * hand_len;
        let mut hand: Vec<Scalar> = Vec::new();
        let mut i: usize = 0;
        while i < hand_len
            invariant
                i <= hand_len,
                start + hand_len <= data.len(),
                hand@ == data@.subrange(start as int, start + i),
            decreases hand_len - i,
        {
            hand.push(data[start + i]);
            assert(hand@ =~= data@.subrange(start as int, start + i + 1));
            i = i + 1;
        }
        hands.push(hand);
        k = k + 1;
    }
    Some((hands, stride))
}

/// The number one half.
pub open spec fn one_half() -> Scalar {
    Scalar { bits: 0x3f00_0000 }
}

/// A landmark's coordinate counts as a fraction of the frame: it lies between zero and one,
/// and the frame has a size.
pub open spec fn is_fraction(value: Scalar, size: int) -> bool {
    size > 0 && value.at_or_above(Scalar::of_int(0)) && Scalar::of_int(1).at_or_above(value)
}

/// A landmark's coordinate in pixels: a fraction is multiplied with the frame's size.
pub open spec fn in_pixels<M: Fn(Scalar, i32) -> Scalar>(
    times: M,
    value: Scalar,
    size: i32,
    pixels: Scalar,
) -> bool {
    if is_fraction(value, size as int) {
        times.ensures((value, size), pixels)
    } else {
        pixels == value
    }
}

/// A landmark's coordinate in pixels: a fraction is multiplied with the frame's size.
pub fn normalize_landmark_axis<M: Fn(Scalar, i32) -> Scalar>(
    value: Scalar,
    size: i32,
    times: &M,
) -> (r: Scalar)
    requires
        times.requires((value, size)),
    ensures
        in_pixels(*times, value, size, r),
{
    if size > 0 && value.reaches(Scalar::from_i32(0)) && Scalar::from_i32(1).reaches(value) {
        times(value, size)
    } else {
        value
    }
}

/// A keypoint has finite coordinates.
pub open spec fn is_point(landmarks: Seq<Scalar>, stride: int, k: int) -> bool {
    landmarks[k * stride].is_finite() && landmarks[k * stride + 1].is_finite()
}

/// The keypoints among the first `n` that have finite coordinates.
pub open spec fn finite_points(landmarks: Seq<Scalar>, stride: int, n: int) -> Seq<int>
    decreases n,
{
    if n <= 0 {
        Seq::empty()
    } else {
        let before = finite_points(landmarks, stride, n - 1);
        if is_point(landmarks, stride, n - 1) {
            before.push(n - 1)
        } else {
            before
        }
    }
}

/// The landmarks hold all keypoints.
pub open spec fn is_hand(landmarks: Seq<Scalar>, stride: int) -> bool {
    stride >= 2 && landmarks.len() >= 21 * stride
}

/// The coordinates in pixels of the finite keypoints among the first `n`.
pub open spec fn measured<M: Fn(Scalar, i32) -> Scalar>(
    times: M,
    landmarks: Seq<Scalar>,
    stride: int,
    n: int,
    size: (i32, i32),
    xs: Seq<Scalar>,
    ys: Seq<Scalar>,
) -> bool {
    let points = finite_points(landmarks, stride, n);
    &&& xs.len() == points.len()
    &&& ys.len() == points.len()
    &&& forall|i: int|
        0 <= i < points.len() ==> in_pixels(
            times,
            landmarks[points[i] * stride],
            size.0,
            #[trigger] xs[i],
        )
    &&& forall|i: int|
        0 <= i < points.len() ==> in_pixels(
            times,
            landmarks[points[i] * stride + 1],
            size.1,
            #[trigger] ys[i],
        )
}

/// `lo` is a least and `hi` a greatest of the values, and they differ.
pub open spec fn spans(values: Seq<Scalar>, lo: Scalar, hi: Scalar) -> bool {
    &&& values.contains(lo)
    &&& values.contains(hi)
    &&& forall|i: int|
        0 <= i < values.len() ==> !(#[trigger] values[i]).below(lo) && !hi.below(values[i])
    &&& lo.below(hi)
}

/// No two of the values differ.
pub open spec fn flat(values: Seq<Scalar>) -> bool {
    forall|i: int, j: int|
        0 <= i < values.len() && 0 <= j < values.len() ==> !(#[trigger] values[i]).below(
            #[trigger] values[j],
        )
}

/// The least and the greatest of the values, if they differ.
fn extent_of(values: &Vec<Scalar>) -> (r: Option<(Scalar, Scalar)>)
    ensures
        r matches Some((lo, hi)) ==> spans(values@, lo, hi),
        r is None ==> flat(values@),
{
    let mut found: Option<(Scalar, Scalar)> = None;
    let mut i: usize = 0;
    while i < values.len()
        invariant
            i <= values.len(),
            found is None ==> forall|k: int| 0 <= k < i ==> (#[trigger] values@[k]).is_nan(),
            found matches Some((lo, hi)) ==> {
                &&& !lo.is_nan() && !hi.is_nan()
                &&& values@.take(i as int).contains(lo)
                &&& values@.take(i as int).contains(hi)
                &&& forall|k: int|
                    0 <= k < i ==> !(#[trigger] values@[k]).below(lo) && !hi.below(values@[k])
            },
        decreases values.len() - i,
    {
        let v = values[i];
        let ghost before = values@.take(i as int);
        let ghost after = values@.take(i + 1);
        assert(after =~= before.push(v));
        assert(after[i as int] == v);
        let ghost earlier = found;
        if !v.not_a_number() {
            match found {
                Some((lo, hi)) => {
                    let least = if v.less_than(lo) {
                        v
                    } else {
                        lo
                    };
                    let greatest = if hi.less_than(v) {
                        v
                    } else {
                        hi
                    };
                    found = Some((least, greatest));
                },
                None => {
                    found = Some((v, v));
                },
            }
        }
        proof {
            if let Some((lo, hi)) = earlier {
                let a = choose|a: int| 0 <= a < before.len() && before[a] == lo;
                let b = choose|b: int| 0 <= b < before.len() && before[b] == hi;
                assert(after[a] == lo && after[b] == hi);
            }
        }
        i = i + 1;
    }
    assert(values@.take(i as int) =~= values@);
    match found {
        Some((lo, hi)) => {
            if lo.less_than(hi) {
                Some((lo, hi))
            } else {
                None
            }
        },
        None => None,
    }
}

/// How far a hand's keypoints reach, in pixels.
#[derive(Debug, Clone, Copy, PartialEq, Eq, Structural)]
pub struct HandBox {
    pub min_x: Scalar,
    pub min_y: Scalar,
    pub max_x: Scalar,
    pub max_y: Scalar,
}

/// What is known of a hand's reach: none, if its keypoints do not differ on some axis.
pub open spec fn is_reach<M: Fn(Scalar, i32) -> Scalar>(
    times: M,
    landmarks: Seq<Scalar>,
    stride: int,
    size: (i32, i32),
    reach: Option<HandBox>,
) -> bool {
    exists|xs: Seq<Scalar>, ys: Seq<Scalar>|
        #[trigger] measured(times, landmarks, stride, 21, size, xs, ys) && match reach {
            Some(reach) => spans(xs, reach.min_x, reach.max_x) && spans(
                ys,
                reach.min_y,
                reach.max_y,
            ),
            None => flat(xs) || flat(ys),
        }
}

/// The frame's size; zero, if it is not known.
pub open spec fn known_size(video_size: Option<(i32, i32)>) -> (i32, i32) {
    match video_size {
        Some(size) => size,
        None => (0, 0),
    }
}

/// How far a hand's finite keypoints reach, in pixels. `None` where the landmarks are
/// incomplete or do not differ on some axis.
pub fn hand_reach<M: Fn(Scalar, i32) -> Scalar>(
    landmarks: &Vec<Scalar>,
    stride: usize,
    video_size: Option<(i32, i32)>,
    times: &M,
) -> (r: Option<HandBox>)
    requires
        21 * stride <= usize::MAX,
        forall|value: Scalar, size: i32| times.requires((value, size)),
    ensures
        !is_hand(landmarks@, stride as int) ==> r is None,
        is_hand(landmarks@, stride as int) ==> is_reach(
            *times,
            landmarks@,
            stride as int,
            known_size(video_size),
            r,
        ),
{
    if stride < 2 || landmarks.len() < HAND_KEYPOINT_COUNT * stride {
        return None;
    }
    let (frame_width, frame_height) = match video_size {
        Some((w, h)) => (w, h),
        None => (0, 0),
    };
    let ghost size = known_size(video_size);
    let mut xs: Vec<Scalar> = Vec::new();
    let mut ys: Vec<Scalar> = Vec::new();
    let mut k: usize = 0;
    while k < HAND_KEYPOINT_COUNT
        invariant
            k <= 21,
            is_hand(landmarks@, stride as int),
            21 * stride <= landmarks.len(),
            size == (frame_width, frame_height),
            forall|value: Scalar, size: i32| times.requires((value, size)),
            measured(*times, landmarks@, stride as int, k as int, size, xs@, ys@),
        decreases 21 - k,
    {
        assert(0 <= k * stride && k * stride + 1 < 21 * stride) by (nonlinear_arith)
            requires
                0 <= k <= 20,
                2 <= stride,
        ;
        let x = landmarks[k * stride];
        let y = landmarks[k * stride + 1];
        if x.finite() && y.finite() {
            let ghost old_xs = xs@;
            let ghost old_ys = ys@;
            xs.push(normalize_landmark_axis(x, frame_width, times));
            ys.push(normalize_landmark_axis(y, frame_height, times));
            proof {
                let before = finite_points(landmarks@, stride as int, k as int);
                let after = finite_points(landmarks@, stride as int, k + 1);
                assert(after == before.push(k as int));
                assert forall|i: int| 0 <= i < after.len() implies in_pixels(
                    *times,
                    landmarks@[after[i] * stride],
                    size.0,
                    #[trigger] xs@[i],
                ) by {
                    if i < before.len() {
                        assert(xs@[i] == old_xs[i]);
                    }
                }
                assert forall|i: int| 0 <= i < after.len() implies in_pixels(
                    *times,
                    landmarks@[after[i] * stride + 1],
                    size.1,
                    #[trigger] ys@[i],
                ) by {
                    if i < before.len() {
                        assert(ys@[i] == old_ys[i]);
                    }
                }
            }
        }
        k = k + 1;
    }
    let r = match (extent_of(&xs), extent_of(&ys)) {
        (Some((min_x, max_x)), Some((min_y, max_y))) => Some(
            HandBox { min_x, min_y, max_x, max_y },
        ),
        _ => None,
    };
    assert(measured(*times, landmarks@, stride as int, 21, size, xs@, ys@));
    r
}

/// A hand: how sure it is, how it is turned, the box around it, and its landmarks.
#[derive(Debug)]
pub struct HandData {
    pub confidence: Scalar,
    pub rotation: Scalar,
    pub bbox: HandBox,
    pub landmarks: Vec<Scalar>,
    pub stride: usize,
}

impl HandData {
    /// The two hands are alike in everything.
    pub open spec fn same(self, other: HandData) -> bool {
        &&& self.confidence == other.confidence
        &&& self.rotation == other.rotation
        &&& self.bbox == other.bbox
        &&& self.landmarks@ == other.landmarks@
        &&& self.stride == other.stride
    }
}

impl Clone for HandData {
    fn clone(&self) -> (r: Self)
        ensures
            r.same(*self),
    {
        HandData {
            confidence: self.confidence,
            rotation: self.rotation,
            bbox: self.bbox,
            landmarks: copy_numbers(&self.landmarks),
            stride: self.stride,
        }
    }
}

fn copy_numbers(numbers: &Vec<Scalar>) -> (r: Vec<Scalar>)
    ensures
        r@ == numbers@,
{
    let mut copy: Vec<Scalar> = Vec::new();
    let mut i: usize = 0;
    while i < numbers.len()
        invariant
            i <= numbers.len(),
            copy@ == numbers@.take(i as int),
        decreases numbers.len() - i,
    {
        copy.push(numbers[i]);
        assert(copy@ =~= numbers@.take(i + 1));
        i = i + 1;
    }
    assert(numbers@.take(i as int) =~= numbers@);
    copy
}

/// The confidence in one keypoint, if the landmarks tell.
pub open spec fn keypoint_confidence(hand: HandData, k: int) -> Option<Scalar> {
    if hand.stride < 3 || k >= 21 || k * hand.stride + 2 >= hand.landmarks@.len() {
        None
    } else {
        Some(hand.landmarks@[k * hand.stride + 2])
    }
}

/// The confidence in one keypoint, if the landmarks tell.
pub fn extract_keypoint_confidence(hand: &HandData, keypoint_idx: usize) -> (r: Option<Scalar>)
    requires
        21 * hand.stride <= usize::MAX,
    ensures
        r == keypoint_confidence(*hand, keypoint_idx as int),
{
    if hand.stride < 3 || keypoint_idx >= HAND_KEYPOINT_COUNT {
        return None;
    }
    let stride: usize = hand.stride;
    assert(0 <= keypoint_idx * stride && keypoint_idx * stride + 2 <= 21 * stride)
        by (nonlinear_arith)
        requires
            0 <= keypoint_idx <= 20,
            3 <= stride,
    ;
    let at: usize = keypoint_idx * stride + 2;
    if at < hand.landmarks.len() {
        Some(hand.landmarks[at])
    } else {
        None
    }
}

/// A keypoint of a hand, in whole pixels.
#[derive(Debug, Clone, Copy, PartialEq, Eq, Structural)]
pub struct HandKeypoint {
    pub x: i32,
    pub y: i32,
    /// Whether it is visible; else it is occluded.
    pub visible: bool,
    pub confidence: Scalar,
}

/// What is told of a keypoint: its place, and whether it is visible. A keypoint is visible
/// unless the confidence in it is one half or less; without a confidence of its own it has
/// the hand's.
pub open spec fn tells<M: Fn(Scalar, i32) -> Scalar>(
    times: M,
    hand: HandData,
    size: (i32, i32),
    k: int,
    keypoint: HandKeypoint,
) -> bool {
    let own = keypoint_confidence(hand, k);
    &&& exists|x: Scalar|
        #[trigger] in_pixels(times, hand.landmarks@[k * hand.stride], size.0, x) && keypoint.x
            == x.as_i32(x.trunc())
    &&& exists|y: Scalar|
        #[trigger] in_pixels(times, hand.landmarks@[k * hand.stride + 1], size.1, y) && keypoint.y
            == y.as_i32(y.trunc())
    &&& keypoint.visible == (own matches Some(confidence) ==> one_half().below(confidence))
    &&& keypoint.confidence == match own {
        Some(confidence) => confidence,
        None => hand.confidence,
    }
}

/// The finite keypoints of a hand, in whole pixels. An error, if the landmarks are
/// incomplete.
pub fn hand_keypoints<M: Fn(Scalar, i32) -> Scalar>(
    hand: &HandData,
    video_size: Option<(i32, i32)>,
    times: &M,
) -> (r: Result<Vec<HandKeypoint>, ()>)
    requires
        21 * hand.stride <= usize::MAX,
        forall|value: Scalar, size: i32| times.requires((value, size)),
    ensures
        (r is Ok) == is_hand(hand.landmarks@, hand.stride as int),
        r matches Ok(keypoints) ==> {
            let points = finite_points(hand.landmarks@, hand.stride as int, 21);
            &&& keypoints@.len() == points.len()
            &&& forall|i: int|
                0 <= i < points.len() ==> tells(
                    *times,
                    *hand,
                    known_size(video_size),
                    points[i],
                    #[trigger] keypoints@[i],
                )
        },
{
    let stride: usize = hand.stride;
    if stride < 2 || hand.landmarks.len() < HAND_KEYPOINT_COUNT * stride {
        return Err(());
    }
    let (frame_width, frame_height) = match video_size {
        Some((w, h)) => (w, h),
        None => (0, 0),
    };
    let ghost size = known_size(video_size);
    let mut keypoints: Vec<HandKeypoint> = Vec::new();
    let mut k: usize = 0;
    while k < HAND_KEYPOINT_COUNT
        invariant
            k <= 21,
            stride == hand.stride,
            is_hand(hand.landmarks@, stride as int),
            21 * stride <= hand.landmarks.len(),
            size == (frame_width, frame_height),
            forall|value: Scalar, size: i32| times.requires((value, size)),
            keypoints@.len() == finite_points(hand.landmarks@, stride as int, k as int).len(),
            forall|i: int|
                0 <= i < keypoints@.len() ==> tells(
                    *times,
                    *hand,
                    size,
                    finite_points(hand.landmarks@, stride as int, k as int)[i],
                    #[trigger] keypoints@[i],
                ),
        decreases 21 - k,
    {
        assert(0 <= k * stride && k * stride + 1 < 21 * stride) by (nonlinear_arith)
            requires
                0 <= k <= 20,
                2 <= stride,
        ;
        let x = hand.landmarks[k * stride];
        let y = hand.landmarks[k * stride + 1];
        if x.finite() && y.finite() {
            let px = normalize_landmark_axis(x, frame_width, times);
            let py = normalize_landmark_axis(y, frame_height, times);
            let own = extract_keypoint_confidence(hand, k);
            let visible: bool = match own {
                Some(confidence) => Scalar::from_bits(0x3f00_0000).less_than(confidence),
                None => true,
            };
            let confidence = match own {
                Some(confidence) => confidence,
                None => hand.confidence,
            };
            let keypoint = HandKeypoint {
                x: px.trunc_to_i32(),
                y: py.trunc_to_i32(),
                visible,
                confidence,
            };
            let ghost had = keypoints@;
            assert(in_pixels(*times, hand.landmarks@[k * hand.stride], size.0, px));
            assert(in_pixels(*times, hand.landmarks@[k * hand.stride + 1], size.1, py));
            assert(tells(*times, *hand, size, k as int, keypoint));
            keypoints.push(keypoint);
            proof {
                let before = finite_points(hand.landmarks@, stride as int, k as int);
                let after = finite_points(hand.landmarks@, stride as int, k + 1);
                assert(after == before.push(k as int));
                assert forall|i: int| 0 <= i < keypoints@.len() implies tells(
                    *times,
                    *hand,
                    size,
                    after[i],
                    #[trigger] keypoints@[i],
                ) by {
                    if i < before.len() {
                        assert(keypoints@[i] == had[i]);
                    }
                }
            }
        }
        k = k + 1;
    }
    Ok(keypoints)
}

/// The limits of what counts as a hand.
#[derive(Debug, Clone, Copy)]
pub struct Limits {
    pub max_hands: usize,
    pub confidence_threshold: Scalar,
    pub nms_iou_threshold: Scalar,
}

impl Default for Limits {
    fn default() -> (r: Self)
        ensures
            r.max_hands == 2,
            r.confidence_threshold.bits == 0x3f00_0000,
            r.nms_iou_threshold.bits == 0x3e4c_cccd,
    {
        Limits {
            max_hands: 2,
            // 0.5 and 0.2.
            confidence_threshold: Scalar::from_bits(0x3f00_0000),
            nms_iou_threshold: Scalar::from_bits(0x3e4c_cccd),
        }
    }
}

/// A landmark tensor: its numbers and dimensions.
#[derive(Debug)]
pub struct LandmarkTensor {
    pub data: Vec<Scalar>,
    pub dims: Vec<usize>,
}

/// A landmark tensor made of the words that its data holds.
pub fn landmark_tensor(words: &Vec<u32>, dims: &[usize]) -> (r: LandmarkTensor)
    ensures
        r.data@ == crate::facedetlitetensordec::scalars(words@),
        r.dims@ == dims@,
{
    let mut copy: Vec<usize> = Vec::new();
    let mut i: usize = 0;
    while i < dims.len()
        invariant
            i <= dims.len(),
            copy@ == dims@.take(i as int),
        decreases dims.len() - i,
    {
        copy.push(dims[i]);
        assert(copy@ =~= dims@.take(i + 1));
        i = i + 1;
    }
    assert(copy@ =~= dims@);
    LandmarkTensor { data: numbers_of(words), dims: copy }
}

/// Read a tensor's data, which are numbers one behind the other. Whether it can be read
/// depends on its length and, unless it is empty, on the address it lies at.
pub fn read_landmark_tensor(
    bytes: &[u8],
    dims: &[usize],
) -> (r: Result<LandmarkTensor, WordsError>)
    ensures
        r matches Ok(tensor) ==> tensor.dims@ == dims@ && exists|words: Seq<u32>|
            #[trigger] crate::words::holds_words(bytes@, words) && tensor.data@
                == crate::facedetlitetensordec::scalars(words),
        bytes@.len() == 0 ==> r is Ok,
        r == Err::<LandmarkTensor, WordsError>(WordsError::Length) <==> bytes@.len() % 4 != 0,
{
    match words_in(bytes) {
        Ok(words) => {
            let tensor = landmark_tensor(&words, dims);
            assert(crate::words::holds_words(bytes@, words@));
            Ok(tensor)
        },
        Err(error) => Err(error),
    }
}

/// The confidence in the `k`-th hand: complete, where there is no score for it.
pub open spec fn confidence_of(scores: Option<Seq<Scalar>>, k: int) -> Scalar {
    match scores {
        Some(scores) => if k < scores.len() {
            scores[k]
        } else {
            Scalar::of_int(1)
        },
        None => Scalar::of_int(1),
    }
}

/// How far the `k`-th hand is said to be turned, if anything is said of it.
pub open spec fn rotation_given(rotations: Option<Seq<Scalar>>, k: int) -> Option<Scalar> {
    match rotations {
        Some(rotations) => if k < rotations.len() {
            Some(rotations[k])
        } else {
            None
        },
        None => None,
    }
}

/// The numbers of a list that may be missing.
pub open spec fn numbers_view(numbers: Option<Vec<Scalar>>) -> Option<Seq<Scalar>> {
    match numbers {
        Some(numbers) => Some(numbers@),
        None => None,
    }
}

/// How a hand is turned: as was given; else as `turn` tells from the landmarks, and not at
/// all where that does not tell.
pub open spec fn turned<R: Fn(&Vec<Scalar>, usize) -> Option<Scalar>>(
    turn: R,
    given: Option<Scalar>,
    landmarks: Vec<Scalar>,
    stride: usize,
    rotation: Scalar,
) -> bool {
    match given {
        Some(given) => rotation == given,
        None => exists|told: Option<Scalar>|
            #[trigger] turn.ensures((&landmarks, stride), told) && rotation == match told {
                Some(rotation) => rotation,
                None => Scalar { bits: 0 },
            },
    }
}

/// What becomes of a list of landmarks: no hand, if the confidence is too low or the
/// keypoints do not reach anywhere; else a hand.
pub open spec fn outcome<
    M: Fn(Scalar, i32) -> Scalar,
    P: Fn(HandBox) -> HandBox,
    R: Fn(&Vec<Scalar>, usize) -> Option<Scalar>,
>(
    times: M,
    pad: P,
    turn: R,
    landmarks: Vec<Scalar>,
    stride: usize,
    confidence: Scalar,
    given: Option<Scalar>,
    threshold: Scalar,
    size: (i32, i32),
    hand: Option<HandData>,
) -> bool {
    if confidence.below(threshold) {
        hand is None
    } else {
        match hand {
            None => is_reach(times, landmarks@, stride as int, size, None),
            Some(hand) => {
                &&& hand.confidence == confidence
                &&& hand.landmarks@ == landmarks@
                &&& hand.stride == stride
                &&& turned(turn, given, landmarks, stride, hand.rotation)
                &&& exists|reach: HandBox|
                    is_reach(times, landmarks@, stride as int, size, Some(reach))
                        && #[trigger] pad.ensures((reach,), hand.bbox)
            },
        }
    }
}

/// The hands among the outcomes, in order.
pub open spec fn hands_among(outcomes: Seq<Option<HandData>>) -> Seq<HandData>
    decreases outcomes.len(),
{
    if outcomes.len() == 0 {
        Seq::empty()
    } else {
        let before = hands_among(outcomes.drop_last());
        match outcomes.last() {
            Some(hand) => before.push(hand),
            None => before,
        }
    }
}

/// The outcomes of the lists of landmarks, in order.
pub open spec fn are_outcomes<
    M: Fn(Scalar, i32) -> Scalar,
    P: Fn(HandBox) -> HandBox,
    R: Fn(&Vec<Scalar>, usize) -> Option<Scalar>,
>(
    times: M,
    pad: P,
    turn: R,
    lists: Seq<Vec<Scalar>>,
    stride: usize,
    scores: Option<Seq<Scalar>>,
    rotations: Option<Seq<Scalar>>,
    threshold: Scalar,
    size: (i32, i32),
    outcomes: Seq<Option<HandData>>,
) -> bool {
    &&& outcomes.len() == lists.len()
    &&& forall|k: int|
        #![trigger outcomes[k]]
        0 <= k < outcomes.len() ==> outcome(
            times,
            pad,
            turn,
            lists[k],
            stride,
            confidence_of(scores, k),
            rotation_given(rotations, k),
            threshold,
            size,
            outcomes[k],
        )
}

/// Turn lists of landmarks into hands. Scores and rotations are those of the hands in their
/// order, as far as they go.
pub fn collect_hands<
    M: Fn(Scalar, i32) -> Scalar,
    P: Fn(HandBox) -> HandBox,
    R: Fn(&Vec<Scalar>, usize) -> Option<Scalar>,
>(
    lists: &Vec<Vec<Scalar>>,
    stride: usize,
    scores: &Option<Vec<Scalar>>,
    rotations: &Option<Vec<Scalar>>,
    confidence_threshold: Scalar,
    video_size: Option<(i32, i32)>,
    times: &M,
    pad: &P,
    turn: &R,
) -> (r: Vec<HandData>)
    requires
        21 * stride <= usize::MAX,
        forall|k: int| 0 <= k < lists@.len() ==> is_hand((#[trigger] lists@[k])@, stride as int),
        forall|value: Scalar, size: i32| times.requires((value, size)),
        forall|reach: HandBox| pad.requires((reach,)),
        forall|landmarks: &Vec<Scalar>, stride: usize| turn.requires((landmarks, stride)),
    ensures
        exists|outcomes: Seq<Option<HandData>>|
            #[trigger] are_outcomes(
                *times,
                *pad,
                *turn,
                lists@,
                stride,
                numbers_view(*scores),
                numbers_view(*rotations),
                confidence_threshold,
                known_size(video_size),
                outcomes,
            ) && r@ == hands_among(outcomes),
{
    let ghost size = known_size(video_size);
    let ghost mut outcomes: Seq<Option<HandData>> = Seq::empty();
    let mut hands: Vec<HandData> = Vec::new();
    let mut k: usize = 0;
    while k < lists.len()
        invariant
            k <= lists.len(),
            21 * stride <= usize::MAX,
            size == known_size(video_size),
            forall|i: int|
                0 <= i < lists@.len() ==> is_hand((#[trigger] lists@[i])@, stride as int),
            forall|value: Scalar, size: i32| times.requires((value, size)),
            forall|reach: HandBox| pad.requires((reach,)),
            forall|landmarks: &Vec<Scalar>, stride: usize| turn.requires((landmarks, stride)),
            outcomes.len() == k,
            forall|i: int|
                #![trigger outcomes[i]]
                0 <= i < outcomes.len() ==> outcome(
                    *times,
                    *pad,
                    *turn,
                    lists@[i],
                    stride,
                    confidence_of(numbers_view(*scores), i),
                    rotation_given(numbers_view(*rotations), i),
                    confidence_threshold,
                    size,
                    outcomes[i],
                ),
            hands@ == hands_among(outcomes),
        decreases lists.len() - k,
    {
        let landmarks = &lists[k];
        assert(is_hand(lists@[k as int]@, stride as int));
        let confidence = match scores {
            Some(scores) => if k < scores.len() {
                scores[k]
            } else {
                Scalar::from_i32(1)
            },
            None => Scalar::from_i32(1),
        };
        assert(confidence == confidence_of(numbers_view(*scores), k as int));
        let ghost had = outcomes;
        if confidence.less_than(confidence_threshold) {
            proof {
                outcomes = outcomes.push(None);
                assert(outcomes.drop_last() =~= had);
            }
        } else {
            let reach = hand_reach(landmarks, stride, video_size, times);
            match reach {
                Some(found) => {
                    let bbox = pad(found);
                    let given = match rotations {
                        Some(rotations) => if k < rotations.len() {
                            Some(rotations[k])
                        } else {
                            None
                        },
                        None => None,
                    };
                    let ghost said = rotation_given(numbers_view(*rotations), k as int);
                    assert(given == said);
                    let rotation = match given {
                        Some(rotation) => rotation,
                        None => match turn(landmarks, stride) {
                            Some(rotation) => rotation,
                            None => Scalar::from_bits(0),
                        },
                    };
                    let hand = HandData {
                        confidence,
                        rotation,
                        bbox,
                        landmarks: copy_numbers(landmarks),
                        stride,
                    };
                    proof {
                        assert(turned(*turn, said, *landmarks, stride, rotation));
                        assert(pad.ensures((found,), hand.bbox));
                        assert(outcome(
                            *times,
                            *pad,
                            *turn,
                            lists@[k as int],
                            stride,
                            confidence,
                            said,
                            confidence_threshold,
                            size,
                            Some(hand),
                        ));
                        outcomes = outcomes.push(Some(hand));
                        assert(outcomes.drop_last() =~= had);
                    }
                    hands.push(hand);
                },
                None => {
                    proof {
                        outcomes = outcomes.push(None);
                        assert(outcomes.drop_last() =~= had);
                    }
                },
            }
        }
        k = k + 1;
    }
    assert(are_outcomes(
        *times,
        *pad,
        *turn,
        lists@,
        stride,
        numbers_view(*scores),
        numbers_view(*rotations),
        confidence_threshold,
        size,
        outcomes,
    ));
    hands
}

/// The confidences in hands.
pub open spec fn confidences(hands: Seq<HandData>) -> Seq<Scalar> {
    Seq::new(hands.len(), |i: int| hands[i].confidence)
}

/// The hands in the given order.
pub open spec fn in_order(hands: Seq<HandData>, order: Seq<usize>, ranked: Seq<HandData>) -> bool {
    &&& ranked.len() == order.len()
    &&& forall|i: int|
        0 <= i < ranked.len() ==> (#[trigger] ranked[i]).same(hands[order[i] as int])
}

/// A threshold moved between zero and one.
pub open spec fn clamped_threshold(threshold: Scalar) -> Scalar {
    if threshold.below(Scalar::of_int(0)) {
        Scalar::of_int(0)
    } else if Scalar::of_int(1).below(threshold) {
        Scalar::of_int(1)
    } else {
        threshold
    }
}

/// Hands by descending confidence, and which of them are left after suppression.
#[derive(Debug)]
pub struct HandSelection {
    pub hands: Vec<HandData>,
    pub chosen: Vec<usize>,
}

/// What is selected from hands.
pub open spec fn is_hand_selection<O: Fn(&HandData, &HandData) -> Scalar>(
    hands: Seq<HandData>,
    limits: Limits,
    overlap: O,
    order: Seq<usize>,
    selection: HandSelection,
) -> bool {
    &&& crate::ranking::is_ranking(
        order,
        crate::suppress::score_keys(confidences(hands)),
        hands.len() as int,
    )
    &&& in_order(hands, order, selection.hands@)
    &&& crate::suppress::is_selection(
        selection.hands@,
        overlap,
        clamped_threshold(limits.nms_iou_threshold),
        limits.max_hands as int,
        selection.chosen@,
    )
}

/// Sort hands by confidence, and leave out those whose box overlaps that of a better one.
pub fn select_hands<O: Fn(&HandData, &HandData) -> Scalar>(
    hands: &Vec<HandData>,
    limits: Limits,
    overlap: &O,
) -> (r: HandSelection)
    requires
        forall|a: &HandData, b: &HandData| overlap.requires((a, b)),
    ensures
        exists|order: Seq<usize>|
            #[trigger] is_hand_selection(hands@, limits, *overlap, order, r),
{
    let mut scores: Vec<Scalar> = Vec::new();
    let mut k: usize = 0;
    while k < hands.len()
        invariant
            k <= hands.len(),
            scores@ == confidences(hands@).take(k as int),
        decreases hands.len() - k,
    {
        scores.push(hands[k].confidence);
        assert(scores@ =~= confidences(hands@).take(k + 1));
        k = k + 1;
    }
    assert(scores@ =~= confidences(hands@));
    let order = rank_scores(&scores);
    let mut ranked: Vec<HandData> = Vec::new();
    let mut i: usize = 0;
    while i < order.len()
        invariant
            i <= order.len(),
            i == ranked@.len(),
            forall|j: int| 0 <= j < order@.len() ==> #[trigger] order@[j] < hands@.len(),
            forall|j: int|
                0 <= j < i ==> (#[trigger] ranked@[j]).same(hands@[order@[j] as int]),
        decreases order.len() - i,
    {
        let at: usize = order[i];
        ranked.push(hands[at].clone());
        i = i + 1;
    }
    let threshold = if limits.nms_iou_threshold.less_than(Scalar::from_i32(0)) {
        Scalar::from_i32(0)
    } else if Scalar::from_i32(1).less_than(limits.nms_iou_threshold) {
        Scalar::from_i32(1)
    } else {
        limits.nms_iou_threshold
    };
    let chosen = suppress_overlaps(&ranked, limits.max_hands, threshold, overlap);
    let r = HandSelection { hands: ranked, chosen };
    assert(is_hand_selection(hands@, limits, *overlap, order@, r));
    r
}

/// How many hands a tensor holds, and how many numbers for each keypoint: none, if it is
/// missing, stands for no layout or is too short for it.
pub open spec fn held_in(tensor: Option<LandmarkTensor>) -> Option<(int, int)> {
    match tensor {
        Some(tensor) => match layout_of(tensor.dims@) {
            Some((hands, stride)) => if hands * (21 * stride) <= tensor.data@.len() {
                Some((hands, stride))
            } else {
                None
            },
            None => None,
        },
        None => None,
    }
}

/// How many numbers a tensor holds for each keypoint.
pub open spec fn held_stride(tensor: Option<LandmarkTensor>) -> usize {
    (held_in(tensor)->0).1 as usize
}

/// The data is split into the lists of landmarks of its hands.
pub open spec fn split_into(
    data: Seq<Scalar>,
    held: (int, int),
    lists: Seq<Vec<Scalar>>,
) -> bool {
    &&& lists.len() == held.0
    &&& forall|k: int| 0 <= k < lists.len() ==> (#[trigger] lists[k])@ == hand_part(data, held.1, k)
}

/// Find the hands in a landmark tensor. No tensor, or one that stands for no layout, holds
/// none. The rotation of a hand is the one in `rotations`; only where there is none for it,
/// it is computed from the landmarks.
pub fn extract_hands<
    M: Fn(Scalar, i32) -> Scalar,
    P: Fn(HandBox) -> HandBox,
    R: Fn(&Vec<Scalar>, usize) -> Option<Scalar>,
    O: Fn(&HandData, &HandData) -> Scalar,
>(
    tensor: &Option<LandmarkTensor>,
    scores: &Option<Vec<Scalar>>,
    rotations: &Option<Vec<Scalar>>,
    limits: Limits,
    video_size: Option<(i32, i32)>,
    times: &M,
    pad: &P,
    turn: &R,
    overlap: &O,
) -> (r: HandSelection)
    requires
        tensor matches Some(tensor) ==> layout_fits(tensor.dims@),
        forall|value: Scalar, size: i32| times.requires((value, size)),
        forall|reach: HandBox| pad.requires((reach,)),
        forall|landmarks: &Vec<Scalar>, stride: usize| turn.requires((landmarks, stride)),
        forall|a: &HandData, b: &HandData| overlap.requires((a, b)),
    ensures
        held_in(*tensor) is None ==> r.hands@.len() == 0 && r.chosen@.len() == 0,
        held_in(*tensor) is Some ==> exists|
            lists: Seq<Vec<Scalar>>,
            outcomes: Seq<Option<HandData>>,
            order: Seq<usize>,
        |
            #[trigger] split_into(tensor->0.data@, held_in(*tensor)->0, lists)
                && #[trigger] are_outcomes(
                *times,
                *pad,
                *turn,
                lists,
                held_stride(*tensor),
                numbers_view(*scores),
                numbers_view(*rotations),
                limits.confidence_threshold,
                known_size(video_size),
                outcomes,
            ) && #[trigger] is_hand_selection(
                hands_among(outcomes),
                limits,
                *overlap,
                order,
                r,
            ),
{
    let none = HandSelection { hands: Vec::new(), chosen: Vec::new() };
    let found = match tensor {
        Some(tensor) => tensor,
        None => {
            return none;
        },
    };
    match decode_landmark_hands(&found.data, &found.dims) {
        Some((lists, stride)) => {
            proof {
                let n = lists@.len() as int;
                let len = 21 * stride;
                assert forall|k: int| 0 <= k < n implies is_hand(
                    (#[trigger] lists@[k])@,
                    stride as int,
                ) by {
                    assert(0 <= k * len && k * len + len <= n * len) by (nonlinear_arith)
                        requires
                            0 <= k,
                            k + 1 <= n,
                            0 <= len,
                    ;
                }
            }
            let hands = collect_hands(
                &lists,
                stride,
                scores,
                rotations,
                limits.confidence_threshold,
                video_size,
                times,
                pad,
                turn,
            );
            let r = select_hands(&hands, limits, overlap);
            proof {
                let held = (lists@.len() as int, stride as int);
                assert(held_in(*tensor) == Some(held));
                assert(held_stride(*tensor) == stride);
                assert(split_into(found.data@, held, lists@));
                let outcomes = choose|outcomes: Seq<Option<HandData>>|
                    #[trigger] are_outcomes(
                        *times,
                        *pad,
                        *turn,
                        lists@,
                        stride,
                        numbers_view(*scores),
                        numbers_view(*rotations),
                        limits.confidence_threshold,
                        known_size(video_size),
                        outcomes,
                    ) && hands@ == hands_among(outcomes);
                let order = choose|order: Seq<usize>|
                    #[trigger] is_hand_selection(hands@, limits, *overlap, order, r);
                assert(is_hand_selection(hands_among(outcomes), limits, *overlap, order, r));
            }
            r
        },
        None => none,
    }
}

/// A hand has the rotation that was given for it, whatever its landmarks say; only where none
/// was given, `turn` tells it from them. Its confidence is its score, or complete where it
/// has none.
pub proof fn law_given_rotations_are_kept<
    M: Fn(Scalar, i32) -> Scalar,
    P: Fn(HandBox) -> HandBox,
    R: Fn(&Vec<Scalar>, usize) -> Option<Scalar>,
>(
    times: M,
    pad: P,
    turn: R,
    lists: Seq<Vec<Scalar>>,
    stride: usize,
    scores: Option<Seq<Scalar>>,
    rotations: Option<Seq<Scalar>>,
    threshold: Scalar,
    size: (i32, i32),
    outcomes: Seq<Option<HandData>>,
    k: int,
)
    requires
        are_outcomes(
            times,
            pad,
            turn,
            lists,
            stride,
            scores,
            rotations,
            threshold,
            size,
            outcomes,
        ),
        0 <= k < outcomes.len(),
        outcomes[k] is Some,
    ensures
        rotations is Some && k < rotations->0.len() ==> outcomes[k]->0.rotation
            == rotations->0[k],
        rotations is None || rotations->0.len() <= k ==> turned(
            turn,
            None,
            lists[k],
            stride,
            outcomes[k]->0.rotation,
        ),
        scores is Some && k < scores->0.len() ==> outcomes[k]->0.confidence == scores->0[k],
        scores is None || scores->0.len() <= k ==> outcomes[k]->0.confidence == Scalar::of_int(1),
{
    assert(outcome(
        times,
        pad,
        turn,
        lists[k],
        stride,
        confidence_of(scores, k),
        rotation_given(rotations, k),
        threshold,
        size,
        outcomes[k],
    ));
}

/// The keypoints that are told of are those with two finite coordinates, each once and in
/// the order of the landmarks.
pub proof fn law_finite_keypoints_come_in_order(landmarks: Seq<Scalar>, stride: int, n: int)
    requires
        0 <= n,
    ensures
        forall|i: int|
            0 <= i < finite_points(landmarks, stride, n).len() ==> 0 <= #[trigger] finite_points(
                landmarks,
                stride,
                n,
            )[i] < n,
        forall|i: int, j: int|
            0 <= i < j < finite_points(landmarks, stride, n).len() ==> #[trigger] finite_points(
                landmarks,
                stride,
                n,
            )[i] < #[trigger] finite_points(landmarks, stride, n)[j],
        forall|k: int|
            0 <= k < n ==> #[trigger] finite_points(landmarks, stride, n).contains(k) == (
            landmarks[k * stride].is_finite() && landmarks[k * stride + 1].is_finite()),
    decreases n,
{
    if n > 0 {
        law_finite_keypoints_come_in_order(landmarks, stride, n - 1);
        let before = finite_points(landmarks, stride, n - 1);
        let after = finite_points(landmarks, stride, n);
        if after != before {
            assert(after == before.push(n - 1));
        }
        assert forall|k: int| 0 <= k < n implies #[trigger] after.contains(k) == (landmarks[k
            * stride].is_finite() && landmarks[k * stride + 1].is_finite()) by {
            if k < n - 1 {
                assert(before.contains(k) == (landmarks[k * stride].is_finite() && landmarks[k
                    * stride + 1].is_finite()));
                if before.contains(k) {
                    let i = choose|i: int| 0 <= i < before.len() && before[i] == k;
                    assert(after[i] == k);
                }
                if after.contains(k) {
                    let i = choose|i: int| 0 <= i < after.len() && after[i] == k;
                    assert(before[i] == k);
                }
            } else {
                if is_point(landmarks, stride, n - 1) {
                    assert(after[before.len() as int] == k);
                } else if after.contains(k) {
                    let i = choose|i: int| 0 <= i < after.len() && after[i] == k;
                    assert(before[i] < n - 1);
                }
            }
        }
    }
}

/// A keypoint whose landmark is a fraction of the frame lies in the frame: its horizontal
/// coordinate does not lie beyond the frame's width, nor its vertical one beyond the frame's
/// height. This holds wherever `times` gives for a fraction of a size a number between zero
/// and that size.
pub proof fn law_fractions_lie_in_the_frame<M: Fn(Scalar, i32) -> Scalar>(
    times: M,
    hand: HandData,
    width: i32,
    height: i32,
    k: int,
    keypoint: HandKeypoint,
)
    requires
        tells(times, hand, (width, height), k, keypoint),
        forall|value: Scalar, size: i32, pixels: Scalar| #[trigger]
            times.ensures((value, size), pixels) && 0 < size && value.at_or_above(
                Scalar::of_int(0),
            ) && Scalar::of_int(1).at_or_above(value) ==> pixels.is_finite() && 0
                <= pixels.units() <= size * crate::scalar::units_of_one(),
    ensures
        0 < width && hand.landmarks@[k * hand.stride].at_or_above(Scalar::of_int(0))
            && Scalar::of_int(1).at_or_above(hand.landmarks@[k * hand.stride]) ==> 0 <= keypoint.x
            <= width,
        0 < height && hand.landmarks@[k * hand.stride + 1].at_or_above(Scalar::of_int(0))
            && Scalar::of_int(1).at_or_above(hand.landmarks@[k * hand.stride + 1]) ==> 0
            <= keypoint.y <= height,
{
    let fx = hand.landmarks@[k * hand.stride];
    let fy = hand.landmarks@[k * hand.stride + 1];
    if 0 < width && fx.at_or_above(Scalar::of_int(0)) && Scalar::of_int(1).at_or_above(fx) {
        let x = choose|x: Scalar|
            #[trigger] in_pixels(times, fx, width, x) && keypoint.x == x.as_i32(x.trunc());
        assert(times.ensures((fx, width), x));
        lemma_part_of_size(x, width as int);
    }
    if 0 < height && fy.at_or_above(Scalar::of_int(0)) && Scalar::of_int(1).at_or_above(fy) {
        let y = choose|y: Scalar|
            #[trigger] in_pixels(times, fy, height, y) && keypoint.y == y.as_i32(y.trunc());
        assert(times.ensures((fy, height), y));
        lemma_part_of_size(y, height as int);
    }
}

proof fn lemma_part_of_size(pixels: Scalar, size: int)
    requires
        pixels.is_finite(),
        0 <= pixels.units() <= size * crate::scalar::units_of_one(),
        0 <= size <= i32::MAX,
    ensures
        0 <= pixels.as_i32(pixels.trunc()) <= size,
{
    let one = crate::scalar::units_of_one();
    vstd::arithmetic::power2::lemma_pow2_pos(149);
    crate::scalar::law_truncation_drops_the_fraction(pixels);
    let t = pixels.trunc();
    assert(t <= size) by (nonlinear_arith)
        requires
            t * one <= size * one,
            one > 0,
    ;
}

/// A landmark that is no fraction of the frame is in pixels already: the keypoint lies there,
/// whatever the frame's size, up to what is lost in whole pixels.
pub proof fn law_pixels_are_kept<M: Fn(Scalar, i32) -> Scalar>(
    times: M,
    hand: HandData,
    width: i32,
    height: i32,
    k: int,
    keypoint: HandKeypoint,
)
    requires
        tells(times, hand, (width, height), k, keypoint),
    ensures
        ({
            let x = hand.landmarks@[k * hand.stride];
            width <= 0 || x.below(Scalar::of_int(0)) || Scalar::of_int(1).below(x) ==> keypoint.x
                == x.as_i32(x.trunc())
        }),
        ({
            let y = hand.landmarks@[k * hand.stride + 1];
            height <= 0 || y.below(Scalar::of_int(0)) || Scalar::of_int(1).below(y) ==> keypoint.y
                == y.as_i32(y.trunc())
        }),
{
}

/// Every keypoint lies within the reach of its hand, in whole pixels: it and the reach are
/// measured alike. `times` gives a number, and always the same one for the same arguments.
pub proof fn law_keypoints_lie_within_the_reach<M: Fn(Scalar, i32) -> Scalar>(
    times: M,
    hand: HandData,
    width: i32,
    height: i32,
    reach: HandBox,
    k: int,
    keypoint: HandKeypoint,
)
    requires
        tells(times, hand, (width, height), k, keypoint),
        is_reach(times, hand.landmarks@, hand.stride as int, (width, height), Some(reach)),
        0 <= k < 21,
        hand.landmarks@[k * hand.stride].is_finite(),
        hand.landmarks@[k * hand.stride + 1].is_finite(),
        forall|value: Scalar, size: i32, p: Scalar, q: Scalar|
            #[trigger] times.ensures((value, size), p) && #[trigger] times.ensures(
                (value, size),
                q,
            ) ==> p == q,
        forall|value: Scalar, size: i32, p: Scalar| #[trigger]
            times.ensures((value, size), p) ==> !p.is_nan(),
    ensures
        reach.min_x.as_i32(reach.min_x.trunc()) <= keypoint.x <= reach.max_x.as_i32(
            reach.max_x.trunc(),
        ),
        reach.min_y.as_i32(reach.min_y.trunc()) <= keypoint.y <= reach.max_y.as_i32(
            reach.max_y.trunc(),
        ),
{
    let stride = hand.stride as int;
    let landmarks = hand.landmarks@;
    let size = (width, height);
    let (xs, ys) = choose|xs: Seq<Scalar>, ys: Seq<Scalar>|
        #[trigger] measured(times, landmarks, stride, 21, size, xs, ys) && spans(
            xs,
            reach.min_x,
            reach.max_x,
        ) && spans(ys, reach.min_y, reach.max_y);
    let points = finite_points(landmarks, stride, 21);
    law_finite_keypoints_come_in_order(landmarks, stride, 21);
    assert(points.contains(k));
    let i = choose|i: int| 0 <= i < points.len() && points[i] == k;
    let fx = landmarks[k * stride];
    let fy = landmarks[k * stride + 1];
    let x = choose|x: Scalar|
        #[trigger] in_pixels(times, fx, width, x) && keypoint.x == x.as_i32(x.trunc());
    let y = choose|y: Scalar|
        #[trigger] in_pixels(times, fy, height, y) && keypoint.y == y.as_i32(y.trunc());
    assert(in_pixels(times, fx, width, xs[i]));
    assert(in_pixels(times, fy, height, ys[i]));
    assert(x == xs[i] && y == ys[i]);
    crate::scalar::law_truncation_keeps_the_order(reach.min_x, x);
    crate::scalar::law_truncation_keeps_the_order(x, reach.max_x);
    crate::scalar::law_truncation_keeps_the_order(reach.min_y, y);
    crate::scalar::law_truncation_keeps_the_order(y, reach.max_y);
}

/// A tensor's layout accounts for all of its numbers, and a keypoint has at least two of
/// them. Where the last two dimensions are the keypoints and their numbers, the latter is
/// how many a keypoint has, and every hand of every batch is counted.
pub proof fn law_layouts_account_for_all_numbers(dims: Seq<usize>, hands: int, stride: int)
    requires
        layout_of(dims) == Some((hands, stride)),
    ensures
        2 <= stride,
        dims.len() == 4 ==> dims[3] == stride && dims[0] * dims[1] == hands && dims[2] == 21,
        dims.len() == 3 ==> dims[0] * (dims[1] * dims[2]) == hands * (21 * stride),
        dims.len() == 3 && dims[1] == 21 && dims[2] >= 2 ==> dims[0] == hands && dims[2] == stride,
        dims.len() == 2 ==> dims[0] * dims[1] == hands * (21 * stride),
        dims.len() == 1 ==> dims[0] == hands * (21 * stride),
        1 <= dims.len() <= 4,
{
    if dims.len() == 3 {
        let (a, b, c) = (dims[0] as int, dims[1] as int, dims[2] as int);
        if b == 21 && c >= 2 {
            assert(a * (b * c) == hands * (21 * stride));
        } else {
            assert(a * (b * c) == 1 * (21 * stride)) by (nonlinear_arith)
                requires
                    a == 21,
                    b == stride,
                    c == 1,
            ;
        }
    } else if dims.len() == 2 {
        let (a, b) = (dims[0] as int, dims[1] as int);
        if b % 21 == 0 {
            assert(b == 21 * stride);
        } else {
            assert(a * b == 1 * (21 * stride));
        }
    } else if dims.len() == 1 {
        assert(dims[0] == 21 * stride);
    }
}

/// The `c`-th number of the `k`-th keypoint of the `j`-th hand is found in that hand's list
/// as it stands in the tensor, where hands, keypoints and their numbers follow each other.
pub proof fn law_hands_are_cut_from_the_tensor(
    data: Seq<Scalar>,
    hands: int,
    stride: int,
    lists: Seq<Vec<Scalar>>,
    j: int,
    k: int,
    c: int,
)
    requires
        split_into(data, (hands, stride), lists),
        hands * (21 * stride) <= data.len(),
        0 <= j < hands,
        0 <= k < 21,
        0 <= c < stride,
    ensures
        lists.len() == hands,
        lists[j]@.len() == 21 * stride,
        lists[j]@[k * stride + c] == data[(j * 21 + k) * stride + c],
{
    let len = 21 * stride;
    assert(0 <= j * len && j * len + len <= hands * len) by (nonlinear_arith)
        requires
            0 <= j,
            j + 1 <= hands,
            0 <= len,
    ;
    assert(0 <= k * stride && k * stride + c < len) by (nonlinear_arith)
        requires
            0 <= k <= 20,
            0 <= c < stride,
            len == 21 * stride,
    ;
    assert((j * 21 + k) * stride == j * len + k * stride) by (nonlinear_arith)
        requires
            len == 21 * stride,
    ;
    assert(lists[j]@ == hand_part(data, stride, j));
}

/// With three numbers or more a keypoint tells how sure it is by its third one, and is
/// visible if that lies above one half; with two it is as sure as its hand, and visible.
pub proof fn law_third_numbers_tell_visibility<M: Fn(Scalar, i32) -> Scalar>(
    times: M,
    hand: HandData,
    size: (i32, i32),
    k: int,
    keypoint: HandKeypoint,
)
    requires
        tells(times, hand, size, k, keypoint),
        0 <= k < 21,
        21 * hand.stride <= hand.landmarks@.len(),
    ensures
        hand.stride >= 3 ==> keypoint.confidence == hand.landmarks@[k * hand.stride + 2],
        hand.stride >= 3 && keypoint.confidence.is_finite() ==> keypoint.visible == (2
            * keypoint.confidence.units() > crate::scalar::units_of_one()),
        hand.stride < 3 ==> keypoint.confidence == hand.confidence && keypoint.visible,
{
    let stride = hand.stride as int;
    if stride >= 3 {
        assert(k * stride + 2 < 21 * stride) by (nonlinear_arith)
            requires
                k <= 20,
                3 <= stride,
        ;
        if keypoint.confidence.is_finite() {
            crate::scalar::law_order_is_that_of_the_values(one_half(), keypoint.confidence);
            assert(one_half().exponent() == -24);
            assert(one_half().significand() == 0x80_0000);
            vstd::arithmetic::power2::lemma_pow2_adds(24, 125);
            vstd::arithmetic::power2::lemma2_to64();
            let p = crate::scalar::two_to(125);
            assert(crate::scalar::units_of_one() == 0x100_0000 * p);
            assert(2 * (0x80_0000 * p) == 0x100_0000 * p);
        }
    }
}

/// The reach of a hand is tight: each of its ends is where one of the finite keypoints lies.
pub proof fn law_reach_is_tight<M: Fn(Scalar, i32) -> Scalar>(
    times: M,
    landmarks: Seq<Scalar>,
    stride: int,
    width: i32,
    height: i32,
    reach: HandBox,
)
    requires
        is_reach(times, landmarks, stride, (width, height), Some(reach)),
    ensures
        reach.min_x.below(reach.max_x),
        reach.min_y.below(reach.max_y),
        exists|k: int|
            0 <= k < 21 && in_pixels(times, #[trigger] landmarks[k * stride], width, reach.min_x),
        exists|k: int|
            0 <= k < 21 && in_pixels(times, #[trigger] landmarks[k * stride], width, reach.max_x),
        exists|k: int|
            0 <= k < 21 && in_pixels(
                times,
                #[trigger] landmarks[k * stride + 1],
                height,
                reach.min_y,
            ),
        exists|k: int|
            0 <= k < 21 && in_pixels(
                times,
                #[trigger] landmarks[k * stride + 1],
                height,
                reach.max_y,
            ),
{
    let (xs, ys) = choose|xs: Seq<Scalar>, ys: Seq<Scalar>|
        #[trigger] measured(times, landmarks, stride, 21, (width, height), xs, ys) && spans(
            xs,
            reach.min_x,
            reach.max_x,
        ) && spans(ys, reach.min_y, reach.max_y);
    let points = finite_points(landmarks, stride, 21);
    law_finite_keypoints_come_in_order(landmarks, stride, 21);
    let a = choose|a: int| 0 <= a < xs.len() && xs[a] == reach.min_x;
    let b = choose|b: int| 0 <= b < xs.len() && xs[b] == reach.max_x;
    let c = choose|c: int| 0 <= c < ys.len() && ys[c] == reach.min_y;
    let d = choose|d: int| 0 <= d < ys.len() && ys[d] == reach.max_y;
    assert(in_pixels(times, landmarks[points[a] * stride], width, xs[a]));
    assert(in_pixels(times, landmarks[points[b] * stride], width, xs[b]));
    assert(in_pixels(times, landmarks[points[c] * stride + 1], height, ys[c]));
    assert(in_pixels(times, landmarks[points[d] * stride + 1], height, ys[d]));
}

/// Every list of landmarks has one outcome. There is no hand where the score lies below the
/// threshold; a hand has the landmarks that it was made of. Where the score does not lie
/// below, there is a hand unless its keypoints do not differ on some axis.
pub proof fn law_unsure_hands_are_left_out<
    M: Fn(Scalar, i32) -> Scalar,
    P: Fn(HandBox) -> HandBox,
    R: Fn(&Vec<Scalar>, usize) -> Option<Scalar>,
>(
    times: M,
    pad: P,
    turn: R,
    lists: Seq<Vec<Scalar>>,
    stride: usize,
    scores: Seq<Scalar>,
    rotations: Option<Seq<Scalar>>,
    threshold: Scalar,
    size: (i32, i32),
    outcomes: Seq<Option<HandData>>,
    k: int,
)
    requires
        are_outcomes(
            times,
            pad,
            turn,
            lists,
            stride,
            Some(scores),
            rotations,
            threshold,
            size,
            outcomes,
        ),
        0 <= k < lists.len(),
        k < scores.len(),
    ensures
        outcomes.len() == lists.len(),
        scores[k].below(threshold) ==> outcomes[k] is None,
        outcomes[k] matches Some(hand) ==> hand.landmarks@ == lists[k]@ && hand.stride == stride
            && hand.confidence == scores[k],
        !scores[k].below(threshold) && outcomes[k] is None ==> exists|xs: Seq<Scalar>, ys: Seq<
            Scalar,
        >|
            #[trigger] measured(times, lists[k]@, stride as int, 21, size, xs, ys) && ((forall|
                i: int,
                j: int,
            |
                0 <= i < xs.len() && 0 <= j < xs.len() ==> !(#[trigger] xs[i]).below(
                    #[trigger] xs[j],
                )) || (forall|i: int, j: int|
                0 <= i < ys.len() && 0 <= j < ys.len() ==> !(#[trigger] ys[i]).below(
                    #[trigger] ys[j],
                ))),
{
    assert(outcome(
        times,
        pad,
        turn,
        lists[k],
        stride,
        scores[k],
        rotation_given(rotations, k),
        threshold,
        size,
        outcomes[k],
    ));
    if !scores[k].below(threshold) && outcomes[k] is None {
        let (xs, ys) = choose|xs: Seq<Scalar>, ys: Seq<Scalar>|
            #[trigger] measured(times, lists[k]@, stride as int, 21, size, xs, ys) && (flat(xs)
                || flat(ys));
        assert(measured(times, lists[k]@, stride as int, 21, size, xs, ys));
    }
}

/// The hands are those among the outcomes: none is lost, and none is made up.
pub proof fn law_hands_are_those_among_the_outcomes(outcomes: Seq<Option<HandData>>, k: int)
    requires
        0 <= k < outcomes.len(),
    ensures
        outcomes[k] matches Some(hand) ==> hands_among(outcomes).contains(hand),
        hands_among(outcomes).len() <= outcomes.len(),
        forall|i: int|
            0 <= i < hands_among(outcomes).len() ==> outcomes.contains(
                Some(#[trigger] hands_among(outcomes)[i]),
            ),
    decreases outcomes.len(),
{
    let rest = outcomes.drop_last();
    let before = hands_among(rest);
    let all = hands_among(outcomes);
    if rest.len() > 0 {
        law_hands_are_those_among_the_outcomes(rest, if k < rest.len() {
            k
        } else {
            0
        });
    }
    if k < rest.len() {
        assert(rest[k] == outcomes[k]);
        if let Some(hand) = outcomes[k] {
            let i = choose|i: int| 0 <= i < before.len() && before[i] == hand;
            assert(all[i] == hand);
        }
    } else if let Some(hand) = outcomes[k] {
        assert(all[before.len() as int] == hand);
    }
    assert forall|i: int| 0 <= i < all.len() implies outcomes.contains(Some(#[trigger] all[i])) by {
        if i < before.len() {
            assert(all[i] == before[i]);
            assert(rest.contains(Some(before[i])));
            let j = choose|j: int| 0 <= j < rest.len() && rest[j] == Some(before[i]);
            assert(outcomes[j] == Some(all[i]));
        } else {
            assert(outcomes[outcomes.len() - 1] == Some(all[i]));
        }
    }
}

/// The selected hands stand by falling confidence, and no more of them are chosen than the
/// limit says. The threshold of their overlap lies between zero and one.
pub proof fn law_surest_hands_come_first<O: Fn(&HandData, &HandData) -> Scalar>(
    hands: Seq<HandData>,
    limits: Limits,
    overlap: O,
    order: Seq<usize>,
    selection: HandSelection,
    i: int,
    j: int,
)
    requires
        is_hand_selection(hands, limits, overlap, order, selection),
        0 <= i < j < hands.len() <= usize::MAX,
    ensures
        selection.hands@.len() == hands.len(),
        !selection.hands@[i].confidence.below(selection.hands@[j].confidence),
        selection.chosen@.len() <= limits.max_hands,
        order[i] < hands.len(),
        selection.hands@[i].landmarks@ == hands[order[i] as int].landmarks@,
        selection.hands@[i].bbox == hands[order[i] as int].bbox,
        selection.hands@[i].rotation == hands[order[i] as int].rotation,
        !clamped_threshold(limits.nms_iou_threshold).below(Scalar::of_int(0)),
        !Scalar::of_int(1).below(clamped_threshold(limits.nms_iou_threshold)),
        limits.nms_iou_threshold.at_or_above(Scalar::of_int(0)) && Scalar::of_int(1).at_or_above(
            limits.nms_iou_threshold,
        ) ==> clamped_threshold(limits.nms_iou_threshold) == limits.nms_iou_threshold,
{
    crate::suppress::law_higher_scores_come_first(confidences(hands), order, i, j);
    crate::suppress::law_chosen_items_do_not_overlap(
        selection.hands@,
        overlap,
        clamped_threshold(limits.nms_iou_threshold),
        limits.max_hands as int,
        selection.chosen@,
        0,
        0,
        0,
    );
    assert(selection.hands@[i].same(hands[order[i] as int]));
    assert(selection.hands@[j].same(hands[order[j] as int]));
    assert(Scalar::of_int(0).bits == 0);
    crate::scalar::law_small_integers_are_exact(1);
    crate::scalar::law_order_is_that_of_the_values(Scalar::of_int(1), Scalar::of_int(0));
    crate::scalar::law_values_lie_between_floor_and_ceil(Scalar::of_int(1));
    crate::scalar::law_small_integers_are_exact(0);
    crate::scalar::law_values_lie_between_floor_and_ceil(Scalar::of_int(0));
    vstd::arithmetic::power2::lemma_pow2_pos(149);
}

/// Dimensions stand for a layout just where keypoints of at least two numbers can be told
/// apart in them: before the last of four or three dimensions, as the first of two, of three
/// with a last one of one, or flattened into the last of two or the only one. Flattened
/// keypoints come before any other reading of two dimensions.
pub proof fn law_layouts_need_all_keypoints(dims: Seq<usize>)
    ensures
        dims.len() == 0 || dims.len() > 4 ==> layout_of(dims) is None,
        dims.len() == 4 ==> (layout_of(dims) is Some) == (dims[2] == 21 && dims[3] >= 2),
        dims.len() == 3 ==> (layout_of(dims) is Some) == (dims[1] == 21 && dims[2] >= 2 || dims[0]
            == 21 && dims[1] >= 2 && dims[2] == 1),
        dims.len() == 2 && dims[1] % 21 == 0 ==> (layout_of(dims) is Some) == (dims[1] >= 42),
        dims.len() == 2 && dims[1] % 21 == 0 && dims[1] >= 42 ==> (layout_of(dims)->0).0 == dims[0],
        dims.len() == 2 && dims[1] % 21 != 0 ==> (layout_of(dims) is Some) == (dims[0] == 21
            && dims[1] >= 2),
        dims.len() == 1 ==> (layout_of(dims) is Some) == (dims[0] % 21 == 0 && dims[0] >= 42),
        dims.len() == 1 && layout_of(dims) is Some ==> (layout_of(dims)->0).0 == 1,
{
}

/// A tensor holds hands unless it is missing, its dimensions stand for no layout or it is
/// shorter than they say.
pub proof fn law_short_tensors_hold_no_hands(tensor: LandmarkTensor)
    ensures
        held_in(None) is None,
        layout_of(tensor.dims@) is None ==> held_in(Some(tensor)) is None,
        layout_of(tensor.dims@) matches Some((hands, stride)) ==> {
            &&& tensor.data@.len() < hands * (21 * stride) ==> held_in(Some(tensor)) is None
            &&& tensor.data@.len() >= hands * (21 * stride) ==> held_in(Some(tensor)) == Some(
                (hands, stride),
            )
        },
{
}

/// Of two chosen hands the overlap does not lie above the threshold that is configured, as
/// far as that lies between zero and one.
pub proof fn law_chosen_hands_do_not_overlap<O: Fn(&HandData, &HandData) -> Scalar>(
    hands: Seq<HandData>,
    limits: Limits,
    overlap: O,
    order: Seq<usize>,
    selection: HandSelection,
    a: int,
    b: int,
)
    requires
        is_hand_selection(hands, limits, overlap, order, selection),
        hands.len() <= usize::MAX,
        limits.nms_iou_threshold.at_or_above(Scalar::of_int(0)),
        Scalar::of_int(1).at_or_above(limits.nms_iou_threshold),
        0 <= a < b < selection.chosen@.len(),
    ensures
        selection.chosen@.len() <= limits.max_hands,
        exists|value: Scalar|
            #[trigger] overlap.ensures(
                (
                    &selection.hands@[selection.chosen@[b] as int],
                    &selection.hands@[selection.chosen@[a] as int],
                ),
                value,
            ) && !limits.nms_iou_threshold.below(value),
{
    crate::suppress::law_chosen_items_do_not_overlap(
        selection.hands@,
        overlap,
        clamped_threshold(limits.nms_iou_threshold),
        limits.max_hands as int,
        selection.chosen@,
        a,
        b,
        0,
    );
}

/// In a frame of unknown size no coordinate counts as a fraction: each is kept as it is.
pub proof fn law_unknown_frames_keep_coordinates<M: Fn(Scalar, i32) -> Scalar>(
    times: M,
    value: Scalar,
    pixels: Scalar,
    size: (i32, i32),
)
    ensures
        known_size(Some(size)) == size,
        in_pixels(times, value, known_size(None).0, pixels) == (pixels == value),
        in_pixels(times, value, known_size(None).1, pixels) == (pixels == value),
{
}

/// A keypoint has a confidence of its own exactly where keypoints have at least three numbers
/// and its third one is there; it is that number.
pub proof fn law_confidences_are_third_numbers(hand: HandData, k: int)
    requires
        0 <= k,
    ensures
        hand.stride >= 3 && k < 21 && k * hand.stride + 2 < hand.landmarks@.len()
            ==> keypoint_confidence(hand, k) == Some(hand.landmarks@[k * hand.stride + 2]),
        hand.stride < 3 || k >= 21 || k * hand.stride + 2 >= hand.landmarks@.len()
            ==> keypoint_confidence(hand, k) is None,
{
}

} // verus!
