//! Decoding the output tensors of an anchor-free face detector: a heatmap of face centers,
//! edge offsets and landmark offsets for each cell of a feature map.

use vstd::prelude::*;

use crate::scalar::Scalar;
use crate::suppress::{rank_scores, suppress_overlaps};
use crate::words::words_in;

verus! {

/// Identifiers of the tensors with the channels last.
pub const FACE_DET_LITE_HEATMAP: &'static str = "face-det-lite-out-heatmap";

pub const FACE_DET_LITE_BOXES: &'static str = "face-det-lite-out-boxes";

pub const FACE_DET_LITE_LANDMARKS: &'static str = "face-det-lite-out-landmarks";

/// Identifiers of the tensors with the channels first.
pub const FACE_DET_LITE_V2_HEATMAP: &'static str = "face-det-lite-out-v2-heatmap";

pub const FACE_DET_LITE_V2_BOXES: &'static str = "face-det-lite-out-v2-boxes";

pub const FACE_DET_LITE_V2_LANDMARKS: &'static str = "face-det-lite-out-v2-landmarks";

pub const NUM_LANDMARKS: usize = 5;

/// Offsets per cell: left, top, right and bottom.
pub const BOX_CHANNELS: usize = 4;

/// Landmark offsets per cell: all horizontal ones, then all vertical ones.
pub const LANDMARK_CHANNELS: usize = 10;

pub const FACE_CLASS: &'static str = "face";

pub const FACE_LANDMARKS_TAG: &'static str = "face-landmarks";

/// The detector's limits.
#[derive(Debug, Clone, Copy)]
pub struct Settings {
    pub confidence_threshold: Scalar,
    pub nms_iou_threshold: Scalar,
    pub max_detections: u32,
}

impl Default for Settings {
    fn default() -> (r: Self)
        ensures
            r.confidence_threshold.bits == 0x3e99_999a,
            r.nms_iou_threshold.bits == 0x3f00_0000,
            r.max_detections == 100,
    {
        Settings {
            // 0.30 and 0.50.
            confidence_threshold: Scalar::from_bits(0x3e99_999a),
            nms_iou_threshold: Scalar::from_bits(0x3f00_0000),
            max_detections: 100,
        }
    }
}

/// Where the channels stand in a tensor's dimensions.
#[derive(Debug, Clone, Copy, PartialEq, Eq, Structural)]
pub enum Layout {
    /// One batch of rows of columns of channels.
    ChannelsLast,
    /// One batch of channels of rows of columns.
    ChannelsFirst,
}

/// A tensor of 32-bit floating-point numbers in row-major order. Its data is missing if it
/// could not be read.
#[derive(Debug)]
pub struct Tensor {
    pub dims: Vec<usize>,
    pub data: Option<Vec<u8>>,
}

/// The three tensors of the detector, as far as they were found.
#[derive(Debug)]
pub struct FaceTensorGroup {
    pub heatmap: Option<Tensor>,
    pub boxes: Option<Tensor>,
    pub landmarks: Option<Tensor>,
}

/// The tensors of one metadata of a buffer, for either layout; a group is there if its
/// heatmap's identifier is.
#[derive(Debug)]
pub struct TensorSet {
    pub channels_last: Option<FaceTensorGroup>,
    pub channels_first: Option<FaceTensorGroup>,
}

/// The feature map's size, and how its tensors are laid out.
#[derive(Debug, Clone, Copy, PartialEq, Eq, Structural)]
pub struct FaceShape {
    pub layout: Layout,
    pub rows: usize,
    pub columns: usize,
}

impl FaceShape {
    /// The dimensions of a tensor with that many channels.
    pub open spec fn dims(self, channels: usize) -> Seq<usize> {
        match self.layout {
            Layout::ChannelsLast => seq![1usize, self.rows, self.columns, channels],
            Layout::ChannelsFirst => seq![1usize, channels, self.rows, self.columns],
        }
    }

    /// The dimensions are those of a tensor with that many channels.
    fn fits(&self, dims: &Vec<usize>, channels: usize) -> (r: bool)
        ensures
            r == (dims@ == self.dims(channels)),
    {
        if dims.len() != 4 {
            return false;
        }
        let r = match self.layout {
            Layout::ChannelsLast => dims[0] == 1 && dims[1] == self.rows && dims[2] == self.columns
                && dims[3] == channels,
            Layout::ChannelsFirst => dims[0] == 1 && dims[1] == channels && dims[2] == self.rows
                && dims[3] == self.columns,
        };
        proof {
            if r {
                assert(dims@ =~= self.dims(channels));
            } else {
                let d = self.dims(channels);
                assert(dims@[0] != d[0] || dims@[1] != d[1] || dims@[2] != d[2] || dims@[3] != d[3]);
            }
        }
        r
    }
}

impl FaceTensorGroup {
    /// The heatmap has one batch and one channel, and gives the feature map's size.
    pub open spec fn heatmap_shape(self, layout: Layout) -> Option<FaceShape> {
        match self.heatmap {
            Some(tensor) => {
                let dims = tensor.dims@;
                let shape = match layout {
                    Layout::ChannelsLast => FaceShape { layout, rows: dims[1], columns: dims[2] },
                    Layout::ChannelsFirst => FaceShape { layout, rows: dims[2], columns: dims[3] },
                };
                if dims.len() == 4 && dims == shape.dims(1) {
                    Some(shape)
                } else {
                    None
                }
            },
            None => None,
        }
    }

    /// The other two tensors have the heatmap's size.
    pub open spec fn matches_shape(self, shape: FaceShape) -> bool {
        &&& self.boxes matches Some(boxes) && boxes.dims@ == shape.dims(BOX_CHANNELS)
        &&& self.landmarks matches Some(landmarks) && landmarks.dims@ == shape.dims(
            LANDMARK_CHANNELS,
        )
    }

    fn shape_of_heatmap(&self, layout: Layout) -> (r: Option<FaceShape>)
        ensures
            r == self.heatmap_shape(layout),
    {
        match &self.heatmap {
            Some(tensor) => {
                if tensor.dims.len() != 4 {
                    return None;
                }
                let shape = match layout {
                    Layout::ChannelsLast => FaceShape {
                        layout,
                        rows: tensor.dims[1],
                        columns: tensor.dims[2],
                    },
                    Layout::ChannelsFirst => FaceShape {
                        layout,
                        rows: tensor.dims[2],
                        columns: tensor.dims[3],
                    },
                };
                if shape.fits(&tensor.dims, 1) {
                    Some(shape)
                } else {
                    None
                }
            },
            None => None,
        }
    }

    fn has_shape(&self, shape: FaceShape) -> (r: bool)
        ensures
            r == self.matches_shape(shape),
    {
        let boxes: bool = match &self.boxes {
            Some(tensor) => shape.fits(&tensor.dims, BOX_CHANNELS),
            None => false,
        };
        let landmarks: bool = match &self.landmarks {
            Some(tensor) => shape.fits(&tensor.dims, LANDMARK_CHANNELS),
            None => false,
        };
        boxes && landmarks
    }
}

impl TensorSet {
    /// The group that counts: the one with the channels last, if it is there.
    pub open spec fn group(self) -> Option<(FaceTensorGroup, Layout)> {
        match (self.channels_last, self.channels_first) {
            (Some(group), _) => Some((group, Layout::ChannelsLast)),
            (None, Some(group)) => Some((group, Layout::ChannelsFirst)),
            (None, None) => None,
        }
    }

    /// The feature map's size, if the group's heatmap gives one.
    pub open spec fn shape(self) -> Option<FaceShape> {
        match self.group() {
            Some((group, layout)) => group.heatmap_shape(layout),
            None => None,
        }
    }
}

/// The first of the sets whose heatmap gives a size.
pub open spec fn first_shaped(sets: Seq<TensorSet>, i: int) -> bool {
    &&& 0 <= i < sets.len()
    &&& sets[i].shape() is Some
    &&& forall|k: int| 0 <= k < i ==> (#[trigger] sets[k]).shape() is None
}

/// Find the detector's tensors: the first set whose heatmap has a usable size decides. If
/// its other tensors do not have that size, there are none.
pub fn find_face_tensors(sets: &Vec<TensorSet>) -> (r: Option<(usize, FaceShape)>)
    ensures
        r matches Some((i, shape)) ==> {
            &&& first_shaped(sets@, i as int)
            &&& sets@[i as int].shape() == Some(shape)
            &&& (sets@[i as int].group()->0).0.matches_shape(shape)
        },
        r is None ==> forall|i: int| #[trigger]
            first_shaped(sets@, i) ==> !(sets@[i].group()->0).0.matches_shape(sets@[i].shape()->0),
{
    let mut i: usize = 0;
    while i < sets.len()
        invariant
            i <= sets.len(),
            forall|k: int| 0 <= k < i ==> (#[trigger] sets@[k]).shape() is None,
        decreases sets.len() - i,
    {
        let set = &sets[i];
        let found = match &set.channels_last {
            Some(group) => match group.shape_of_heatmap(Layout::ChannelsLast) {
                Some(shape) => Some((shape, group.has_shape(shape))),
                None => None,
            },
            None => match &set.channels_first {
                Some(group) => match group.shape_of_heatmap(Layout::ChannelsFirst) {
                    Some(shape) => Some((shape, group.has_shape(shape))),
                    None => None,
                },
                None => None,
            },
        };
        match found {
            Some((shape, fits)) => {
                assert(first_shaped(sets@, i as int));
                if fits {
                    return Some((i, shape));
                }
                proof {
                    assert forall|k: int| #[trigger] first_shaped(sets@, k) implies k == i by {
                        if k < i {
                            assert(sets@[k].shape() is None);
                        }
                        if k > i {
                            assert(sets@[i as int].shape() is None);
                        }
                    }
                }
                return None;
            },
            None => {},
        }
        i = i + 1;
    }
    None
}

/// Values in the order channel by channel, put in the order cell by cell.
pub open spec fn transposed(values: Seq<Scalar>, channels: int, cells: int) -> Seq<Scalar> {
    Seq::new(
        (channels * cells) as nat,
        |i: int| values[(i % channels) * cells + i / channels],
    )
}

/// The place of a channel's value for a cell in a tensor with the channels first.
proof fn lemma_channel_first(c: int, cell: int, channels: int, cells: int)
    requires
        0 <= c < channels,
        0 <= cell < cells,
    ensures
        0 <= c * cells + cell < channels * cells,
        0 <= cell * channels + c < channels * cells,
        (cell * channels + c) % channels == c,
        (cell * channels + c) / channels == cell,
{
    assert(0 <= c * cells + cell < channels * cells) by (nonlinear_arith)
        requires
            0 <= c < channels,
            0 <= cell < cells,
    ;
    assert(0 <= cell * channels + c < channels * cells) by (nonlinear_arith)
        requires
            0 <= c < channels,
            0 <= cell < cells,
    ;
    vstd::arithmetic::div_mod::lemma_fundamental_div_mod_converse(
        cell * channels + c,
        channels,
        cell,
        c,
    );
}

/// Transpose a tensor with the channels first into one with the channels last.
pub fn nchw_to_nhwc(
    values: &Vec<Scalar>,
    channels: usize,
    fm_h: usize,
    fm_w: usize,
) -> (r: Vec<Scalar>)
    requires
        fm_h * fm_w <= usize::MAX,
        channels * (fm_h * fm_w) <= values.len(),
    ensures
        r@ == transposed(values@, channels as int, fm_h * fm_w),
{
    let cells: usize = fm_h * fm_w;
    let ghost whole = transposed(values@, channels as int, cells as int);
    let mut out: Vec<Scalar> = Vec::new();
    let mut cell: usize = 0;
    if channels == 0 {
        assert(0 * cells == 0);
        assert(out@ =~= whole);
        return out;
    }
    assert(out@ =~= whole.take(0));
    assert(0 * channels == 0);
    while cell < cells
        invariant
            cell <= cells,
            0 < channels,
            channels * cells <= values.len(),
            whole == transposed(values@, channels as int, cells as int),
            out@ == whole.take(cell * channels),
        decreases cells - cell,
    {
        let mut c: usize = 0;
        while c < channels
            invariant
                cell < cells,
                c <= channels,
                channels * cells <= values.len(),
                whole == transposed(values@, channels as int, cells as int),
                out@ == whole.take(cell * channels + c),
            decreases channels - c,
        {
            proof {
                lemma_channel_first(c as int, cell as int, channels as int, cells as int);
                assert(0 <= c * cells) by (nonlinear_arith)
                    requires
                        0 <= c,
                        0 <= cells,
                ;
            }
            out.push(values[c * cells + cell]);
            assert(out@ =~= whole.take(cell * channels + c + 1));
            c = c + 1;
        }
        assert(cell * channels + channels == (cell + 1) * channels) by (nonlinear_arith);
        cell = cell + 1;
    }
    assert(cells * channels == channels * cells) by (nonlinear_arith);
    assert(whole.take(cell * channels) =~= whole);
    out
}

/// The value of every channel and cell is found in its new place.
pub proof fn law_transpose_moves_every_value(
    values: Seq<Scalar>,
    channels: int,
    cells: int,
    c: int,
    cell: int,
)
    requires
        0 <= c < channels,
        0 <= cell < cells,
        channels * cells <= values.len(),
    ensures
        transposed(values, channels, cells).len() == channels * cells,
        transposed(values, channels, cells)[cell * channels + c] == values[c * cells + cell],
{
    lemma_channel_first(c, cell, channels, cells);
}

/// The numbers that words are the bits of.
pub open spec fn scalars(words: Seq<u32>) -> Seq<Scalar> {
    Seq::new(words.len(), |i: int| Scalar { bits: words[i] })
}

/// A tensor's data holds at least that many numbers.
pub open spec fn holds_numbers(tensor: Option<Tensor>, n: int) -> bool {
    tensor matches Some(tensor) ==> (tensor.data matches Some(data) ==> 4 * n <= data@.len())
}

/// The numbers are those of the tensor's data.
pub open spec fn read_from(numbers: Seq<Scalar>, tensor: Option<Tensor>) -> bool {
    tensor matches Some(tensor) && tensor.data matches Some(data) && exists|words: Seq<u32>|
        #[trigger] crate::words::holds_words(data@, words) && numbers == scalars(words)
}

/// The tensor is there with its data, whose length is that of whole numbers.
pub open spec fn holds_whole_numbers(tensor: Option<Tensor>) -> bool {
    tensor matches Some(tensor) && tensor.data matches Some(data) && data@.len() % 4 == 0
}

/// The tensor is there with its data, which is empty and can be read at any address.
pub open spec fn holds_nothing(tensor: Option<Tensor>) -> bool {
    tensor matches Some(tensor) && tensor.data matches Some(data) && data@.len() == 0
}

/// The numbers of a tensor, if it is there and its data can be read as such.
fn read_numbers(tensor: &Option<Tensor>) -> (r: Option<Vec<Scalar>>)
    ensures
        r matches Some(numbers) ==> read_from(numbers@, *tensor),
        !holds_whole_numbers(*tensor) ==> r is None,
        holds_nothing(*tensor) ==> r is Some,
{
    match tensor {
        Some(tensor) => match &tensor.data {
            Some(data) => match words_in(data.as_slice()) {
                Ok(words) => {
                    let numbers = numbers_of(&words);
                    assert(crate::words::holds_words(data@, words@));
                    Some(numbers)
                },
                Err(_) => None,
            },
            None => None,
        },
        None => None,
    }
}

/// The numbers that words are the bits of.
pub fn numbers_of(words: &Vec<u32>) -> (r: Vec<Scalar>)
    ensures
        r@ == scalars(words@),
{
    let mut numbers: Vec<Scalar> = Vec::new();
    let mut i: usize = 0;
    while i < words.len()
        invariant
            i <= words.len(),
            numbers@ == scalars(words@).take(i as int),
        decreases words.len() - i,
    {
        numbers.push(Scalar::from_bits(words[i]));
        assert(numbers@ =~= scalars(words@).take(i + 1));
        i = i + 1;
    }
    assert(numbers@ =~= scalars(words@));
    numbers
}

/// The numbers of the detector's tensors, cell by cell.
#[derive(Debug)]
pub struct FaceTensors {
    pub heatmap: Vec<Scalar>,
    pub boxes: Vec<Scalar>,
    pub landmarks: Vec<Scalar>,
    pub rows: usize,
    pub columns: usize,
}

impl FaceTensors {
    /// There are numbers for every cell.
    pub open spec fn complete(self) -> bool {
        let cells = self.rows * self.columns;
        &&& cells <= self.heatmap.len()
        &&& BOX_CHANNELS * cells <= self.boxes.len()
        &&& LANDMARK_CHANNELS * cells <= self.landmarks.len()
    }

    /// There is a score for every cell.
    pub open spec fn mapped(self) -> bool {
        self.rows * self.columns <= self.heatmap.len()
    }

    /// There are numbers for the cell of a center.
    pub open spec fn covers(self, center: FacePeak) -> bool {
        let cell = center.row * self.columns + center.column;
        &&& BOX_CHANNELS * (cell + 1) <= self.boxes.len()
        &&& LANDMARK_CHANNELS * (cell + 1) <= self.landmarks.len()
    }

    /// There are numbers for the cells of all centers.
    pub open spec fn covers_all(self, centers: Seq<FacePeak>) -> bool {
        forall|i: int| 0 <= i < centers.len() ==> self.covers(#[trigger] centers[i])
    }

    /// Whether there is a score for every cell.
    pub fn is_mapped(&self) -> (r: bool)
        ensures
            r == self.mapped(),
    {
        match self.rows.checked_mul(self.columns) {
            Some(cells) => cells <= self.heatmap.len(),
            None => false,
        }
    }

    /// Whether there are numbers for the cells of all centers.
    pub fn covers_centers(&self, centers: &Vec<FacePeak>) -> (r: bool)
        ensures
            r == self.covers_all(centers@),
    {
        let mut i: usize = 0;
        while i < centers.len()
            invariant
                i <= centers.len(),
                forall|k: int| 0 <= k < i ==> self.covers(#[trigger] centers@[k]),
            decreases centers.len() - i,
        {
            let center = centers[i];
            assert(0 <= center.row * self.columns) by (nonlinear_arith)
                requires
                    0 <= center.row,
                    0 <= self.columns,
            ;
            let first: Option<usize> = center.row.checked_mul(self.columns);
            let cell: Option<usize> = match first {
                Some(first) => first.checked_add(center.column),
                None => None,
            };
            let covered: bool = match cell {
                Some(cell) => cell < self.boxes.len() / BOX_CHANNELS && cell < self.landmarks.len()
                    / LANDMARK_CHANNELS,
                None => false,
            };
            if !covered {
                assert(!self.covers(centers@[i as int]));
                return false;
            }
            i = i + 1;
        }
        true
    }
}

/// Numbers as they were read, put in the order cell by cell.
pub open spec fn arranged(numbers: Seq<Scalar>, shape: FaceShape, channels: int) -> Seq<Scalar> {
    match shape.layout {
        Layout::ChannelsLast => numbers,
        Layout::ChannelsFirst => transposed(numbers, channels, shape.rows * shape.columns),
    }
}

/// The heatmap, boxes and landmarks as they were read, put in the order cell by cell. The
/// heatmap has one channel, so that its order is the same either way.
pub fn arrange_face_tensors(
    heatmap: Vec<Scalar>,
    boxes: Vec<Scalar>,
    landmarks: Vec<Scalar>,
    shape: FaceShape,
) -> (r: FaceTensors)
    requires
        shape.layout == Layout::ChannelsFirst ==> BOX_CHANNELS * (shape.rows * shape.columns)
            <= boxes.len() && LANDMARK_CHANNELS * (shape.rows * shape.columns) <= landmarks.len(),
    ensures
        r.heatmap@ == heatmap@,
        r.boxes@ == arranged(boxes@, shape, BOX_CHANNELS as int),
        r.landmarks@ == arranged(landmarks@, shape, LANDMARK_CHANNELS as int),
        r.rows == shape.rows,
        r.columns == shape.columns,
{
    assert(0 <= shape.rows * shape.columns) by (nonlinear_arith)
        requires
            0 <= shape.rows,
            0 <= shape.columns,
    ;
    match shape.layout {
        Layout::ChannelsLast => FaceTensors {
            heatmap,
            boxes,
            landmarks,
            rows: shape.rows,
            columns: shape.columns,
        },
        Layout::ChannelsFirst => FaceTensors {
            heatmap,
            boxes: nchw_to_nhwc(&boxes, BOX_CHANNELS, shape.rows, shape.columns),
            landmarks: nchw_to_nhwc(&landmarks, LANDMARK_CHANNELS, shape.rows, shape.columns),
            rows: shape.rows,
            columns: shape.columns,
        },
    }
}

/// The tensors' numbers can be put in order cell by cell, if all of them can be read: those
/// with the channels first hold numbers for every cell.
pub open spec fn arrangeable(group: FaceTensorGroup, shape: FaceShape) -> bool {
    shape.layout == Layout::ChannelsFirst && holds_whole_numbers(group.heatmap)
        && holds_whole_numbers(group.boxes) && holds_whole_numbers(group.landmarks) ==> {
        &&& holds_numbers(group.boxes, BOX_CHANNELS * (shape.rows * shape.columns))
        &&& holds_numbers(group.landmarks, LANDMARK_CHANNELS * (shape.rows * shape.columns))
    }
}

/// How many numbers the tensor's data holds, if it is there and its length is that of whole
/// numbers.
fn whole_numbers(tensor: &Option<Tensor>) -> (r: Option<usize>)
    ensures
        (r is Some) == holds_whole_numbers(*tensor),
        r matches Some(n) ==> forall|m: int| #[trigger] holds_numbers(*tensor, m) == (m <= n),
{
    match tensor {
        Some(tensor) => match &tensor.data {
            Some(data) => if data.len() % 4 == 0 {
                Some(data.len() / 4)
            } else {
                None
            },
            None => None,
        },
        None => None,
    }
}

/// Whether the tensors' numbers can be put in order cell by cell.
pub fn is_arrangeable(group: &FaceTensorGroup, shape: FaceShape) -> (r: bool)
    ensures
        r == arrangeable(*group, shape),
{
    match shape.layout {
        Layout::ChannelsLast => {
            return true;
        },
        Layout::ChannelsFirst => {},
    }
    let heatmap = whole_numbers(&group.heatmap);
    match (heatmap, whole_numbers(&group.boxes), whole_numbers(&group.landmarks)) {
        (Some(_), Some(boxes), Some(landmarks)) => {
            assert(0 <= shape.rows * shape.columns) by (nonlinear_arith)
                requires
                    0 <= shape.rows,
                    0 <= shape.columns,
            ;
            match shape.rows.checked_mul(shape.columns) {
                Some(cells) => cells <= boxes / BOX_CHANNELS && cells <= landmarks
                    / LANDMARK_CHANNELS,
                None => false,
            }
        },
        _ => true,
    }
}

/// Read the detector's tensors: nothing, if one of them is missing or cannot be read as
/// numbers. Whether data can be read depends on its length and, unless it is empty, on the
/// address it lies at.
pub fn read_face_tensors(group: &FaceTensorGroup, shape: FaceShape) -> (r: Option<FaceTensors>)
    requires
        arrangeable(*group, shape),
    ensures
        r matches Some(tensors) ==> {
            &&& read_from(tensors.heatmap@, group.heatmap)
            &&& exists|boxes: Seq<Scalar>| #[trigger]
                read_from(boxes, group.boxes) && tensors.boxes@ == arranged(
                    boxes,
                    shape,
                    BOX_CHANNELS as int,
                )
            &&& exists|landmarks: Seq<Scalar>| #[trigger]
                read_from(landmarks, group.landmarks) && tensors.landmarks@ == arranged(
                    landmarks,
                    shape,
                    LANDMARK_CHANNELS as int,
                )
            &&& tensors.rows == shape.rows
            &&& tensors.columns == shape.columns
        },
        !holds_whole_numbers(group.heatmap) || !holds_whole_numbers(group.boxes)
            || !holds_whole_numbers(group.landmarks) ==> r is None,
        holds_nothing(group.heatmap) && holds_nothing(group.boxes) && holds_nothing(
            group.landmarks,
        ) ==> r is Some,
{
    match read_numbers(&group.heatmap) {
        Some(heatmap) => match read_numbers(&group.boxes) {
            Some(boxes) => match read_numbers(&group.landmarks) {
                Some(landmarks) => {
                    assert(read_from(boxes@, group.boxes));
                    assert(read_from(landmarks@, group.landmarks));
                    Some(arrange_face_tensors(heatmap, boxes, landmarks, shape))
                },
                None => None,
            },
            None => None,
        },
        None => None,
    }
}

/// The number zero.
pub open spec fn zero() -> Scalar {
    Scalar { bits: 0 }
}

/// A cell at most one row and one column away.
pub open spec fn near(r: int, c: int, pr: int, pc: int, rows: int, columns: int) -> bool {
    &&& 0 <= pr < rows && r - 1 <= pr <= r + 1
    &&& 0 <= pc < columns && c - 1 <= pc <= c + 1
}

/// A cell is a peak: not negative, and not below any cell around it. What is not a number
/// is no peak, and is in no other cell's way.
pub open spec fn is_peak(
    heatmap: Seq<Scalar>,
    rows: int,
    columns: int,
    r: int,
    c: int,
) -> bool {
    let value = heatmap[r * columns + c];
    &&& value.at_or_above(zero())
    &&& forall|pr: int, pc: int|
        near(r, c, pr, pc, rows, columns) && !heatmap[pr * columns + pc].is_nan()
            ==> value.at_or_above(#[trigger] heatmap[pr * columns + pc])
}

/// A heatmap with everything but its peaks set to zero.
pub open spec fn peaks_only(heatmap: Seq<Scalar>, rows: int, columns: int) -> Seq<Scalar> {
    Seq::new(
        (rows * columns) as nat,
        |i: int|
            if is_peak(heatmap, rows, columns, i / columns, i % columns) {
                heatmap[i]
            } else {
                zero()
            },
    )
}

proof fn lemma_cell(r: int, c: int, rows: int, columns: int)
    requires
        0 <= r < rows,
        0 <= c < columns,
    ensures
        0 <= r * columns + c < rows * columns,
        0 <= r * columns,
        (r * columns + c) / columns == r,
        (r * columns + c) % columns == c,
{
    assert(0 <= r * columns && r * columns + c < rows * columns) by (nonlinear_arith)
        requires
            0 <= r < rows,
            0 <= c < columns,
    ;
    vstd::arithmetic::div_mod::lemma_fundamental_div_mod_converse(r * columns + c, columns, r, c);
}

/// The largest value around a cell, or zero if none is larger.
fn largest_near(
    heatmap: &Vec<Scalar>,
    rows: usize,
    columns: usize,
    r: usize,
    c: usize,
) -> (m: Scalar)
    requires
        rows * columns <= heatmap.len(),
        r < rows,
        c < columns,
    ensures
        !m.is_nan(),
        m.at_or_above(zero()),
        forall|pr: int, pc: int|
            near(r as int, c as int, pr, pc, rows as int, columns as int) && !heatmap@[pr * columns
                + pc].is_nan() ==> m.at_or_above(#[trigger] heatmap@[pr * columns + pc]),
        m == zero() || exists|pr: int, pc: int|
            near(r as int, c as int, pr, pc, rows as int, columns as int) && #[trigger] heatmap@[pr
                * columns + pc] == m,
{
    let r_start: usize = if r > 0 {
        r - 1
    } else {
        0
    };
    let r_end: usize = if r + 1 < rows {
        r + 1
    } else {
        rows - 1
    };
    let c_start: usize = if c > 0 {
        c - 1
    } else {
        0
    };
    let c_end: usize = if c + 1 < columns {
        c + 1
    } else {
        columns - 1
    };
    let mut m = Scalar::from_bits(0);
    let mut pr: usize = r_start;
    while pr <= r_end
        invariant
            r < rows,
            c < columns,
            r_start <= pr <= r_end + 1,
            r_end < rows,
            c_end < columns,
            r_start == (if r > 0 {
                r - 1
            } else {
                0
            }),
            r_end == (if r + 1 < rows {
                r + 1
            } else {
                rows - 1
            }),
            c_start == (if c > 0 {
                c - 1
            } else {
                0
            }),
            c_end == (if c + 1 < columns {
                c + 1
            } else {
                columns - 1
            }),
            rows * columns <= heatmap.len(),
            !m.is_nan(),
            m.at_or_above(zero()),
            forall|qr: int, qc: int|
                near(r as int, c as int, qr, qc, rows as int, columns as int) && qr < pr
                    && !heatmap@[qr * columns + qc].is_nan() ==> m.at_or_above(
                    #[trigger] heatmap@[qr * columns + qc],
                ),
            m == zero() || exists|qr: int, qc: int|
                near(r as int, c as int, qr, qc, rows as int, columns as int)
                    && #[trigger] heatmap@[qr * columns + qc] == m,
        decreases r_end + 1 - pr,
    {
        let mut pc: usize = c_start;
        while pc <= c_end
            invariant
                r < rows,
                c < columns,
                r_start <= pr <= r_end,
                r_end < rows,
                c_start <= pc <= c_end + 1,
                c_end < columns,
                r_start == (if r > 0 {
                    r - 1
                } else {
                    0
                }),
                r_end == (if r + 1 < rows {
                    r + 1
                } else {
                    rows - 1
                }),
                c_start == (if c > 0 {
                    c - 1
                } else {
                    0
                }),
                c_end == (if c + 1 < columns {
                    c + 1
                } else {
                    columns - 1
                }),
                rows * columns <= heatmap.len(),
                !m.is_nan(),
                m.at_or_above(zero()),
                forall|qr: int, qc: int|
                    near(r as int, c as int, qr, qc, rows as int, columns as int) && (qr < pr || qr
                        == pr && qc < pc) && !heatmap@[qr * columns + qc].is_nan()
                        ==> m.at_or_above(#[trigger] heatmap@[qr * columns + qc]),
                m == zero() || exists|qr: int, qc: int|
                    near(r as int, c as int, qr, qc, rows as int, columns as int)
                        && #[trigger] heatmap@[qr * columns + qc] == m,
            decreases c_end + 1 - pc,
        {
            proof {
                lemma_cell(pr as int, pc as int, rows as int, columns as int);
            }
            let v = heatmap[pr * columns + pc];
            assert(heatmap@[pr * columns + pc] == v);
            if m.less_than(v) {
                m = v;
            }
            pc = pc + 1;
        }
        pr = pr + 1;
    }
    m
}

/// 3x3 max-pool with stride 1: keeps the peaks of a heatmap and sets the rest to zero.
pub fn max_pool_nms(heatmap: &Vec<Scalar>, fm_h: usize, fm_w: usize) -> (r: Vec<Scalar>)
    requires
        fm_h * fm_w <= heatmap.len(),
    ensures
        r@ == peaks_only(heatmap@, fm_h as int, fm_w as int),
{
    let ghost whole = peaks_only(heatmap@, fm_h as int, fm_w as int);
    let mut pooled: Vec<Scalar> = Vec::new();
    let mut r: usize = 0;
    assert(0 * fm_w == 0);
    assert(pooled@ =~= whole.take(0));
    while r < fm_h
        invariant
            r <= fm_h,
            fm_h * fm_w <= heatmap.len(),
            whole == peaks_only(heatmap@, fm_h as int, fm_w as int),
            pooled@ == whole.take(r * fm_w),
        decreases fm_h - r,
    {
        let mut c: usize = 0;
        while c < fm_w
            invariant
                r < fm_h,
                c <= fm_w,
                fm_h * fm_w <= heatmap.len(),
                whole == peaks_only(heatmap@, fm_h as int, fm_w as int),
                pooled@ == whole.take(r * fm_w + c),
            decreases fm_w - c,
        {
            let largest = largest_near(heatmap, fm_h, fm_w, r, c);
            proof {
                lemma_cell(r as int, c as int, fm_h as int, fm_w as int);
            }
            let value = heatmap[r * fm_w + c];
            let kept = if value.reaches(largest) {
                value
            } else {
                Scalar::from_bits(0)
            };
            proof {
                let peak = is_peak(heatmap@, fm_h as int, fm_w as int, r as int, c as int);
                assert(heatmap@[r * fm_w + c] == value);
                if peak {
                    if largest != zero() {
                        let (pr, pc) = choose|pr: int, pc: int|
                            near(r as int, c as int, pr, pc, fm_h as int, fm_w as int)
                                && #[trigger] heatmap@[pr * fm_w + pc] == largest;
                        assert(value.at_or_above(heatmap@[pr * fm_w + pc]));
                    }
                    assert(value.at_or_above(largest));
                }
                if value.at_or_above(largest) {
                    assert forall|pr: int, pc: int|
                        near(r as int, c as int, pr, pc, fm_h as int, fm_w as int)
                            && !heatmap@[pr * fm_w + pc].is_nan() implies value.at_or_above(
                        #[trigger] heatmap@[pr * fm_w + pc],
                    ) by {
                        assert(largest.at_or_above(heatmap@[pr * fm_w + pc]));
                    }
                    assert(peak);
                }
            }
            pooled.push(kept);
            assert(pooled@ =~= whole.take(r * fm_w + c + 1));
            c = c + 1;
        }
        assert(r * fm_w + fm_w == (r + 1) * fm_w) by (nonlinear_arith);
        r = r + 1;
    }
    assert(whole.take(r * fm_w) =~= whole);
    pooled
}

/// A face's center: its cell and score.
#[derive(Debug, Clone, Copy, PartialEq, Eq, Structural)]
pub struct FacePeak {
    pub row: usize,
    pub column: usize,
    pub score: Scalar,
}

/// The cells whose score reaches the threshold, row by row.
pub open spec fn centers(scores: Seq<Scalar>, columns: int, threshold: Scalar) -> Seq<FacePeak>
    decreases scores.len(),
{
    if scores.len() == 0 {
        Seq::empty()
    } else {
        let before = centers(scores.drop_last(), columns, threshold);
        let i = scores.len() - 1;
        if scores[i].at_or_above(threshold) {
            before.push(
                FacePeak {
                    row: (i / columns) as usize,
                    column: (i % columns) as usize,
                    score: scores[i],
                },
            )
        } else {
            before
        }
    }
}

/// The cells whose score reaches the threshold, row by row.
pub fn collect_centers(scores: &Vec<Scalar>, fm_w: usize, threshold: Scalar) -> (r: Vec<FacePeak>)
    requires
        scores.len() > 0 ==> fm_w > 0,
    ensures
        r@ == centers(scores@, fm_w as int, threshold),
{
    let mut found: Vec<FacePeak> = Vec::new();
    let mut i: usize = 0;
    assert(scores@.take(0) =~= Seq::<Scalar>::empty());
    while i < scores.len()
        invariant
            i <= scores.len(),
            scores.len() > 0 ==> fm_w > 0,
            found@ == centers(scores@.take(i as int), fm_w as int, threshold),
        decreases scores.len() - i,
    {
        proof {
            let next = scores@.take(i + 1);
            assert(next.drop_last() =~= scores@.take(i as int));
            assert(next[i as int] == scores@[i as int]);
        }
        let score = scores[i];
        if score.reaches(threshold) {
            found.push(FacePeak { row: i / fm_w, column: i % fm_w, score });
        }
        i = i + 1;
    }
    assert(scores@.take(i as int) =~= scores@);
    found
}

/// What the tensors say of one cell: the offsets of the box's edges (left, top, right,
/// bottom), and those of the landmarks.
#[derive(Debug)]
pub struct FaceCell {
    pub center: FacePeak,
    pub edges: Vec<Scalar>,
    pub landmark_xs: Vec<Scalar>,
    pub landmark_ys: Vec<Scalar>,
}

impl FaceCell {
    /// The cell holds the tensors' values at a center.
    pub open spec fn taken_from(self, tensors: FaceTensors, center: FacePeak) -> bool {
        let cell = center.row * tensors.columns + center.column;
        &&& self.center == center
        &&& self.edges@ == tensors.boxes@.subrange(4 * cell, 4 * cell + 4)
        &&& self.landmark_xs@ == tensors.landmarks@.subrange(10 * cell, 10 * cell + 5)
        &&& self.landmark_ys@ == tensors.landmarks@.subrange(10 * cell + 5, 10 * cell + 10)
    }
}

/// A part of a list.
fn part(values: &Vec<Scalar>, from: usize, to: usize) -> (r: Vec<Scalar>)
    requires
        from <= to <= values.len(),
    ensures
        r@ == values@.subrange(from as int, to as int),
{
    let mut out: Vec<Scalar> = Vec::new();
    let mut i: usize = from;
    while i < to
        invariant
            from <= i <= to <= values.len(),
            out@ == values@.subrange(from as int, i as int),
        decreases to - i,
    {
        out.push(values[i]);
        assert(out@ =~= values@.subrange(from as int, i + 1));
        i = i + 1;
    }
    out
}

/// What the tensors say of the cell of a center.
pub fn cell_at(tensors: &FaceTensors, center: FacePeak) -> (r: FaceCell)
    requires
        tensors.covers(center),
    ensures
        r.taken_from(*tensors, center),
{
    assert(0 <= center.row * tensors.columns) by (nonlinear_arith)
        requires
            0 <= center.row,
            0 <= tensors.columns,
    ;
    let cell: usize = center.row * tensors.columns + center.column;
    FaceCell {
        center,
        edges: part(&tensors.boxes, cell * BOX_CHANNELS, cell * BOX_CHANNELS + BOX_CHANNELS),
        landmark_xs: part(
            &tensors.landmarks,
            cell * LANDMARK_CHANNELS,
            cell * LANDMARK_CHANNELS + NUM_LANDMARKS,
        ),
        landmark_ys: part(
            &tensors.landmarks,
            cell * LANDMARK_CHANNELS + NUM_LANDMARKS,
            cell * LANDMARK_CHANNELS + LANDMARK_CHANNELS,
        ),
    }
}

/// Every center lies on the feature map.
proof fn lemma_centers_on_map(
    scores: Seq<Scalar>,
    rows: int,
    columns: int,
    threshold: Scalar,
    n: int,
)
    requires
        0 <= n <= scores.len(),
        scores.len() == rows * columns,
        0 <= rows <= usize::MAX,
        0 <= columns <= usize::MAX,
    ensures
        forall|k: int|
            0 <= k < centers(scores.take(n), columns, threshold).len() ==> (#[trigger] centers(
                scores.take(n),
                columns,
                threshold,
            )[k]).row < rows && centers(scores.take(n), columns, threshold)[k].column < columns,
    decreases n,
{
    if n > 0 {
        lemma_centers_on_map(scores, rows, columns, threshold, n - 1);
        let all = scores.take(n);
        assert(all.drop_last() =~= scores.take(n - 1));
        let i = n - 1;
        assert(columns > 0) by (nonlinear_arith)
            requires
                0 < rows * columns,
                0 <= rows,
                0 <= columns,
        ;
        assert(rows * columns == columns * rows) by (nonlinear_arith);
        vstd::arithmetic::div_mod::lemma_multiply_divide_lt(i, columns, rows);
        vstd::arithmetic::div_mod::lemma_div_is_ordered(0, i, columns);
        vstd::arithmetic::div_mod::lemma_mod_bound(i, columns);
        let before = centers(all.drop_last(), columns, threshold);
        let after = centers(all, columns, threshold);
        assert forall|k: int| 0 <= k < after.len() implies (#[trigger] after[k]).row < rows
            && after[k].column < columns by {
            if k < before.len() {
                assert(after[k] == before[k]);
            }
        }
    } else {
        assert(scores.take(0) =~= Seq::<Scalar>::empty());
    }
}

/// The scores of centers.
pub open spec fn center_scores(found: Seq<FacePeak>) -> Seq<Scalar> {
    Seq::new(found.len(), |i: int| found[i].score)
}

/// `activated` are scores that `activate` may give for the heatmap's values.
pub open spec fn activated_from<A: Fn(Scalar) -> Scalar>(
    activate: A,
    heatmap: Seq<Scalar>,
    activated: Seq<Scalar>,
) -> bool {
    &&& activated.len() == heatmap.len()
    &&& forall|i: int|
        0 <= i < heatmap.len() ==> activate.ensures((heatmap[i],), #[trigger] activated[i])
}

/// The candidates are decoded from the found centers, the highest score first.
pub open spec fn decoded_from<T, D: Fn(&FaceCell) -> T>(
    decode: D,
    tensors: FaceTensors,
    found: Seq<FacePeak>,
    order: Seq<usize>,
    candidates: Seq<T>,
) -> bool {
    &&& crate::ranking::is_ranking(
        order,
        crate::suppress::score_keys(center_scores(found)),
        found.len() as int,
    )
    &&& candidates.len() == found.len()
    &&& forall|i: int|
        0 <= i < candidates.len() ==> decodes(
            decode,
            tensors,
            found[order[i] as int],
            #[trigger] candidates[i],
        )
}

/// A candidate is decoded from a center's cell.
pub open spec fn decodes<T, D: Fn(&FaceCell) -> T>(
    decode: D,
    tensors: FaceTensors,
    center: FacePeak,
    candidate: T,
) -> bool {
    exists|cell: FaceCell|
        cell.taken_from(tensors, center) && #[trigger] decode.ensures((&cell,), candidate)
}

/// Candidates by descending score, and which of them are faces.
#[derive(Debug)]
pub struct Detections<T> {
    pub candidates: Vec<T>,
    pub chosen: Vec<usize>,
}

/// The centers of a heatmap of activated scores.
pub open spec fn centers_of(
    activated: Seq<Scalar>,
    rows: int,
    columns: int,
    threshold: Scalar,
) -> Seq<FacePeak> {
    centers(peaks_only(activated, rows, columns), columns, threshold)
}

/// Where there are numbers for every cell, there are for the cells of all centers, whatever
/// the activated scores are.
pub proof fn law_complete_tensors_cover_all_centers(
    tensors: FaceTensors,
    activated: Seq<Scalar>,
    threshold: Scalar,
)
    requires
        tensors.complete(),
    ensures
        tensors.mapped(),
        tensors.covers_all(
            centers_of(activated, tensors.rows as int, tensors.columns as int, threshold),
        ),
{
    let rows = tensors.rows as int;
    let columns = tensors.columns as int;
    let pooled = peaks_only(activated, rows, columns);
    let found = centers_of(activated, rows, columns, threshold);
    assert(0 <= rows * columns) by (nonlinear_arith)
        requires
            0 <= rows,
            0 <= columns,
    ;
    lemma_centers_on_map(pooled, rows, columns, threshold, pooled.len() as int);
    assert(pooled.take(pooled.len() as int) =~= pooled);
    assert forall|i: int| 0 <= i < found.len() implies tensors.covers(#[trigger] found[i]) by {
        assert(found[i].row < rows && found[i].column < columns);
        lemma_cell(found[i].row as int, found[i].column as int, rows, columns);
    }
}

/// What the detector finds, with `activated` the scores of the heatmap.
pub open spec fn are_detections<
    T,
    A: Fn(Scalar) -> Scalar,
    D: Fn(&FaceCell) -> T,
    O: Fn(&T, &T) -> Scalar,
>(
    tensors: FaceTensors,
    settings: Settings,
    activate: A,
    decode: D,
    overlap: O,
    activated: Seq<Scalar>,
    order: Seq<usize>,
    detections: Detections<T>,
) -> bool {
    &&& activated_from(activate, tensors.heatmap@, activated)
    &&& decoded_from(
        decode,
        tensors,
        centers_of(
            activated,
            tensors.rows as int,
            tensors.columns as int,
            settings.confidence_threshold,
        ),
        order,
        detections.candidates@,
    )
    &&& crate::suppress::is_selection(
        detections.candidates@,
        overlap,
        settings.nms_iou_threshold,
        settings.max_detections as int,
        detections.chosen@,
    )
}

/// Find the centers of faces: activate the heatmap, and keep its peaks that reach the
/// threshold.
pub fn face_centers<A: Fn(Scalar) -> Scalar>(
    tensors: &FaceTensors,
    settings: &Settings,
    activate: &A,
) -> (r: Vec<FacePeak>)
    requires
        tensors.mapped(),
        forall|value: Scalar| activate.requires((value,)),
    ensures
        exists|activated: Seq<Scalar>|
            #[trigger] activated_from(*activate, tensors.heatmap@, activated) && r@ == centers_of(
                activated,
                tensors.rows as int,
                tensors.columns as int,
                settings.confidence_threshold,
            ),
        forall|k: int|
            0 <= k < r@.len() ==> (#[trigger] r@[k]).row < tensors.rows && r@[k].column
                < tensors.columns,
{
    let mut activated: Vec<Scalar> = Vec::new();
    let mut i: usize = 0;
    while i < tensors.heatmap.len()
        invariant
            i <= tensors.heatmap.len(),
            i == activated@.len(),
            forall|value: Scalar| activate.requires((value,)),
            forall|k: int|
                0 <= k < i ==> activate.ensures(
                    (tensors.heatmap@[k],),
                    #[trigger] activated@[k],
                ),
        decreases tensors.heatmap.len() - i,
    {
        activated.push(activate(tensors.heatmap[i]));
        i = i + 1;
    }
    let rows: usize = tensors.rows;
    let columns: usize = tensors.columns;
    let pooled = max_pool_nms(&activated, rows, columns);
    assert(0 <= rows * columns) by (nonlinear_arith)
        requires
            0 <= rows,
            0 <= columns,
    ;
    proof {
        if columns == 0 {
            assert(rows * columns == 0) by (nonlinear_arith)
                requires
                    columns == 0,
            ;
        }
    }
    let found = collect_centers(&pooled, columns, settings.confidence_threshold);
    proof {
        lemma_centers_on_map(
            pooled@,
            rows as int,
            columns as int,
            settings.confidence_threshold,
            pooled@.len() as int,
        );
        assert(pooled@.take(pooled@.len() as int) =~= pooled@);
        assert(activated_from(*activate, tensors.heatmap@, activated@));
    }
    found
}

/// Decode the faces around the found centers, and suppress those that overlap a better one.
pub fn decode_faces<T, D: Fn(&FaceCell) -> T, O: Fn(&T, &T) -> Scalar>(
    tensors: &FaceTensors,
    settings: &Settings,
    found: &Vec<FacePeak>,
    decode: &D,
    overlap: &O,
) -> (r: Detections<T>)
    requires
        tensors.covers_all(found@),
        forall|cell: &FaceCell| decode.requires((cell,)),
        forall|a: &T, b: &T| overlap.requires((a, b)),
    ensures
        exists|order: Seq<usize>|
            #[trigger] decoded_from(*decode, *tensors, found@, order, r.candidates@),
        crate::suppress::is_selection(
            r.candidates@,
            *overlap,
            settings.nms_iou_threshold,
            settings.max_detections as int,
            r.chosen@,
        ),
{
    let mut scores: Vec<Scalar> = Vec::new();
    let mut k: usize = 0;
    while k < found.len()
        invariant
            k <= found.len(),
            scores@ == center_scores(found@).take(k as int),
        decreases found.len() - k,
    {
        scores.push(found[k].score);
        assert(scores@ =~= center_scores(found@).take(k + 1));
        k = k + 1;
    }
    assert(scores@ =~= center_scores(found@));
    let order = rank_scores(&scores);
    let mut candidates: Vec<T> = Vec::new();
    let mut n: usize = 0;
    while n < order.len()
        invariant
            n <= order.len(),
            n == candidates@.len(),
            order@.len() == found@.len(),
            tensors.covers_all(found@),
            forall|cell: &FaceCell| decode.requires((cell,)),
            forall|j: int| 0 <= j < order@.len() ==> #[trigger] order@[j] < found@.len(),
            forall|j: int|
                0 <= j < n ==> decodes(
                    *decode,
                    *tensors,
                    found@[order@[j] as int],
                    #[trigger] candidates@[j],
                ),
        decreases order.len() - n,
    {
        let at: usize = order[n];
        assert(tensors.covers(found@[at as int]));
        let cell = cell_at(tensors, found[at]);
        let candidate = decode(&cell);
        assert(decodes(*decode, *tensors, found@[order@[n as int] as int], candidate));
        candidates.push(candidate);
        n = n + 1;
    }
    let chosen = suppress_overlaps(
        &candidates,
        settings.max_detections as usize,
        settings.nms_iou_threshold,
        overlap,
    );
    let r = Detections { candidates, chosen };
    assert(decoded_from(*decode, *tensors, found@, order@, r.candidates@));
    r
}

/// Find the faces: activate the heatmap, keep its peaks that reach the threshold, decode
/// them, and suppress those that overlap a better one. The arithmetic on the numbers is
/// `activate`'s, `decode`'s and `overlap`'s.
pub fn detect_faces<
    T,
    A: Fn(Scalar) -> Scalar,
    D: Fn(&FaceCell) -> T,
    O: Fn(&T, &T) -> Scalar,
>(
    tensors: &FaceTensors,
    settings: &Settings,
    activate: &A,
    decode: &D,
    overlap: &O,
) -> (r: Detections<T>)
    requires
        tensors.mapped(),
        forall|activated: Seq<Scalar>|
            #[trigger] activated_from(*activate, tensors.heatmap@, activated)
                ==> tensors.covers_all(
                centers_of(
                    activated,
                    tensors.rows as int,
                    tensors.columns as int,
                    settings.confidence_threshold,
                ),
            ),
        forall|value: Scalar| activate.requires((value,)),
        forall|cell: &FaceCell| decode.requires((cell,)),
        forall|a: &T, b: &T| overlap.requires((a, b)),
    ensures
        exists|activated: Seq<Scalar>, order: Seq<usize>|
            #[trigger] are_detections(
                *tensors,
                *settings,
                *activate,
                *decode,
                *overlap,
                activated,
                order,
                r,
            ),
{
    let found = face_centers(tensors, settings, activate);
    let ghost activated = choose|activated: Seq<Scalar>|
        #[trigger] activated_from(*activate, tensors.heatmap@, activated) && found@ == centers_of(
            activated,
            tensors.rows as int,
            tensors.columns as int,
            settings.confidence_threshold,
        );
    let r = decode_faces(tensors, settings, &found, decode, overlap);
    proof {
        let order = choose|order: Seq<usize>|
            #[trigger] decoded_from(*decode, *tensors, found@, order, r.candidates@);
        assert(are_detections(
            *tensors,
            *settings,
            *activate,
            *decode,
            *overlap,
            activated,
            order,
            r,
        ));
    }
    r
}

/// A cell that is left after pooling is a peak, or there is nothing of it.
pub proof fn law_only_peaks_survive(heatmap: Seq<Scalar>, rows: int, columns: int, r: int, c: int)
    requires
        0 <= r < rows,
        0 <= c < columns,
        rows * columns <= heatmap.len(),
    ensures
        is_peak(heatmap, rows, columns, r, c) ==> peaks_only(heatmap, rows, columns)[r * columns
            + c] == heatmap[r * columns + c],
        !is_peak(heatmap, rows, columns, r, c) ==> peaks_only(heatmap, rows, columns)[r * columns
            + c] == zero(),
{
    lemma_cell(r, c, rows, columns);
}

/// What a cell says of its center is what the tensors said before they were put in order. A
/// tensor with the channels first holds the number of channel `k` for a cell at
/// `[0][k][row][column]`, one with the channels last at `[0][row][column][k]`. The edges are
/// the four channels of the boxes, the landmarks' horizontal offsets the first five channels
/// of the landmarks, and their vertical ones the other five.
pub proof fn law_cells_hold_the_numbers_of_their_place(
    boxes: Vec<Scalar>,
    landmarks: Vec<Scalar>,
    shape: FaceShape,
    tensors: FaceTensors,
    center: FacePeak,
    cell: FaceCell,
    k: int,
)
    requires
        tensors.boxes@ == arranged(boxes@, shape, 4),
        tensors.landmarks@ == arranged(landmarks@, shape, 10),
        tensors.rows == shape.rows,
        tensors.columns == shape.columns,
        4 * (shape.rows * shape.columns) <= boxes@.len(),
        10 * (shape.rows * shape.columns) <= landmarks@.len(),
        center.row < shape.rows,
        center.column < shape.columns,
        cell.taken_from(tensors, center),
    ensures
        cell.center == center,
        cell.edges@.len() == 4,
        cell.landmark_xs@.len() == 5,
        cell.landmark_ys@.len() == 5,
        shape.layout == Layout::ChannelsFirst && 0 <= k < 4 ==> cell.edges@[k] == boxes@[(k
            * shape.rows + center.row) * shape.columns + center.column],
        shape.layout == Layout::ChannelsFirst && 0 <= k < 5 ==> cell.landmark_xs@[k]
            == landmarks@[(k * shape.rows + center.row) * shape.columns + center.column],
        shape.layout == Layout::ChannelsFirst && 0 <= k < 5 ==> cell.landmark_ys@[k]
            == landmarks@[((5 + k) * shape.rows + center.row) * shape.columns + center.column],
        shape.layout == Layout::ChannelsLast && 0 <= k < 4 ==> cell.edges@[k] == boxes@[(center.row
            * shape.columns + center.column) * 4 + k],
        shape.layout == Layout::ChannelsLast && 0 <= k < 5 ==> cell.landmark_xs@[k]
            == landmarks@[(center.row * shape.columns + center.column) * 10 + k],
        shape.layout == Layout::ChannelsLast && 0 <= k < 5 ==> cell.landmark_ys@[k]
            == landmarks@[(center.row * shape.columns + center.column) * 10 + 5 + k],
{
    let rows = shape.rows as int;
    let columns = shape.columns as int;
    let cells = rows * columns;
    let row = center.row as int;
    let at = row * columns + center.column;
    lemma_cell(row, center.column as int, rows, columns);
    assert((k * rows + row) * columns == k * cells + row * columns) by (nonlinear_arith)
        requires
            cells == rows * columns,
    ;
    assert(((5 + k) * rows + row) * columns == (5 + k) * cells + row * columns)
        by (nonlinear_arith)
        requires
            cells == rows * columns,
    ;
    if shape.layout == Layout::ChannelsFirst {
        if 0 <= k < 4 {
            law_transpose_moves_every_value(boxes@, 4, cells, k, at);
        }
        if 0 <= k < 5 {
            law_transpose_moves_every_value(landmarks@, 10, cells, k, at);
            law_transpose_moves_every_value(landmarks@, 10, cells, 5 + k, at);
        }
        assert(tensors.boxes@.len() == 4 * cells);
        assert(tensors.landmarks@.len() == 10 * cells);
    }
}

/// The centers of a list of scores, row by row: where each lies, and that none is missing.
proof fn lemma_centers_by_place(scores: Seq<Scalar>, columns: int, threshold: Scalar)
    requires
        0 < columns,
        scores.len() <= usize::MAX,
    ensures
        forall|i: int|
            #![trigger centers(scores, columns, threshold)[i]]
            0 <= i < centers(scores, columns, threshold).len() ==> {
                let f = centers(scores, columns, threshold)[i];
                let at = f.row * columns + f.column;
                &&& 0 <= at < scores.len()
                &&& f.column < columns
                &&& f.score == scores[at]
                &&& f.score.at_or_above(threshold)
            },
        forall|i: int, j: int|
            #![trigger centers(scores, columns, threshold)[i], centers(scores, columns, threshold)[j]]
            0 <= i < j < centers(scores, columns, threshold).len() ==> centers(
                scores,
                columns,
                threshold,
            )[i].row * columns + centers(scores, columns, threshold)[i].column < centers(
                scores,
                columns,
                threshold,
            )[j].row * columns + centers(scores, columns, threshold)[j].column,
        forall|at: int|
            #![trigger scores[at]]
            0 <= at < scores.len() && scores[at].at_or_above(threshold) ==> exists|i: int|
                #![trigger centers(scores, columns, threshold)[i]]
                0 <= i < centers(scores, columns, threshold).len() && centers(
                    scores,
                    columns,
                    threshold,
                )[i].row * columns + centers(scores, columns, threshold)[i].column == at,
    decreases scores.len(),
{
    if scores.len() > 0 {
        let rest = scores.drop_last();
        lemma_centers_by_place(rest, columns, threshold);
        let before = centers(rest, columns, threshold);
        let all = centers(scores, columns, threshold);
        let last = scores.len() - 1;
        vstd::arithmetic::div_mod::lemma_fundamental_div_mod(last, columns);
        vstd::arithmetic::div_mod::lemma_mod_bound(last, columns);
        vstd::arithmetic::div_mod::lemma_div_is_ordered(0, last, columns);
        assert(last / columns <= last) by (nonlinear_arith)
            requires
                0 <= last,
                0 < columns,
        ;
        assert(last % columns <= last) by (nonlinear_arith)
            requires
                0 <= last,
                0 < columns,
        ;
        assert((last / columns) * columns + last % columns == last) by (nonlinear_arith)
            requires
                last == columns * (last / columns) + last % columns,
        ;
        let hit = scores[last].at_or_above(threshold);
        if hit {
            let f = all[before.len() as int];
            assert(f.row * columns + f.column == last);
        }
        assert forall|i: int| #![trigger all[i]] 0 <= i < all.len() implies {
            let f = all[i];
            let at = f.row * columns + f.column;
            &&& 0 <= at < scores.len()
            &&& f.column < columns
            &&& f.score == scores[at]
            &&& f.score.at_or_above(threshold)
            &&& i < before.len() ==> at < last
        } by {
            if i < before.len() {
                assert(all[i] == before[i]);
            }
        }
        assert forall|i: int, j: int|
            #![trigger all[i], all[j]]
            0 <= i < j < all.len() implies all[i].row * columns + all[i].column < all[j].row
            * columns + all[j].column by {
            assert(all[i] == before[i]);
            if j < before.len() {
                assert(all[j] == before[j]);
            }
        }
        assert forall|at: int|
            #![trigger scores[at]]
            0 <= at < scores.len() && scores[at].at_or_above(threshold) implies exists|i: int|
            #![trigger all[i]]
            0 <= i < all.len() && all[i].row * columns + all[i].column == at by {
            if at < last {
                assert(rest[at] == scores[at]);
                let i = choose|i: int|
                    #![trigger before[i]]
                    0 <= i < before.len() && before[i].row * columns + before[i].column == at;
                assert(all[i] == before[i]);
            } else {
                let i = before.len() as int;
                assert(all[i].row * columns + all[i].column == at);
            }
        }
    }
}

/// A positive threshold keeps as centers just those cells whose score reaches it and that no
/// cell next to them, also diagonally, has a higher score than; what is not a number counts
/// as no score. A center has the row, column and score of its cell, and the centers stand
/// row by row.
pub proof fn law_centers_are_the_highest_cells_around(
    activated: Seq<Scalar>,
    rows: int,
    columns: int,
    threshold: Scalar,
    r: int,
    c: int,
)
    requires
        0 <= r < rows,
        0 <= c < columns,
        rows * columns <= activated.len() <= usize::MAX,
        (Scalar { bits: 0 }).below(threshold),
    ensures
        ({
            let found = centers_of(activated, rows, columns, threshold);
            let score = activated[r * columns + c];
            &&& (exists|i: int|
                #![trigger found[i]]
                0 <= i < found.len() && found[i].row == r && found[i].column == c) == (
            score.at_or_above(threshold) && (forall|pr: int, pc: int|
                r - 1 <= pr <= r + 1 && c - 1 <= pc <= c + 1 && 0 <= pr < rows && 0 <= pc < columns
                    ==> !score.below(#[trigger] activated[pr * columns + pc])))
            &&& forall|i: int|
                #![trigger found[i]]
                0 <= i < found.len() ==> found[i].row < rows && found[i].column < columns
                    && found[i].score == activated[found[i].row * columns + found[i].column]
            &&& forall|i: int, j: int|
                #![trigger found[i], found[j]]
                0 <= i < j < found.len() ==> found[i].row < found[j].row || found[i].row
                    == found[j].row && found[i].column < found[j].column
        }),
{
    let pooled = peaks_only(activated, rows, columns);
    let found = centers_of(activated, rows, columns, threshold);
    lemma_cell(r, c, rows, columns);
    lemma_centers_by_place(pooled, columns, threshold);
    let at = r * columns + c;
    let score = activated[at];
    let highest = forall|pr: int, pc: int|
        r - 1 <= pr <= r + 1 && c - 1 <= pc <= c + 1 && 0 <= pr < rows && 0 <= pc < columns
            ==> !score.below(#[trigger] activated[pr * columns + pc]);
    assert forall|i: int| #![trigger found[i]] 0 <= i < found.len() implies found[i].row < rows
        && found[i].column < columns && found[i].score == activated[found[i].row * columns
        + found[i].column] by {
        let row = found[i].row as int;
        assert(row < rows) by (nonlinear_arith)
            requires
                row * columns + found[i].column < rows * columns,
                0 <= found[i].column,
                0 < columns,
        ;
        lemma_cell(row, found[i].column as int, rows, columns);
    }
    assert forall|i: int, j: int|
        #![trigger found[i], found[j]]
        0 <= i < j < found.len() implies found[i].row < found[j].row || found[i].row
        == found[j].row && found[i].column < found[j].column by {
        let (ri, ci) = (found[i].row as int, found[i].column as int);
        let (rj, cj) = (found[j].row as int, found[j].column as int);
        assert(ri < rj || ri == rj && ci < cj) by (nonlinear_arith)
            requires
                ri * columns + ci < rj * columns + cj,
                0 <= ci < columns,
                0 <= cj < columns,
        ;
    }
    assert(pooled[at].at_or_above(threshold) == (score.at_or_above(threshold) && highest)) by {
        if score.at_or_above(threshold) && highest {
            assert forall|pr: int, pc: int|
                near(r, c, pr, pc, rows, columns) && !activated[pr * columns + pc].is_nan()
                implies score.at_or_above(#[trigger] activated[pr * columns + pc]) by {
                assert(!score.below(activated[pr * columns + pc]));
            }
            assert(is_peak(activated, rows, columns, r, c));
        }
        if pooled[at].at_or_above(threshold) {
            assert(is_peak(activated, rows, columns, r, c));
            assert forall|pr: int, pc: int|
                r - 1 <= pr <= r + 1 && c - 1 <= pc <= c + 1 && 0 <= pr < rows && 0 <= pc
                    < columns implies !score.below(#[trigger] activated[pr * columns + pc]) by {
                assert(near(r, c, pr, pc, rows, columns));
            }
        }
    }
    if exists|i: int|
        #![trigger found[i]]
        0 <= i < found.len() && found[i].row == r && found[i].column == c {
        let i = choose|i: int|
            #![trigger found[i]]
            0 <= i < found.len() && found[i].row == r && found[i].column == c;
        assert(found[i].score == pooled[at]);
    }
    if pooled[at].at_or_above(threshold) {
        let i = choose|i: int|
            #![trigger found[i]]
            0 <= i < found.len() && found[i].row * columns + found[i].column == at;
        let (ri, ci) = (found[i].row as int, found[i].column as int);
        assert(ri == r && ci == c) by (nonlinear_arith)
            requires
                ri * columns + ci == r * columns + c,
                0 <= ci < columns,
                0 <= c < columns,
        ;
    }
}

/// The feature map's size stands in the heatmap's dimensions: with the channels last as
/// `[1][rows][columns][1]`, with the channels first as `[1][1][rows][columns]`. The other
/// tensors have the same size, the boxes with four channels and the landmarks with ten.
pub proof fn law_shapes_stand_in_the_dimensions(group: FaceTensorGroup, shape: FaceShape)
    requires
        group.heatmap_shape(shape.layout) == Some(shape),
    ensures
        group.heatmap matches Some(heatmap) && heatmap.dims@.len() == 4 && heatmap.dims@[0] == 1,
        shape.layout == Layout::ChannelsLast ==> {
            &&& group.heatmap->0.dims@[1] == shape.rows
            &&& group.heatmap->0.dims@[2] == shape.columns
            &&& group.heatmap->0.dims@[3] == 1
            &&& group.matches_shape(shape) <==> group.boxes is Some && group.landmarks is Some
                && group.boxes->0.dims@ == seq![1usize, shape.rows, shape.columns, 4usize]
                && group.landmarks->0.dims@ == seq![1usize, shape.rows, shape.columns, 10usize]
        },
        shape.layout == Layout::ChannelsFirst ==> {
            &&& group.heatmap->0.dims@[1] == 1
            &&& group.heatmap->0.dims@[2] == shape.rows
            &&& group.heatmap->0.dims@[3] == shape.columns
            &&& group.matches_shape(shape) <==> group.boxes is Some && group.landmarks is Some
                && group.boxes->0.dims@ == seq![1usize, 4usize, shape.rows, shape.columns]
                && group.landmarks->0.dims@ == seq![1usize, 10usize, shape.rows, shape.columns]
        },
{
}

/// The candidates are decoded from the cells of the centers, each once, and stand by falling
/// score.
pub proof fn law_candidates_stand_by_falling_score<T, D: Fn(&FaceCell) -> T>(
    decode: D,
    tensors: FaceTensors,
    found: Seq<FacePeak>,
    order: Seq<usize>,
    candidates: Seq<T>,
    i: int,
    j: int,
)
    requires
        decoded_from(decode, tensors, found, order, candidates),
        0 <= i < j < found.len(),
    ensures
        candidates.len() == found.len() == order.len(),
        order[i] < found.len(),
        order[j] < found.len(),
        order[i] != order[j],
        !found[order[i] as int].score.below(found[order[j] as int].score),
        exists|cell: FaceCell|
            cell.center == found[order[i] as int] && #[trigger] decode.ensures(
                (&cell,),
                candidates[i],
            ),
        exists|cell: FaceCell|
            cell.center == found[order[j] as int] && #[trigger] decode.ensures(
                (&cell,),
                candidates[j],
            ),
{
    let keys = crate::suppress::score_keys(center_scores(found));
    crate::ranking::law_higher_keys_come_first(order, keys, i, j);
    crate::suppress::law_higher_scores_come_first(center_scores(found), order, i, j);
    assert(decodes(decode, tensors, found[order[i] as int], candidates[i]));
    assert(decodes(decode, tensors, found[order[j] as int], candidates[j]));
    let a = choose|cell: FaceCell|
        cell.taken_from(tensors, found[order[i] as int]) && #[trigger] decode.ensures(
            (&cell,),
            candidates[i],
        );
    let b = choose|cell: FaceCell|
        cell.taken_from(tensors, found[order[j] as int]) && #[trigger] decode.ensures(
            (&cell,),
            candidates[j],
        );
    assert(decode.ensures((&a,), candidates[i]));
    assert(decode.ensures((&b,), candidates[j]));
}

/// The first set whose heatmap has a usable size decides, and no set before it has one. In a
/// set the tensors with the channels last count where they are there, and those with the
/// channels first only else.
pub proof fn law_the_first_shaped_set_decides(sets: Seq<TensorSet>, i: int, k: int)
    requires
        first_shaped(sets, i),
        0 <= k <= i,
    ensures
        ({
            let last = sets[k].channels_last;
            let first = sets[k].channels_first;
            &&& last is Some ==> sets[k].group() == Some((last->0, Layout::ChannelsLast))
                && sets[k].shape() == last->0.heatmap_shape(Layout::ChannelsLast)
            &&& last is None && first is Some ==> sets[k].group() == Some(
                (first->0, Layout::ChannelsFirst),
            ) && sets[k].shape() == first->0.heatmap_shape(Layout::ChannelsFirst)
            &&& last is None && first is None ==> sets[k].shape() is None
            &&& (sets[k].shape() is Some) == (k == i)
        }),
{
}

/// What is detected heeds the settings: every candidate comes from a cell whose score reaches
/// the confidence threshold, no more are chosen than the limit says, and of two chosen ones
/// the overlap does not lie above the threshold for it.
pub proof fn law_detections_heed_the_settings<
    T,
    A: Fn(Scalar) -> Scalar,
    D: Fn(&FaceCell) -> T,
    O: Fn(&T, &T) -> Scalar,
>(
    tensors: FaceTensors,
    settings: Settings,
    activate: A,
    decode: D,
    overlap: O,
    activated: Seq<Scalar>,
    order: Seq<usize>,
    detections: Detections<T>,
    i: int,
    a: int,
    b: int,
)
    requires
        are_detections(
            tensors,
            settings,
            activate,
            decode,
            overlap,
            activated,
            order,
            detections,
        ),
        0 < tensors.columns,
        tensors.rows * tensors.columns <= usize::MAX,
        detections.candidates@.len() <= usize::MAX,
        0 <= i < detections.candidates@.len(),
    ensures
        exists|cell: FaceCell|
            cell.center.score.at_or_above(settings.confidence_threshold)
                && #[trigger] decode.ensures((&cell,), detections.candidates@[i]),
        detections.chosen@.len() <= settings.max_detections,
        0 <= a < b < detections.chosen@.len() ==> exists|value: Scalar|
            #[trigger] overlap.ensures(
                (
                    &detections.candidates@[detections.chosen@[b] as int],
                    &detections.candidates@[detections.chosen@[a] as int],
                ),
                value,
            ) && !settings.nms_iou_threshold.below(value),
        activated.len() == tensors.heatmap@.len(),
        forall|k: int|
            0 <= k < activated.len() ==> activate.ensures(
                (tensors.heatmap@[k],),
                #[trigger] activated[k],
            ),
{
    let rows = tensors.rows as int;
    let columns = tensors.columns as int;
    let pooled = peaks_only(activated, rows, columns);
    let found = centers_of(activated, rows, columns, settings.confidence_threshold);
    assert(0 <= rows * columns) by (nonlinear_arith)
        requires
            0 <= rows,
            0 <= columns,
    ;
    lemma_centers_by_place(pooled, columns, settings.confidence_threshold);
    assert(decodes(decode, tensors, found[order[i] as int], detections.candidates@[i]));
    assert(order[i] < found.len());
    assert(found[order[i] as int].score.at_or_above(settings.confidence_threshold));
    let cell = choose|cell: FaceCell|
        cell.taken_from(tensors, found[order[i] as int]) && #[trigger] decode.ensures(
            (&cell,),
            detections.candidates@[i],
        );
    assert(decode.ensures((&cell,), detections.candidates@[i]));
    crate::suppress::law_chosen_items_do_not_overlap(
        detections.candidates@,
        overlap,
        settings.nms_iou_threshold,
        settings.max_detections as int,
        detections.chosen@,
        a,
        b,
        0,
    );
}

} // verus!
