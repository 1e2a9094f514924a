//! Camera intrinsic models, with COLMAP's names and parameter order, so
//! exported models are drop-in readable by other tools.
//!
//! The models are generic in the number type of their parameters: what stands
//! here is which parameters a model has and in what order, not the arithmetic
//! done with them.

use vstd::prelude::*;

use crate::text::same_text;

verus! {

/// One physical camera's intrinsics. Several images may share a camera (same
/// `camera_id`) when captured by the same physical sensor and lens, which is
/// what lets calibration pool observations across many images of one camera.
#[derive(Debug, Clone, Copy, PartialEq)]
pub struct Camera<T> {
    pub camera_id: u32,
    pub model: CameraModel<T>,
    pub width: u32,
    pub height: u32,
}

/// Supported intrinsic and distortion models. Variants and parameter order
/// match COLMAP, so that `params()` round-trips through `cameras.txt`.
#[derive(Debug, Clone, Copy, PartialEq)]
pub enum CameraModel<T> {
    /// params: f, cx, cy
    SimplePinhole { f: T, cx: T, cy: T },
    /// params: fx, fy, cx, cy
    Pinhole { fx: T, fy: T, cx: T, cy: T },
    /// params: f, cx, cy, k
    SimpleRadial { f: T, cx: T, cy: T, k: T },
    /// params: f, cx, cy, k1, k2
    Radial { f: T, cx: T, cy: T, k1: T, k2: T },
    /// params: f, cx, cy, k1, k2, k3
    ///
    /// `Radial` with a third radial term, which matters on wide lenses, where
    /// distortion stops being well described by a quadratic in `r^2` before
    /// the projection stops being rectilinear.
    Radial3 { f: T, cx: T, cy: T, k1: T, k2: T, k3: T },
    /// params: fx, fy, cx, cy, k1, k2, p1, p2
    OpenCV { fx: T, fy: T, cx: T, cy: T, k1: T, k2: T, p1: T, p2: T },
    /// params: fx, fy, cx, cy, k1, k2, k3, k4 (equidistant fisheye)
    OpenCVFisheye { fx: T, fy: T, cx: T, cy: T, k1: T, k2: T, k3: T, k4: T },
}

// ---------------------------------------------------------------------------
// Names
// ---------------------------------------------------------------------------

/// How many parameters the named model has; nothing for an unknown name.
pub open spec fn param_count(name: Seq<char>) -> Option<nat> {
    if name == "SIMPLE_PINHOLE"@ {
        Some(3)
    } else if name == "PINHOLE"@ {
        Some(4)
    } else if name == "SIMPLE_RADIAL"@ {
        Some(4)
    } else if name == "RADIAL"@ {
        Some(5)
    } else if name == "RADIAL3"@ {
        Some(6)
    } else if name == "OPENCV"@ {
        Some(8)
    } else if name == "OPENCV_FISHEYE"@ {
        Some(8)
    } else {
        None
    }
}

/// The seven model names are different names.
pub proof fn lemma_names_differ()
    ensures
        "SIMPLE_PINHOLE"@ != "PINHOLE"@,
        "SIMPLE_PINHOLE"@ != "SIMPLE_RADIAL"@,
        "SIMPLE_PINHOLE"@ != "RADIAL"@,
        "SIMPLE_PINHOLE"@ != "RADIAL3"@,
        "SIMPLE_PINHOLE"@ != "OPENCV"@,
        "SIMPLE_PINHOLE"@ != "OPENCV_FISHEYE"@,
        "PINHOLE"@ != "SIMPLE_RADIAL"@,
        "PINHOLE"@ != "RADIAL"@,
        "PINHOLE"@ != "RADIAL3"@,
        "PINHOLE"@ != "OPENCV"@,
        "PINHOLE"@ != "OPENCV_FISHEYE"@,
        "SIMPLE_RADIAL"@ != "RADIAL"@,
        "SIMPLE_RADIAL"@ != "RADIAL3"@,
        "SIMPLE_RADIAL"@ != "OPENCV"@,
        "SIMPLE_RADIAL"@ != "OPENCV_FISHEYE"@,
        "RADIAL"@ != "RADIAL3"@,
        "RADIAL"@ != "OPENCV"@,
        "RADIAL"@ != "OPENCV_FISHEYE"@,
        "RADIAL3"@ != "OPENCV"@,
        "RADIAL3"@ != "OPENCV_FISHEYE"@,
        "OPENCV"@ != "OPENCV_FISHEYE"@,
{
    reveal_strlit("SIMPLE_PINHOLE");
    reveal_strlit("PINHOLE");
    reveal_strlit("SIMPLE_RADIAL");
    reveal_strlit("RADIAL");
    reveal_strlit("RADIAL3");
    reveal_strlit("OPENCV");
    reveal_strlit("OPENCV_FISHEYE");
    assert("SIMPLE_PINHOLE"@.len() == 14 && "SIMPLE_RADIAL"@.len() == 13);
    assert("RADIAL"@.len() == 6 && "RADIAL3"@.len() == 7 && "PINHOLE"@.len() == 7);
    assert("OPENCV"@.len() == 6 && "OPENCV_FISHEYE"@.len() == 14);
    assert("SIMPLE_PINHOLE"@[0] == 'S' && "OPENCV_FISHEYE"@[0] == 'O');
    assert("PINHOLE"@[0] == 'P' && "RADIAL3"@[0] == 'R');
    assert("RADIAL"@[0] == 'R' && "OPENCV"@[0] == 'O');
}

/// The model of the given name with the given parameters.
pub open spec fn model_of<T>(name: Seq<char>, p: Seq<T>) -> Option<CameraModel<T>> {
    if name == "SIMPLE_PINHOLE"@ {
        Some(CameraModel::SimplePinhole { f: p[0], cx: p[1], cy: p[2] })
    } else if name == "PINHOLE"@ {
        Some(CameraModel::Pinhole { fx: p[0], fy: p[1], cx: p[2], cy: p[3] })
    } else if name == "SIMPLE_RADIAL"@ {
        Some(CameraModel::SimpleRadial { f: p[0], cx: p[1], cy: p[2], k: p[3] })
    } else if name == "RADIAL"@ {
        Some(CameraModel::Radial { f: p[0], cx: p[1], cy: p[2], k1: p[3], k2: p[4] })
    } else if name == "RADIAL3"@ {
        Some(CameraModel::Radial3 { f: p[0], cx: p[1], cy: p[2], k1: p[3], k2: p[4], k3: p[5] })
    } else if name == "OPENCV"@ {
        Some(
            CameraModel::OpenCV {
                fx: p[0],
                fy: p[1],
                cx: p[2],
                cy: p[3],
                k1: p[4],
                k2: p[5],
                p1: p[6],
                p2: p[7],
            },
        )
    } else if name == "OPENCV_FISHEYE"@ {
        Some(
            CameraModel::OpenCVFisheye {
                fx: p[0],
                fy: p[1],
                cx: p[2],
                cy: p[3],
                k1: p[4],
                k2: p[5],
                k3: p[6],
                k4: p[7],
            },
        )
    } else {
        None
    }
}

/// Every model that [`CameraModel::from_name_and_params`] understands, in
/// increasing order of parameter count.
pub open spec fn model_names() -> Seq<Seq<char>> {
    seq![
        "SIMPLE_PINHOLE"@,
        "PINHOLE"@,
        "SIMPLE_RADIAL"@,
        "RADIAL"@,
        "RADIAL3"@,
        "OPENCV"@,
        "OPENCV_FISHEYE"@,
    ]
}

/// How many parameters the named model has.
pub fn count_params(name: &str) -> (r: Option<usize>)
    ensures
        match r {
            Some(n) => param_count(name@) == Some(n as nat),
            None => param_count(name@) is None,
        },
{
    if same_text(name, "SIMPLE_PINHOLE") {
        Some(3)
    } else if same_text(name, "PINHOLE") {
        Some(4)
    } else if same_text(name, "SIMPLE_RADIAL") {
        Some(4)
    } else if same_text(name, "RADIAL") {
        Some(5)
    } else if same_text(name, "RADIAL3") {
        Some(6)
    } else if same_text(name, "OPENCV") {
        Some(8)
    } else if same_text(name, "OPENCV_FISHEYE") {
        Some(8)
    } else {
        None
    }
}

impl<T> CameraModel<T> {
    /// COLMAP's name of the model, as it appears in `cameras.txt`.
    pub open spec fn name_text(&self) -> Seq<char> {
        match *self {
            CameraModel::SimplePinhole { .. } => "SIMPLE_PINHOLE"@,
            CameraModel::Pinhole { .. } => "PINHOLE"@,
            CameraModel::SimpleRadial { .. } => "SIMPLE_RADIAL"@,
            CameraModel::Radial { .. } => "RADIAL"@,
            CameraModel::Radial3 { .. } => "RADIAL3"@,
            CameraModel::OpenCV { .. } => "OPENCV"@,
            CameraModel::OpenCVFisheye { .. } => "OPENCV_FISHEYE"@,
        }
    }

    /// The parameters in COLMAP order.
    pub open spec fn values(&self) -> Seq<T> {
        match *self {
            CameraModel::SimplePinhole { f, cx, cy } => seq![f, cx, cy],
            CameraModel::Pinhole { fx, fy, cx, cy } => seq![fx, fy, cx, cy],
            CameraModel::SimpleRadial { f, cx, cy, k } => seq![f, cx, cy, k],
            CameraModel::Radial { f, cx, cy, k1, k2 } => seq![f, cx, cy, k1, k2],
            CameraModel::Radial3 { f, cx, cy, k1, k2, k3 } => seq![f, cx, cy, k1, k2, k3],
            CameraModel::OpenCV { fx, fy, cx, cy, k1, k2, p1, p2 } => seq![
                fx,
                fy,
                cx,
                cy,
                k1,
                k2,
                p1,
                p2,
            ],
            CameraModel::OpenCVFisheye { fx, fy, cx, cy, k1, k2, k3, k4 } => seq![
                fx,
                fy,
                cx,
                cy,
                k1,
                k2,
                k3,
                k4,
            ],
        }
    }

    /// The focal lengths of the model.
    pub open spec fn focals(&self) -> (T, T) {
        match *self {
            CameraModel::SimplePinhole { f, .. } => (f, f),
            CameraModel::Pinhole { fx, fy, .. } => (fx, fy),
            CameraModel::SimpleRadial { f, .. } => (f, f),
            CameraModel::Radial { f, .. } => (f, f),
            CameraModel::Radial3 { f, .. } => (f, f),
            CameraModel::OpenCV { fx, fy, .. } => (fx, fy),
            CameraModel::OpenCVFisheye { fx, fy, .. } => (fx, fy),
        }
    }

    /// The principal point of the model.
    pub open spec fn centre(&self) -> (T, T) {
        match *self {
            CameraModel::SimplePinhole { cx, cy, .. } => (cx, cy),
            CameraModel::Pinhole { cx, cy, .. } => (cx, cy),
            CameraModel::SimpleRadial { cx, cy, .. } => (cx, cy),
            CameraModel::Radial { cx, cy, .. } => (cx, cy),
            CameraModel::Radial3 { cx, cy, .. } => (cx, cy),
            CameraModel::OpenCV { cx, cy, .. } => (cx, cy),
            CameraModel::OpenCVFisheye { cx, cy, .. } => (cx, cy),
        }
    }

    /// Distortion coefficients in OpenCV's slots, `zero` for those that the
    /// model does not have.
    pub open spec fn distortion(&self, zero: T) -> Seq<T> {
        match *self {
            CameraModel::SimplePinhole { .. } => seq![zero, zero, zero, zero, zero, zero],
            CameraModel::Pinhole { .. } => seq![zero, zero, zero, zero, zero, zero],
            CameraModel::SimpleRadial { k, .. } => seq![k, zero, zero, zero, zero, zero],
            CameraModel::Radial { k1, k2, .. } => seq![k1, k2, zero, zero, zero, zero],
            CameraModel::Radial3 { k1, k2, k3, .. } => seq![k1, k2, zero, zero, k3, zero],
            CameraModel::OpenCV { k1, k2, p1, p2, .. } => seq![k1, k2, p1, p2, zero, zero],
            CameraModel::OpenCVFisheye { k1, k2, k3, k4, .. } => seq![k1, k2, zero, zero, k3, k4],
        }
    }

    /// The places of the principal point among the parameters.
    pub open spec fn centre_places(&self) -> (int, int) {
        match *self {
            CameraModel::SimplePinhole { .. } => (1, 2),
            CameraModel::Pinhole { .. } => (2, 3),
            CameraModel::SimpleRadial { .. } => (1, 2),
            CameraModel::Radial { .. } => (1, 2),
            CameraModel::Radial3 { .. } => (1, 2),
            CameraModel::OpenCV { .. } => (2, 3),
            CameraModel::OpenCVFisheye { .. } => (2, 3),
        }
    }
}

impl<T: Copy> CameraModel<T> {
    /// COLMAP's model name string, as it appears in `cameras.txt`.
    pub fn name(&self) -> (r: &'static str)
        ensures
            r@ == self.name_text(),
    {
        match self {
            CameraModel::SimplePinhole { .. } => "SIMPLE_PINHOLE",
            CameraModel::Pinhole { .. } => "PINHOLE",
            CameraModel::SimpleRadial { .. } => "SIMPLE_RADIAL",
            CameraModel::Radial { .. } => "RADIAL",
            CameraModel::Radial3 { .. } => "RADIAL3",
            CameraModel::OpenCV { .. } => "OPENCV",
            CameraModel::OpenCVFisheye { .. } => "OPENCV_FISHEYE",
        }
    }

    /// COLMAP's numeric model id, as used in the binary format.
    pub fn model_id(&self) -> (r: i32)
        ensures
            r == match *self {
                CameraModel::SimplePinhole { .. } => 0i32,
                CameraModel::Pinhole { .. } => 1i32,
                CameraModel::SimpleRadial { .. } => 2i32,
                CameraModel::Radial { .. } => 3i32,
                CameraModel::Radial3 { .. } => 4i32,
                CameraModel::OpenCV { .. } => 4i32,
                CameraModel::OpenCVFisheye { .. } => 5i32,
            },
    {
        match self {
            CameraModel::SimplePinhole { .. } => 0,
            CameraModel::Pinhole { .. } => 1,
            CameraModel::SimpleRadial { .. } => 2,
            CameraModel::Radial { .. } => 3,
            CameraModel::Radial3 { .. } => 4,
            CameraModel::OpenCV { .. } => 4,
            CameraModel::OpenCVFisheye { .. } => 5,
        }
    }

    /// The named model with the given parameters; nothing for an unknown name.
    pub fn from_name_and_params(name: &str, params: &[T]) -> (r: Option<Self>)
        requires
            param_count(name@) matches Some(n) ==> n <= params@.len(),
        ensures
            r == model_of(name@, params@),
    {
        if same_text(name, "SIMPLE_PINHOLE") {
            Some(CameraModel::SimplePinhole { f: params[0], cx: params[1], cy: params[2] })
        } else if same_text(name, "PINHOLE") {
            Some(
                CameraModel::Pinhole {
                    fx: params[0],
                    fy: params[1],
                    cx: params[2],
                    cy: params[3],
                },
            )
        } else if same_text(name, "SIMPLE_RADIAL") {
            Some(
                CameraModel::SimpleRadial {
                    f: params[0],
                    cx: params[1],
                    cy: params[2],
                    k: params[3],
                },
            )
        } else if same_text(name, "RADIAL") {
            Some(
                CameraModel::Radial {
                    f: params[0],
                    cx: params[1],
                    cy: params[2],
                    k1: params[3],
                    k2: params[4],
                },
            )
        } else if same_text(name, "RADIAL3") {
            Some(
                CameraModel::Radial3 {
                    f: params[0],
                    cx: params[1],
                    cy: params[2],
                    k1: params[3],
                    k2: params[4],
                    k3: params[5],
                },
            )
        } else if same_text(name, "OPENCV") {
            Some(
                CameraModel::OpenCV {
                    fx: params[0],
                    fy: params[1],
                    cx: params[2],
                    cy: params[3],
                    k1: params[4],
                    k2: params[5],
                    p1: params[6],
                    p2: params[7],
                },
            )
        } else if same_text(name, "OPENCV_FISHEYE") {
            Some(
                CameraModel::OpenCVFisheye {
                    fx: params[0],
                    fy: params[1],
                    cx: params[2],
                    cy: params[3],
                    k1: params[4],
                    k2: params[5],
                    k3: params[6],
                    k4: params[7],
                },
            )
        } else {
            None
        }
    }

    /// Flat parameter vector in COLMAP order (as written to `cameras.txt`).
    pub fn params(&self) -> (r: Vec<T>)
        ensures
            r@ == self.values(),
    {
        let r: Vec<T> = match *self {
            CameraModel::SimplePinhole { f, cx, cy } => vec![f, cx, cy],
            CameraModel::Pinhole { fx, fy, cx, cy } => vec![fx, fy, cx, cy],
            CameraModel::SimpleRadial { f, cx, cy, k } => vec![f, cx, cy, k],
            CameraModel::Radial { f, cx, cy, k1, k2 } => vec![f, cx, cy, k1, k2],
            CameraModel::Radial3 { f, cx, cy, k1, k2, k3 } => vec![f, cx, cy, k1, k2, k3],
            CameraModel::OpenCV { fx, fy, cx, cy, k1, k2, p1, p2 } => vec![
                fx,
                fy,
                cx,
                cy,
                k1,
                k2,
                p1,
                p2,
            ],
            CameraModel::OpenCVFisheye { fx, fy, cx, cy, k1, k2, k3, k4 } => vec![
                fx,
                fy,
                cx,
                cy,
                k1,
                k2,
                k3,
                k4,
            ],
        };
        assert(r@ =~= self.values());
        r
    }

    /// Focal lengths (fx, fy).
    pub fn focal_lengths(&self) -> (r: (T, T))
        ensures
            r == self.focals(),
    {
        match *self {
            CameraModel::SimplePinhole { f, .. } => (f, f),
            CameraModel::Pinhole { fx, fy, .. } => (fx, fy),
            CameraModel::SimpleRadial { f, .. } => (f, f),
            CameraModel::Radial { f, .. } => (f, f),
            CameraModel::Radial3 { f, .. } => (f, f),
            CameraModel::OpenCV { fx, fy, .. } => (fx, fy),
            CameraModel::OpenCVFisheye { fx, fy, .. } => (fx, fy),
        }
    }

    /// Principal point (cx, cy).
    pub fn principal_point(&self) -> (r: (T, T))
        ensures
            r == self.centre(),
    {
        match *self {
            CameraModel::SimplePinhole { cx, cy, .. } => (cx, cy),
            CameraModel::Pinhole { cx, cy, .. } => (cx, cy),
            CameraModel::SimpleRadial { cx, cy, .. } => (cx, cy),
            CameraModel::Radial { cx, cy, .. } => (cx, cy),
            CameraModel::Radial3 { cx, cy, .. } => (cx, cy),
            CameraModel::OpenCV { cx, cy, .. } => (cx, cy),
            CameraModel::OpenCVFisheye { cx, cy, .. } => (cx, cy),
        }
    }

    /// Radial and tangential distortion coefficients in OpenCV's (k1, k2, p1,
    /// p2, k3, k4) slots, `zero` for models that do not have them.
    pub fn opencv_distortion(&self, zero: T) -> (r: [T; 6])
        ensures
            r@ == self.distortion(zero),
    {
        let r: [T; 6] = match *self {
            CameraModel::SimplePinhole { .. } => [zero, zero, zero, zero, zero, zero],
            CameraModel::Pinhole { .. } => [zero, zero, zero, zero, zero, zero],
            CameraModel::SimpleRadial { k, .. } => [k, zero, zero, zero, zero, zero],
            CameraModel::Radial { k1, k2, .. } => [k1, k2, zero, zero, zero, zero],
            CameraModel::Radial3 { k1, k2, k3, .. } => [k1, k2, zero, zero, k3, zero],
            CameraModel::OpenCV { k1, k2, p1, p2, .. } => [k1, k2, p1, p2, zero, zero],
            CameraModel::OpenCVFisheye { k1, k2, k3, k4, .. } => [k1, k2, zero, zero, k3, k4],
        };
        assert(r@ =~= self.distortion(zero));
        r
    }

    /// The places of the principal point in `params()`: what
    /// [`default_fixed_params_mask`] holds fixed.
    pub fn principal_point_indices(&self) -> (r: (usize, usize))
        ensures
            (r.0 as int, r.1 as int) == self.centre_places(),
    {
        match self {
            CameraModel::SimplePinhole { .. } => (1, 2),
            CameraModel::Pinhole { .. } => (2, 3),
            CameraModel::SimpleRadial { .. } => (1, 2),
            CameraModel::Radial { .. } => (1, 2),
            CameraModel::Radial3 { .. } => (1, 2),
            CameraModel::OpenCV { .. } => (2, 3),
            CameraModel::OpenCVFisheye { .. } => (2, 3),
        }
    }
}

// ---------------------------------------------------------------------------
// Laws
// ---------------------------------------------------------------------------

/// Name and parameters together give the model back.
pub proof fn models_round_trip<T>(m: CameraModel<T>)
    ensures
        model_of(m.name_text(), m.values()) == Some(m),
        param_count(m.name_text()) == Some(m.values().len()),
{
    lemma_names_differ();
}

/// A model made from a name and parameters carries that name and, of the
/// parameters, as many as it has.
pub proof fn named_models_keep_name_and_params<T>(name: Seq<char>, p: Seq<T>)
    requires
        param_count(name) matches Some(n) && n <= p.len(),
    ensures
        model_of(name, p) matches Some(m) && m.name_text() == name && m.values() == p.take(
            param_count(name)->0 as int,
        ),
{
    lemma_names_differ();
    let m = model_of(name, p)->0;
    assert(m.values() =~= p.take(param_count(name)->0 as int));
}

/// The places of the principal point hold the principal point.
pub proof fn principal_point_is_where_it_says<T>(m: CameraModel<T>)
    ensures
        m.centre_places().0 < m.centre_places().1 < m.values().len(),
        m.values()[m.centre_places().0] == m.centre().0,
        m.values()[m.centre_places().1] == m.centre().1,
{
}

// ---------------------------------------------------------------------------
// Masks and seeds
// ---------------------------------------------------------------------------

/// The mask that fixes the principal point of one model and frees the rest.
pub open spec fn centre_mask<T>(m: CameraModel<T>) -> Seq<bool> {
    Seq::new(m.values().len(), |i: int| i == m.centre_places().0 || i == m.centre_places().1)
}

/// Fixed-parameter masks implementing the standard "refine focal length and
/// distortion, hold the principal point at its initial guess" policy. One mask
/// per camera, index-aligned with `params()`.
pub fn default_fixed_params_mask<T: Copy>(cameras: &[CameraModel<T>]) -> (out: Vec<Vec<bool>>)
    ensures
        out@.len() == cameras@.len(),
        forall|i: int|
            0 <= i < cameras@.len() ==> (#[trigger] out@[i])@ == centre_mask(cameras@[i]),
{
    let mut out: Vec<Vec<bool>> = Vec::new();
    let mut i: usize = 0;
    while i < cameras.len()
        invariant
            i <= cameras.len(),
            out@.len() == i,
            forall|k: int| 0 <= k < i ==> (#[trigger] out@[k])@ == centre_mask(cameras@[k]),
        decreases cameras.len() - i,
    {
        let n: usize = cameras[i].params().len();
        let (x, y) = cameras[i].principal_point_indices();
        let mut mask: Vec<bool> = Vec::new();
        let mut k: usize = 0;
        while k < n
            invariant
                i < cameras.len(),
                k <= n == cameras@[i as int].values().len(),
                (x as int, y as int) == cameras@[i as int].centre_places(),
                mask@ == centre_mask(cameras@[i as int]).take(k as int),
            decreases n - k,
        {
            mask.push(k == x || k == y);
            k += 1;
            assert(mask@ =~= centre_mask(cameras@[i as int]).take(k as int));
        }
        assert(mask@ =~= centre_mask(cameras@[i as int]));
        out.push(mask);
        i += 1;
    }
    out
}

/// A model's parameters with the given focal lengths and principal point and
/// no distortion.
pub open spec fn undistorted<T>(
    name: Seq<char>,
    focal: (T, T),
    centre: (T, T),
    zero: T,
) -> Option<Seq<T>> {
    let (fx, fy) = focal;
    let (cx, cy) = centre;
    if name == "SIMPLE_PINHOLE"@ {
        Some(seq![fx, cx, cy])
    } else if name == "PINHOLE"@ {
        Some(seq![fx, fy, cx, cy])
    } else if name == "SIMPLE_RADIAL"@ {
        Some(seq![fx, cx, cy, zero])
    } else if name == "RADIAL"@ {
        Some(seq![fx, cx, cy, zero, zero])
    } else if name == "RADIAL3"@ {
        Some(seq![fx, cx, cy, zero, zero, zero])
    } else if name == "OPENCV"@ || name == "OPENCV_FISHEYE"@ {
        Some(seq![fx, fy, cx, cy, zero, zero, zero, zero])
    } else {
        None
    }
}

/// The named model with the given geometry and no distortion.
pub open spec fn seeded<T>(
    name: Seq<char>,
    focal: (T, T),
    centre: (T, T),
    zero: T,
) -> Option<CameraModel<T>> {
    match undistorted(name, focal, centre, zero) {
        Some(p) => model_of(name, p),
        None => None,
    }
}

/// Builds the named model from focal lengths and principal point, with every
/// distortion term at `zero`.
pub fn seed_model<T: Copy>(name: &str, focal: (T, T), centre: (T, T), zero: T) -> (r: Option<
    CameraModel<T>,
>)
    ensures
        r == seeded(name@, focal, centre, zero),
{
    let (fx, fy) = focal;
    let (cx, cy) = centre;
    proof {
        lemma_names_differ();
    }
    let params: Vec<T> = if same_text(name, "SIMPLE_PINHOLE") {
        vec![fx, cx, cy]
    } else if same_text(name, "PINHOLE") {
        vec![fx, fy, cx, cy]
    } else if same_text(name, "SIMPLE_RADIAL") {
        vec![fx, cx, cy, zero]
    } else if same_text(name, "RADIAL") {
        vec![fx, cx, cy, zero, zero]
    } else if same_text(name, "RADIAL3") {
        vec![fx, cx, cy, zero, zero, zero]
    } else if same_text(name, "OPENCV") || same_text(name, "OPENCV_FISHEYE") {
        vec![fx, fy, cx, cy, zero, zero, zero, zero]
    } else {
        return None;
    };
    assert(Some(params@) =~~= undistorted(name@, focal, centre, zero));
    CameraModel::from_name_and_params(name, params.as_slice())
}

/// The starting model for a camera nothing is known of: the given focal in
/// both directions, the image centre, no distortion.
pub fn default_camera_model<T: Copy>(name: &str, focal: T, centre: (T, T), zero: T) -> (r: Option<
    CameraModel<T>,
>)
    ensures
        r == seeded(name@, (focal, focal), centre, zero),
{
    seed_model(name, (focal, focal), centre, zero)
}

/// Builds a camera with the layout of `model` at focal `focal`, keeping the
/// principal point and starting every distortion term at zero.
pub fn seed_camera<T: Copy>(cam: &Camera<T>, model: &str, focal: T, zero: T) -> (r: Option<
    Camera<T>,
>)
    ensures
        r == match seeded(model@, (focal, focal), cam.model.centre(), zero) {
            Some(m) => Some(
                Camera {
                    camera_id: cam.camera_id,
                    model: m,
                    width: cam.width,
                    height: cam.height,
                },
            ),
            None => None,
        },
{
    match seed_model(model, (focal, focal), cam.model.principal_point(), zero) {
        Some(m) => Some(
            Camera { camera_id: cam.camera_id, model: m, width: cam.width, height: cam.height },
        ),
        None => None,
    }
}

/// Re-seeds a camera as `name`, carrying the focal length and principal point
/// across and starting every distortion term at zero.
///
/// Starting each candidate from the same geometry rather than from its own
/// guess keeps the comparison about the model rather than about who got the
/// luckier initialisation. `RADIAL3` is no candidate of that comparison.
pub fn reseed<T: Copy>(cam: &CameraModel<T>, name: &str, zero: T) -> (r: Option<CameraModel<T>>)
    ensures
        r == if name@ == "RADIAL3"@ {
            None
        } else {
            seeded(name@, cam.focals(), cam.centre(), zero)
        },
{
    if same_text(name, "RADIAL3") {
        return None;
    }
    seed_model(name, cam.focal_lengths(), cam.principal_point(), zero)
}

/// A seeded model keeps the principal point and the focal lengths it was given
/// (the horizontal one where it has only one), and has no distortion.
pub proof fn seeding_carries_geometry<T>(
    name: Seq<char>,
    focal: (T, T),
    centre: (T, T),
    zero: T,
)
    requires
        param_count(name) is Some,
    ensures
        seeded(name, focal, centre, zero) matches Some(m) && m.name_text() == name && m.centre()
            == centre && m.focals().0 == focal.0 && (m.focals().1 == focal.1 || m.focals().1
            == focal.0) && m.distortion(zero) == seq![zero, zero, zero, zero, zero, zero],
{
    lemma_names_differ();
    let m = seeded(name, focal, centre, zero)->0;
    assert(m.distortion(zero) =~= seq![zero, zero, zero, zero, zero, zero]);
}

/// The parameters start with the focal lengths, one or two, and the principal
/// point stands right behind them.
pub proof fn parameters_start_with_the_focal_lengths<T>(m: CameraModel<T>)
    ensures
        m.values()[0] == m.focals().0,
        m is Pinhole || m is OpenCV || m is OpenCVFisheye ==> m.centre_places() == (2int, 3int)
            && m.values()[1] == m.focals().1,
        !(m is Pinhole || m is OpenCV || m is OpenCVFisheye) ==> m.centre_places() == (1int, 2int)
            && m.focals().1 == m.focals().0,
{
}

/// Each distortion term stands in the slot of its own name, and the slots of
/// terms that the model does not have are empty.
pub proof fn distortion_terms_have_their_slots<T>(m: CameraModel<T>, zero: T)
    ensures
        m.distortion(zero).len() == 6,
        ({
            let d = m.distortion(zero);
            let (k1, k2, p1, p2, k3, k4) = (d[0], d[1], d[2], d[3], d[4], d[5]);
            let radial = m.values().skip(m.centre_places().1 + 1);
            match m {
                CameraModel::OpenCV { .. } => radial == seq![k1, k2, p1, p2] && k3 == zero && k4
                    == zero,
                CameraModel::OpenCVFisheye { .. } => radial == seq![k1, k2, k3, k4] && p1 == zero
                    && p2 == zero,
                _ => radial == seq![k1, k2, k3].take(radial.len() as int) && p1 == zero && p2
                    == zero && k4 == zero && (radial.len() < 3 ==> k3 == zero) && (radial.len() < 2
                    ==> k2 == zero) && (radial.len() < 1 ==> k1 == zero),
            }
        }),
{
    let d = m.distortion(zero);
    let radial = m.values().skip(m.centre_places().1 + 1);
    let terms = seq![d[0], d[1], d[4], d[5]];
    match m {
        CameraModel::OpenCV { .. } => {
            assert(radial =~= seq![d[0], d[1], d[2], d[3]]);
        },
        CameraModel::OpenCVFisheye { .. } => {
            assert(radial =~= terms);
        },
        _ => {
            assert(radial =~= terms.take(3).take(radial.len() as int));
            assert(terms.take(3) =~= seq![d[0], d[1], d[4]]);
        },
    }
}

/// The principal point is held fixed, and nothing else is.
pub proof fn masks_hold_the_principal_point<T>(m: CameraModel<T>, i: int)
    requires
        0 <= i < m.values().len(),
    ensures
        centre_mask(m).len() == m.values().len(),
        m is Pinhole || m is OpenCV || m is OpenCVFisheye ==> (centre_mask(m)[i] <==> i == 2 || i
            == 3),
        !(m is Pinhole || m is OpenCV || m is OpenCVFisheye) ==> (centre_mask(m)[i] <==> i == 1
            || i == 2),
{
}

/// A seeded model has both focal lengths it was given, where it has two.
pub proof fn seeding_keeps_both_focal_lengths<T>(
    name: Seq<char>,
    focal: (T, T),
    centre: (T, T),
    zero: T,
)
    requires
        name == "PINHOLE"@ || name == "OPENCV"@ || name == "OPENCV_FISHEYE"@,
    ensures
        seeded(name, focal, centre, zero) matches Some(m) && m.focals() == focal && m.centre()
            == centre,
{
    lemma_names_differ();
}

} // verus!
