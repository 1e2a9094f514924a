//! The structure of sparse bundle adjustment: which unknowns the reduced
//! camera system has, where each stands in it, and which blocks each point
//! adds to.
//!
//! The unknowns of the reduced system are `[pose_0 .. pose_{n-1} | cam_0 ..
//! cam_{m-1}]` (six per pose, three to eight per camera depending on its
//! model). A physical camera's block is shared by every image using that
//! camera, so each observation contributes to two blocks: its image's pose and
//! that image's camera. Only *free* poses and cameras have a place; fixed ones
//! are absent from the linear system entirely rather than being carried as
//! identity rows.

use vstd::prelude::*;

verus! {

/// Unknowns of one pose: three for the rotation, three for the translation.
pub const POSE_DOF: usize = 6;

/// Below this many points, building the system on several threads costs more
/// than it saves.
pub const PARALLEL_SCHUR_MIN_POINTS: usize = 1500;

/// Whether the system is built on several threads: where it is large enough,
/// and not already on one of them, where its parts would wait for each other.
pub fn builds_in_parallel(num_points: usize, on_worker: bool) -> (r: bool)
    ensures
        r == (num_points >= PARALLEL_SCHUR_MIN_POINTS && !on_worker),
{
    num_points >= PARALLEL_SCHUR_MIN_POINTS && !on_worker
}

/// Fewest observations a camera needs before its intrinsics are refined on
/// their own: as many as the largest model has parameters.
pub const MIN_OBSERVATIONS_TO_REFINE: usize = 8;

// ---------------------------------------------------------------------------
// Places of the unknowns
// ---------------------------------------------------------------------------

/// A variable is fixed where its flag says so; a missing flag leaves it free.
pub open spec fn is_free(fixed: Seq<bool>, i: int) -> bool {
    !(i < fixed.len() && fixed[i])
}

/// Unknowns of the first `n` poses.
pub open spec fn pose_dim(fixed: Seq<bool>, n: nat) -> nat
    decreases n,
{
    if n == 0 {
        0
    } else {
        pose_dim(fixed, (n - 1) as nat) + if is_free(fixed, n - 1) {
            POSE_DOF as nat
        } else {
            0nat
        }
    }
}

/// Unknowns of the first `n` cameras.
pub open spec fn camera_dim(fixed: Seq<bool>, dof: Seq<usize>, n: nat) -> nat
    decreases n,
{
    if n == 0 {
        0
    } else {
        camera_dim(fixed, dof, (n - 1) as nat) + if is_free(fixed, n - 1) {
            dof[n - 1] as nat
        } else {
            0nat
        }
    }
}

/// Where each variable stands in the reduced system.
pub struct Slots {
    pub poses: Vec<Option<usize>>,
    pub cameras: Vec<Option<usize>>,
    /// Parameters of each camera.
    pub dof: Vec<usize>,
    /// Size of the reduced system.
    pub total_dim: usize,
}

impl Slots {
    /// The places that follow from which variables are fixed.
    pub open spec fn follow(
        &self,
        num_images: nat,
        fixed_poses: Seq<bool>,
        dof: Seq<usize>,
        fixed_cameras: Seq<bool>,
    ) -> bool {
        &&& self.dof@ == dof
        &&& self.poses@.len() == num_images
        &&& self.cameras@.len() == dof.len()
        &&& self.total_dim == pose_dim(fixed_poses, num_images) + camera_dim(
            fixed_cameras,
            dof,
            dof.len(),
        )
        &&& forall|i: int|
            0 <= i < num_images ==> #[trigger] self.poses@[i] == if is_free(fixed_poses, i) {
                Some(pose_dim(fixed_poses, i as nat) as usize)
            } else {
                None
            }
        &&& forall|c: int|
            0 <= c < dof.len() ==> #[trigger] self.cameras@[c] == if is_free(fixed_cameras, c)
                && dof[c] > 0 {
                Some(
                    (pose_dim(fixed_poses, num_images) + camera_dim(
                        fixed_cameras,
                        dof,
                        c as nat,
                    )) as usize,
                )
            } else {
                None
            }
    }
}

proof fn lemma_pose_dim_grows(fixed: Seq<bool>, a: nat, b: nat)
    requires
        a <= b,
    ensures
        pose_dim(fixed, a) <= pose_dim(fixed, b),
        a < b && is_free(fixed, a as int) ==> pose_dim(fixed, a) + POSE_DOF <= pose_dim(fixed, b),
    decreases b,
{
    if a < b {
        lemma_pose_dim_grows(fixed, a, (b - 1) as nat);
    }
}

proof fn lemma_camera_dim_grows(fixed: Seq<bool>, dof: Seq<usize>, a: nat, b: nat)
    requires
        a <= b,
    ensures
        camera_dim(fixed, dof, a) <= camera_dim(fixed, dof, b),
        a < b && is_free(fixed, a as int) ==> camera_dim(fixed, dof, a) + dof[a as int]
            <= camera_dim(fixed, dof, b),
    decreases b,
{
    if a < b {
        lemma_camera_dim_grows(fixed, dof, a, (b - 1) as nat);
    }
}

/// Whether the flag at `i` holds the variable fixed.
pub fn flag(fixed: &[bool], i: usize) -> (r: bool)
    ensures
        r == !is_free(fixed@, i as int),
{
    i < fixed.len() && fixed[i]
}

/// Gives every free pose and camera its place in the reduced system.
pub fn assign_slots(
    num_images: usize,
    fixed_poses: &[bool],
    dof: &Vec<usize>,
    fixed_cameras: &[bool],
) -> (s: Slots)
    requires
        pose_dim(fixed_poses@, num_images as nat) + camera_dim(
            fixed_cameras@,
            dof@,
            dof@.len(),
        ) <= usize::MAX,
    ensures
        s.follow(num_images as nat, fixed_poses@, dof@, fixed_cameras@),
{
    let mut poses: Vec<Option<usize>> = Vec::new();
    let mut total: usize = 0;
    let mut i: usize = 0;
    while i < num_images
        invariant
            i <= num_images,
            pose_dim(fixed_poses@, num_images as nat) <= usize::MAX,
            total == pose_dim(fixed_poses@, i as nat),
            poses@.len() == i,
            forall|k: int|
                0 <= k < i ==> #[trigger] poses@[k] == if is_free(fixed_poses@, k) {
                    Some(pose_dim(fixed_poses@, k as nat) as usize)
                } else {
                    None
                },
        decreases num_images - i,
    {
        proof {
            lemma_pose_dim_grows(fixed_poses@, i as nat + 1, num_images as nat);
        }
        if flag(fixed_poses, i) {
            poses.push(None);
        } else {
            poses.push(Some(total));
            total += POSE_DOF;
        }
        i += 1;
    }
    let ghost base = pose_dim(fixed_poses@, num_images as nat);
    let mut cameras: Vec<Option<usize>> = Vec::new();
    let mut copy: Vec<usize> = Vec::new();
    let mut c: usize = 0;
    while c < dof.len()
        invariant
            c <= dof.len(),
            base + camera_dim(fixed_cameras@, dof@, dof@.len()) <= usize::MAX,
            total == base + camera_dim(fixed_cameras@, dof@, c as nat),
            cameras@.len() == c,
            copy@ == dof@.take(c as int),
            forall|k: int|
                0 <= k < c ==> #[trigger] cameras@[k] == if is_free(fixed_cameras@, k) && dof@[k]
                    > 0 {
                    Some((base + camera_dim(fixed_cameras@, dof@, k as nat)) as usize)
                } else {
                    None
                },
        decreases dof.len() - c,
    {
        proof {
            lemma_camera_dim_grows(fixed_cameras@, dof@, c as nat + 1, dof@.len());
        }
        if dof[c] > 0 && !flag(fixed_cameras, c) {
            cameras.push(Some(total));
            total += dof[c];
        } else {
            cameras.push(None);
        }
        copy.push(dof[c]);
        c += 1;
        assert(copy@ =~= dof@.take(c as int));
    }
    assert(copy@ =~= dof@);
    Slots { poses, cameras, dof: copy, total_dim: total }
}

/// One variable of the problem.
#[derive(Debug, Clone, Copy, PartialEq, Eq, Structural)]
pub enum Variable {
    Pose(usize),
    Camera(usize),
}

impl Slots {
    /// The first row of a variable, where it has a place.
    pub open spec fn row(&self, v: Variable) -> Option<usize> {
        match v {
            Variable::Pose(i) => if i < self.poses@.len() {
                self.poses@[i as int]
            } else {
                None
            },
            Variable::Camera(c) => if c < self.cameras@.len() {
                self.cameras@[c as int]
            } else {
                None
            },
        }
    }

    /// How many rows a variable takes.
    pub open spec fn size(&self, v: Variable) -> nat {
        match v {
            Variable::Pose(i) => POSE_DOF as nat,
            Variable::Camera(c) => self.dof@[c as int] as nat,
        }
    }

    /// Whether the row belongs to the variable.
    pub open spec fn holds(&self, v: Variable, row: int) -> bool {
        self.row(v) matches Some(first) && first <= row < first + self.size(v)
    }

    pub fn row_of(&self, v: Variable) -> (r: Option<usize>)
        ensures
            r == self.row(v),
    {
        match v {
            Variable::Pose(i) => if i < self.poses.len() {
                self.poses[i]
            } else {
                None
            },
            Variable::Camera(c) => if c < self.cameras.len() {
                self.cameras[c]
            } else {
                None
            },
        }
    }

    pub fn size_of(&self, v: Variable) -> (r: usize)
        requires
            v matches Variable::Camera(c) ==> c < self.dof@.len(),
        ensures
            r == self.size(v),
    {
        match v {
            Variable::Pose(_) => POSE_DOF,
            Variable::Camera(c) => self.dof[c],
        }
    }
}

proof fn lemma_pose_at_row(fixed: Seq<bool>, n: nat, row: int) -> (i: int)
    requires
        0 <= row < pose_dim(fixed, n),
    ensures
        0 <= i < n,
        is_free(fixed, i),
        pose_dim(fixed, i as nat) <= row < pose_dim(fixed, i as nat) + POSE_DOF,
    decreases n,
{
    if row < pose_dim(fixed, (n - 1) as nat) {
        lemma_pose_at_row(fixed, (n - 1) as nat, row)
    } else {
        n - 1
    }
}

proof fn lemma_camera_at_row(fixed: Seq<bool>, dof: Seq<usize>, n: nat, row: int) -> (c: int)
    requires
        0 <= row < camera_dim(fixed, dof, n),
    ensures
        0 <= c < n,
        is_free(fixed, c),
        dof[c] > 0,
        camera_dim(fixed, dof, c as nat) <= row < camera_dim(fixed, dof, c as nat) + dof[c],
    decreases n,
{
    if row < camera_dim(fixed, dof, (n - 1) as nat) {
        lemma_camera_at_row(fixed, dof, (n - 1) as nat, row)
    } else {
        n - 1
    }
}

/// Every row of the reduced system belongs to a free variable, and none to
/// two.
pub proof fn rows_belong_to_one_variable(
    s: Slots,
    num_images: nat,
    fixed_poses: Seq<bool>,
    dof: Seq<usize>,
    fixed_cameras: Seq<bool>,
    row: int,
)
    requires
        s.follow(num_images, fixed_poses, dof, fixed_cameras),
        num_images <= usize::MAX,
        dof.len() <= usize::MAX,
    ensures
        0 <= row < s.total_dim <==> exists|v: Variable| s.holds(v, row),
        forall|v: Variable, w: Variable| s.holds(v, row) && s.holds(w, row) ==> v == w,
{
    let base = pose_dim(fixed_poses, num_images);
    assert forall|v: Variable| #[trigger] s.holds(v, row) implies 0 <= row < s.total_dim by {
        match v {
            Variable::Pose(i) => {
                lemma_pose_dim_grows(fixed_poses, i as nat, num_images);
            },
            Variable::Camera(c) => {
                lemma_camera_dim_grows(fixed_cameras, dof, c as nat, dof.len());
            },
        }
    }
    if 0 <= row < s.total_dim {
        if row < base {
            let i = lemma_pose_at_row(fixed_poses, num_images, row);
            lemma_pose_dim_grows(fixed_poses, i as nat, num_images);
            assert(s.poses@[i] == Some(pose_dim(fixed_poses, i as nat) as usize));
            assert(s.holds(Variable::Pose(i as usize), row));
        } else {
            let c = lemma_camera_at_row(fixed_cameras, dof, dof.len(), row - base);
            lemma_camera_dim_grows(fixed_cameras, dof, c as nat, dof.len());
            assert(s.cameras@[c] == Some(
                (base + camera_dim(fixed_cameras, dof, c as nat)) as usize,
            ));
            assert(s.holds(Variable::Camera(c as usize), row));
        }
    }
    assert forall|v: Variable, w: Variable| s.holds(v, row) && s.holds(w, row) implies v == w by {
        match (v, w) {
            (Variable::Pose(i), Variable::Pose(j)) => {
                lemma_pose_dim_grows(fixed_poses, i as nat, num_images);
                lemma_pose_dim_grows(fixed_poses, j as nat, num_images);
                if i < j {
                    lemma_pose_dim_grows(fixed_poses, i as nat, j as nat);
                } else if j < i {
                    lemma_pose_dim_grows(fixed_poses, j as nat, i as nat);
                }
            },
            (Variable::Camera(b), Variable::Camera(c)) => {
                lemma_camera_dim_grows(fixed_cameras, dof, b as nat, dof.len());
                lemma_camera_dim_grows(fixed_cameras, dof, c as nat, dof.len());
                if b < c {
                    lemma_camera_dim_grows(fixed_cameras, dof, b as nat, c as nat);
                } else if c < b {
                    lemma_camera_dim_grows(fixed_cameras, dof, c as nat, b as nat);
                }
            },
            (Variable::Pose(i), Variable::Camera(c)) => {
                lemma_pose_dim_grows(fixed_poses, i as nat, num_images);
                lemma_camera_dim_grows(fixed_cameras, dof, c as nat, dof.len());
            },
            (Variable::Camera(c), Variable::Pose(i)) => {
                lemma_pose_dim_grows(fixed_poses, i as nat, num_images);
                lemma_camera_dim_grows(fixed_cameras, dof, c as nat, dof.len());
            },
        }
    }
}

// ---------------------------------------------------------------------------
// Couplings
// ---------------------------------------------------------------------------

/// What one observation relates: a point, an image, and that image's camera.
#[derive(Debug, Clone, Copy, PartialEq, Eq, Structural)]
pub struct Sighting {
    pub image_idx: usize,
    pub camera_idx: usize,
    pub point_idx: usize,
}

/// That an observation couples its point with a free variable.
#[derive(Debug, Clone, Copy, PartialEq, Eq, Structural)]
pub struct Coupling {
    pub observation: usize,
    pub variable: Variable,
}

/// The couplings of one observation: its pose, then its camera, as far as they
/// are free.
pub open spec fn couplings_at(s: Slots, o: Sighting, k: usize) -> Seq<Coupling> {
    let pose = Variable::Pose(o.image_idx);
    let camera = Variable::Camera(o.camera_idx);
    (if s.row(pose) is Some {
        seq![Coupling { observation: k, variable: pose }]
    } else {
        Seq::empty()
    }) + (if s.row(camera) is Some {
        seq![Coupling { observation: k, variable: camera }]
    } else {
        Seq::empty()
    })
}

/// The couplings of point `p` among the first `n` observations.
pub open spec fn couplings_of(s: Slots, obs: Seq<Sighting>, p: int, n: nat) -> Seq<Coupling>
    decreases n,
{
    if n == 0 {
        Seq::empty()
    } else {
        let front = couplings_of(s, obs, p, (n - 1) as nat);
        if obs[n - 1].point_idx == p {
            front + couplings_at(s, obs[n - 1], (n - 1) as usize)
        } else {
            front
        }
    }
}

/// Lists, for every point, the free variables that its observations couple it
/// with.
pub fn point_couplings(s: &Slots, obs: &Vec<Sighting>, num_points: usize) -> (out: Vec<
    Vec<Coupling>,
>)
    requires
        forall|k: int| 0 <= k < obs@.len() ==> (#[trigger] obs@[k]).point_idx < num_points,
    ensures
        out@.len() == num_points,
        forall|p: int|
            0 <= p < num_points ==> (#[trigger] out@[p])@ == couplings_of(
                *s,
                obs@,
                p,
                obs@.len(),
            ),
{
    let mut out: Vec<Vec<Coupling>> = Vec::new();
    let mut p: usize = 0;
    while p < num_points
        invariant
            p <= num_points,
            out@.len() == p,
            forall|q: int| 0 <= q < p ==> (#[trigger] out@[q])@ == couplings_of(*s, obs@, q, 0),
        decreases num_points - p,
    {
        let none: Vec<Coupling> = Vec::new();
        assert(none@ =~= couplings_of(*s, obs@, p as int, 0));
        out.push(none);
        p += 1;
    }
    let mut k: usize = 0;
    while k < obs.len()
        invariant
            k <= obs.len(),
            out@.len() == num_points,
            forall|k: int| 0 <= k < obs@.len() ==> (#[trigger] obs@[k]).point_idx < num_points,
            forall|q: int|
                0 <= q < num_points ==> (#[trigger] out@[q])@ == couplings_of(
                    *s,
                    obs@,
                    q,
                    k as nat,
                ),
        decreases obs.len() - k,
    {
        let o = obs[k];
        assert(obs@[k as int].point_idx < num_points);
        let pose = Variable::Pose(o.image_idx);
        let camera = Variable::Camera(o.camera_idx);
        let ghost before = out@;
        let mut list: Vec<Coupling> = Vec::new();
        std::mem::swap(&mut list, &mut out[o.point_idx]);
        let ghost had = list@;
        if s.row_of(pose).is_some() {
            list.push(Coupling { observation: k, variable: pose });
        }
        if s.row_of(camera).is_some() {
            list.push(Coupling { observation: k, variable: camera });
        }
        assert(list@ =~= had + couplings_at(*s, o, k));
        out[o.point_idx] = list;
        k += 1;
        assert forall|q: int| 0 <= q < num_points implies (#[trigger] out@[q])@ == couplings_of(
            *s,
            obs@,
            q,
            k as nat,
        ) by {
            if q != o.point_idx {
                assert(out@[q] == before[q]);
            }
        }
    }
    out
}

// ---------------------------------------------------------------------------
// Point elimination
// ---------------------------------------------------------------------------

/// One block that eliminating a point takes off the reduced system: the
/// product of the couplings `left` and `right`, or its transpose where it is
/// mirrored, at (`row`, `col`).
#[derive(Debug, Clone, Copy, PartialEq, Eq, Structural)]
pub struct Update {
    pub left: usize,
    pub right: usize,
    pub mirrored: bool,
    pub row: usize,
    pub col: usize,
    pub rows: usize,
    pub cols: usize,
}

pub open spec fn update_at(s: Slots, list: Seq<Coupling>, i: int, j: int, mirrored: bool) -> Update {
    let (a, b) = if mirrored {
        (list[j].variable, list[i].variable)
    } else {
        (list[i].variable, list[j].variable)
    };
    Update {
        left: i as usize,
        right: j as usize,
        mirrored,
        row: s.row(a).unwrap(),
        col: s.row(b).unwrap(),
        rows: s.size(a) as usize,
        cols: s.size(b) as usize,
    }
}

/// The updates of one unordered pair: the block, and its mirror image where
/// the two are different couplings. It goes by the coupling, not by the place:
/// two observations can share a place when their images share a camera, and
/// that pair still adds both terms.
pub open spec fn pair_updates(s: Slots, list: Seq<Coupling>, i: int, j: int) -> Seq<Update> {
    if i == j {
        seq![update_at(s, list, i, j, false)]
    } else {
        seq![update_at(s, list, i, j, false), update_at(s, list, i, j, true)]
    }
}

/// The updates of coupling `i` with those from `i` up to `to`.
pub open spec fn row_updates(s: Slots, list: Seq<Coupling>, i: int, to: int) -> Seq<Update>
    decreases to - i,
{
    if to <= i {
        Seq::empty()
    } else {
        row_updates(s, list, i, to - 1) + pair_updates(s, list, i, to - 1)
    }
}

/// The updates of the first `n` couplings with those not before them.
pub open spec fn updates_of(s: Slots, list: Seq<Coupling>, n: nat) -> Seq<Update>
    decreases n,
{
    if n == 0 {
        Seq::empty()
    } else {
        updates_of(s, list, (n - 1) as nat) + row_updates(s, list, n - 1, list.len() as int)
    }
}

/// Every coupled variable has a place in the system.
pub open spec fn couplings_have_places(s: Slots, list: Seq<Coupling>) -> bool {
    &&& s.dof@.len() == s.cameras@.len()
    &&& forall|i: int| 0 <= i < list.len() ==> s.row((#[trigger] list[i]).variable) is Some
}

fn update_for(s: &Slots, list: &Vec<Coupling>, i: usize, j: usize, mirrored: bool) -> (u: Update)
    requires
        couplings_have_places(*s, list@),
        i < list@.len(),
        j < list@.len(),
    ensures
        u == update_at(*s, list@, i as int, j as int, mirrored),
{
    let (a, b) = if mirrored {
        (list[j].variable, list[i].variable)
    } else {
        (list[i].variable, list[j].variable)
    };
    assert(s.row(list@[i as int].variable) is Some);
    assert(s.row(list@[j as int].variable) is Some);
    Update {
        left: i,
        right: j,
        mirrored,
        row: s.row_of(a).unwrap(),
        col: s.row_of(b).unwrap(),
        rows: s.size_of(a),
        cols: s.size_of(b),
    }
}

/// The blocks that eliminating one point takes off the reduced system.
pub fn schur_updates(s: &Slots, list: &Vec<Coupling>) -> (out: Vec<Update>)
    requires
        couplings_have_places(*s, list@),
    ensures
        out@ == updates_of(*s, list@, list@.len()),
{
    let mut out: Vec<Update> = Vec::new();
    let mut i: usize = 0;
    assert(out@ =~= updates_of(*s, list@, 0));
    while i < list.len()
        invariant
            i <= list.len(),
            couplings_have_places(*s, list@),
            out@ == updates_of(*s, list@, i as nat),
        decreases list.len() - i,
    {
        let ghost done = out@;
        let mut j: usize = i;
        assert(out@ =~= done + row_updates(*s, list@, i as int, j as int));
        while j < list.len()
            invariant
                i <= j <= list.len(),
                i < list.len(),
                couplings_have_places(*s, list@),
                out@ == done + row_updates(*s, list@, i as int, j as int),
            decreases list.len() - j,
        {
            out.push(update_for(s, list, i, j, false));
            if j != i {
                out.push(update_for(s, list, i, j, true));
            }
            j += 1;
            assert(row_updates(*s, list@, i as int, j as int) == row_updates(
                *s,
                list@,
                i as int,
                j - 1,
            ) + pair_updates(*s, list@, i as int, j - 1));
            assert(out@ =~= done + row_updates(*s, list@, i as int, j as int));
        }
        i += 1;
    }
    out
}

/// The ordered pair of couplings whose block an update adds to.
pub open spec fn target(u: Update) -> (usize, usize) {
    if u.mirrored {
        (u.right, u.left)
    } else {
        (u.left, u.right)
    }
}

proof fn lemma_row_updates(s: Slots, list: Seq<Coupling>, i: int, to: int)
    requires
        0 <= i <= to <= list.len() <= usize::MAX,
    ensures
        forall|k: int|
            0 <= k < row_updates(s, list, i, to).len() ==> {
                let u = #[trigger] row_updates(s, list, i, to)[k];
                &&& u.left == i
                &&& i <= u.right < to
                &&& u == update_at(s, list, u.left as int, u.right as int, u.mirrored)
                &&& u.mirrored ==> u.left != u.right
            },
        forall|k: int, m: int|
            0 <= k < m < row_updates(s, list, i, to).len() ==> target(
                #[trigger] row_updates(s, list, i, to)[k],
            ) != target(#[trigger] row_updates(s, list, i, to)[m]),
        forall|j: int, mirrored: bool|
            i <= j < to && (mirrored ==> i != j) ==> row_updates(s, list, i, to).contains(
                #[trigger] update_at(s, list, i, j, mirrored),
            ),
    decreases to - i,
{
    if i < to {
        lemma_row_updates(s, list, i, to - 1);
        let front = row_updates(s, list, i, to - 1);
        let last = pair_updates(s, list, i, to - 1);
        let all = row_updates(s, list, i, to);
        assert forall|k: int| 0 <= k < all.len() implies {
            let u = #[trigger] all[k];
            &&& u.left == i
            &&& i <= u.right < to
            &&& u == update_at(s, list, u.left as int, u.right as int, u.mirrored)
            &&& u.mirrored ==> u.left != u.right
        } by {
            if k < front.len() {
                assert(all[k] == front[k]);
            } else {
                assert(all[k] == last[k - front.len()]);
            }
        }
        assert forall|k: int, m: int| 0 <= k < m < all.len() implies target(#[trigger] all[k])
            != target(#[trigger] all[m]) by {
            if m < front.len() {
                assert(all[k] == front[k]);
                assert(all[m] == front[m]);
            } else {
                assert(all[m] == last[m - front.len()]);
                if k < front.len() {
                    assert(all[k] == front[k]);
                } else {
                    assert(all[k] == last[k - front.len()]);
                }
            }
        }
        assert forall|j: int, mirrored: bool| i <= j < to && (mirrored ==> i
            != j) implies all.contains(#[trigger] update_at(s, list, i, j, mirrored)) by {
            let u = update_at(s, list, i, j, mirrored);
            if j < to - 1 {
                assert(front.contains(u));
                let k = choose|k: int| 0 <= k < front.len() && front[k] == u;
                assert(all[k] == u);
            } else {
                let k = if mirrored {
                    1
                } else {
                    0int
                };
                assert(last[k] == u);
                assert(all[front.len() + k] == u);
            }
        }
    }
}

proof fn lemma_updates_of(s: Slots, list: Seq<Coupling>, n: nat)
    requires
        n <= list.len() <= usize::MAX,
    ensures
        forall|k: int|
            0 <= k < updates_of(s, list, n).len() ==> {
                let u = #[trigger] updates_of(s, list, n)[k];
                &&& u.left < n
                &&& u.left <= u.right < list.len()
                &&& u == update_at(s, list, u.left as int, u.right as int, u.mirrored)
                &&& u.mirrored ==> u.left != u.right
            },
        forall|k: int, m: int|
            0 <= k < m < updates_of(s, list, n).len() ==> target(
                #[trigger] updates_of(s, list, n)[k],
            ) != target(#[trigger] updates_of(s, list, n)[m]),
        forall|i: int, j: int, mirrored: bool|
            0 <= i < n && i <= j < list.len() && (mirrored ==> i != j) ==> updates_of(
                s,
                list,
                n,
            ).contains(#[trigger] update_at(s, list, i, j, mirrored)),
    decreases n,
{
    if n > 0 {
        lemma_updates_of(s, list, (n - 1) as nat);
        lemma_row_updates(s, list, n - 1, list.len() as int);
        let front = updates_of(s, list, (n - 1) as nat);
        let last = row_updates(s, list, n - 1, list.len() as int);
        let all = updates_of(s, list, n);
        assert forall|k: int| 0 <= k < all.len() implies {
            let u = #[trigger] all[k];
            &&& u.left < n
            &&& u.left <= u.right < list.len()
            &&& u == update_at(s, list, u.left as int, u.right as int, u.mirrored)
            &&& u.mirrored ==> u.left != u.right
        } by {
            if k < front.len() {
                assert(all[k] == front[k]);
            } else {
                assert(all[k] == last[k - front.len()]);
            }
        }
        assert forall|k: int, m: int| 0 <= k < m < all.len() implies target(#[trigger] all[k])
            != target(#[trigger] all[m]) by {
            if m < front.len() {
                assert(all[k] == front[k]);
                assert(all[m] == front[m]);
            } else {
                assert(all[m] == last[m - front.len()]);
                if k < front.len() {
                    assert(all[k] == front[k]);
                } else {
                    assert(all[k] == last[k - front.len()]);
                }
            }
        }
        assert forall|i: int, j: int, mirrored: bool|
            0 <= i < n && i <= j < list.len() && (mirrored ==> i != j) implies all.contains(
            #[trigger] update_at(s, list, i, j, mirrored),
        ) by {
            let u = update_at(s, list, i, j, mirrored);
            if i < n - 1 {
                assert(front.contains(u));
                let k = choose|k: int| 0 <= k < front.len() && front[k] == u;
                assert(all[k] == u);
            } else {
                assert(last.contains(u));
                let k = choose|k: int| 0 <= k < last.len() && last[k] == u;
                assert(all[front.len() + k] == u);
            }
        }
    }
}

/// Eliminating a point adds to the block of every ordered pair of its
/// couplings exactly once, as a full double loop would, and each block lies
/// where its two variables stand.
pub proof fn elimination_covers_every_pair_once(s: Slots, list: Seq<Coupling>, a: int, b: int)
    requires
        list.len() <= usize::MAX,
        0 <= a < list.len(),
        0 <= b < list.len(),
    ensures
        exists|k: int|
            0 <= k < updates_of(s, list, list.len()).len() && target(
                #[trigger] updates_of(s, list, list.len())[k],
            ) == (a as usize, b as usize),
        forall|k: int, m: int|
            0 <= k < m < updates_of(s, list, list.len()).len() ==> target(
                #[trigger] updates_of(s, list, list.len())[k],
            ) != target(#[trigger] updates_of(s, list, list.len())[m]),
        forall|k: int|
            0 <= k < updates_of(s, list, list.len()).len() ==> {
                let u = #[trigger] updates_of(s, list, list.len())[k];
                &&& u.row == s.row(list[target(u).0 as int].variable).unwrap()
                &&& u.col == s.row(list[target(u).1 as int].variable).unwrap()
            },
{
    lemma_updates_of(s, list, list.len());
    let all = updates_of(s, list, list.len());
    let u = if a <= b {
        update_at(s, list, a, b, false)
    } else {
        update_at(s, list, b, a, true)
    };
    assert(all.contains(u));
    let k = choose|k: int| 0 <= k < all.len() && all[k] == u;
    assert(target(all[k]) == (a as usize, b as usize));
    assert forall|k: int| 0 <= k < all.len() implies {
        let u = #[trigger] all[k];
        &&& u.row == s.row(list[target(u).0 as int].variable).unwrap()
        &&& u.col == s.row(list[target(u).1 as int].variable).unwrap()
    } by {
        let u = all[k];
        assert(u == update_at(s, list, u.left as int, u.right as int, u.mirrored));
    }
}

// ---------------------------------------------------------------------------
// Parameters held fixed
// ---------------------------------------------------------------------------

/// The rows of the first `n` parameters of camera `c` that its mask holds
/// fixed.
pub open spec fn masked_rows(s: Slots, mask: Seq<bool>, c: int, n: nat) -> Seq<usize>
    decreases n,
{
    if n == 0 {
        Seq::empty()
    } else {
        let front = masked_rows(s, mask, c, (n - 1) as nat);
        if mask[n - 1] && n <= s.dof@[c] && s.cameras@[c] is Some {
            front.push((s.cameras@[c].unwrap() + n - 1) as usize)
        } else {
            front
        }
    }
}

/// The rows of individually fixed parameters of the first `n` cameras.
pub open spec fn decoupled(s: Slots, masks: Seq<Vec<bool>>, n: nat) -> Seq<usize>
    decreases n,
{
    if n == 0 {
        Seq::empty()
    } else {
        let front = decoupled(s, masks, (n - 1) as nat);
        if n <= masks.len() {
            front + masked_rows(s, masks[n - 1]@, n - 1, masks[n - 1]@.len())
        } else {
            front
        }
    }
}

/// Every block of a camera lies inside the system.
pub open spec fn blocks_fit(s: Slots) -> bool {
    &&& s.dof@.len() == s.cameras@.len()
    &&& forall|c: int|
        0 <= c < s.cameras@.len() ==> (#[trigger] s.cameras@[c] matches Some(first) ==> first
            + s.dof@[c] <= s.total_dim)
}

/// The places that [`assign_slots`] gives lie inside the system.
pub proof fn slots_fit(
    s: Slots,
    num_images: nat,
    fixed_poses: Seq<bool>,
    dof: Seq<usize>,
    fixed_cameras: Seq<bool>,
)
    requires
        s.follow(num_images, fixed_poses, dof, fixed_cameras),
    ensures
        blocks_fit(s),
{
    assert forall|c: int| 0 <= c < s.cameras@.len() implies (#[trigger] s.cameras@[c] matches Some(
        first,
    ) ==> first + s.dof@[c] <= s.total_dim) by {
        lemma_camera_dim_grows(fixed_cameras, dof, c as nat, dof.len());
    }
}

/// The rows to cut out of the reduced system because their parameter is held
/// fixed although its camera is being refined. Zeroing row and column, with 1
/// on the diagonal and 0 on the right, makes that parameter solve to no
/// change.
pub fn decoupled_rows(s: &Slots, masks: &Vec<Vec<bool>>) -> (out: Vec<usize>)
    requires
        blocks_fit(*s),
    ensures
        out@ == decoupled(*s, masks@, s.cameras@.len()),
{
    let mut out: Vec<usize> = Vec::new();
    let mut c: usize = 0;
    assert(out@ =~= decoupled(*s, masks@, 0));
    while c < s.cameras.len()
        invariant
            c <= s.cameras.len(),
            blocks_fit(*s),
            out@ == decoupled(*s, masks@, c as nat),
        decreases s.cameras.len() - c,
    {
        let ghost done = out@;
        if c < masks.len() {
            let mask = &masks[c];
            let mut k: usize = 0;
            assert(out@ =~= done + masked_rows(*s, mask@, c as int, 0));
            while k < mask.len()
                invariant
                    c < s.cameras.len(),
                    k <= mask.len(),
                    blocks_fit(*s),
                    out@ == done + masked_rows(*s, mask@, c as int, k as nat),
                decreases mask.len() - k,
            {
                if mask[k] && k < s.dof[c] {
                    if let Some(first) = s.cameras[c] {
                        assert(s.cameras@[c as int] == Some(first));
                        out.push(first + k);
                    }
                }
                k += 1;
                assert(out@ =~= done + masked_rows(*s, mask@, c as int, k as nat));
            }
        }
        c += 1;
    }
    out
}

// ---------------------------------------------------------------------------
// Sharing the work
// ---------------------------------------------------------------------------

/// Points per worker.
pub open spec fn chunk_size(num_points: nat, workers: nat) -> nat {
    let w = if workers == 0 {
        1
    } else {
        workers
    };
    let c = (num_points + w - 1) as nat / w;
    if c == 0 {
        1
    } else {
        c
    }
}

/// The ranges follow one another from 0 to `num_points`.
pub open spec fn ranges_tile(ranges: Seq<(usize, usize)>, num_points: nat) -> bool {
    &&& ranges.len() > 0
    &&& ranges[0].0 == 0
    &&& ranges.last().1 == num_points
    &&& forall|t: int| 0 <= t < ranges.len() ==> (#[trigger] ranges[t]).0 <= ranges[t].1
    &&& forall|t: int|
        0 < t < ranges.len() ==> (#[trigger] ranges[t]).0 == ranges[t - 1].1
}

/// Where the share of worker `t` begins: every worker before it took a whole
/// chunk, as far as the points go.
pub open spec fn chunk_start(num_points: nat, workers: nat, t: int) -> int {
    let start = t * chunk_size(num_points, workers);
    if start <= num_points {
        start
    } else {
        num_points as int
    }
}

/// One range of points per worker. The number of ranges, not of points, sets
/// the overhead, since each worker needs a system of its own to add into.
pub fn chunk_ranges(num_points: usize, workers: usize) -> (out: Vec<(usize, usize)>)
    ensures
        out@.len() == if workers == 0 {
            1
        } else {
            workers as nat
        },
        forall|t: int|
            0 <= t < out@.len() ==> (#[trigger] out@[t]).0 == chunk_start(
                num_points as nat,
                workers as nat,
                t,
            ) && out@[t].1 == chunk_start(num_points as nat, workers as nat, t + 1),
        ranges_tile(out@, num_points as nat),
{
    let w: usize = if workers == 0 {
        1
    } else {
        workers
    };
    let rest: usize = if num_points % w == 0 {
        0
    } else {
        1
    };
    let even: usize = num_points / w;
    assert(even <= num_points) by (nonlinear_arith)
        requires
            even == num_points / w,
            w >= 1,
    ;
    assert(rest == 1 ==> even < num_points) by (nonlinear_arith)
        requires
            even == num_points / w,
            w >= 1,
            rest == 1 ==> num_points % w != 0,
    ;
    let share: usize = even + rest;
    let chunk: usize = if share == 0 {
        1
    } else {
        share
    };
    assert(share == (num_points + w - 1) as nat / (w as nat)) by (nonlinear_arith)
        requires
            share == even + rest,
            even == num_points / w,
            w >= 1,
            rest == if num_points % w == 0 {
                0int
            } else {
                1int
            },
    ;
    assert(chunk * w >= num_points) by (nonlinear_arith)
        requires
            chunk >= even + rest,
            even == num_points / w,
            w >= 1,
            rest == if num_points % w == 0 {
                0int
            } else {
                1int
            },
    ;
    let mut out: Vec<(usize, usize)> = Vec::new();
    let mut lo: usize = 0;
    let mut t: usize = 0;
    while t < w
        invariant
            t <= w,
            out@.len() == t,
            lo <= num_points,
            chunk >= 1,
            chunk == chunk_size(num_points as nat, workers as nat),
            lo == chunk_start(num_points as nat, workers as nat, t as int),
            forall|k: int|
                0 <= k < t ==> (#[trigger] out@[k]).0 == chunk_start(
                    num_points as nat,
                    workers as nat,
                    k,
                ) && out@[k].1 == chunk_start(num_points as nat, workers as nat, k + 1),
            t == 0 ==> lo == 0,
            t > 0 ==> out@[0].0 == 0 && out@.last().1 == lo,
            forall|k: int| 0 <= k < t ==> (#[trigger] out@[k]).0 <= out@[k].1,
            forall|k: int| 0 < k < t ==> (#[trigger] out@[k]).0 == out@[k - 1].1,
        decreases w - t,
    {
        let hi: usize = if num_points - lo <= chunk {
            num_points
        } else {
            lo + chunk
        };
        assert((t + 1) * chunk == t * chunk + chunk) by (nonlinear_arith);
        out.push((lo, hi));
        lo = hi;
        t += 1;
    }
    assert(w * chunk == chunk * w) by (nonlinear_arith);
    out
}

// ---------------------------------------------------------------------------
// One camera on its own
// ---------------------------------------------------------------------------

/// The observations among the first `n` whose image uses camera `c`.
pub open spec fn seen_by(images: Seq<usize>, camera_of_image: Seq<usize>, c: int, n: nat) -> Seq<
    usize,
>
    decreases n,
{
    if n == 0 {
        Seq::empty()
    } else {
        let front = seen_by(images, camera_of_image, c, (n - 1) as nat);
        if camera_of_image[images[n - 1] as int] == c {
            front.push((n - 1) as usize)
        } else {
            front
        }
    }
}

/// Groups observations by the physical camera they belong to. `images` gives
/// the image of each observation.
pub fn observations_by_camera(
    images: &Vec<usize>,
    camera_of_image: &Vec<usize>,
    num_cameras: usize,
) -> (out: Vec<Vec<usize>>)
    requires
        forall|k: int|
            0 <= k < images@.len() ==> (#[trigger] images@[k]) < camera_of_image@.len()
                && camera_of_image@[images@[k] as int] < num_cameras,
    ensures
        out@.len() == num_cameras,
        forall|c: int|
            0 <= c < num_cameras ==> (#[trigger] out@[c])@ == seen_by(
                images@,
                camera_of_image@,
                c,
                images@.len(),
            ),
{
    let mut out: Vec<Vec<usize>> = Vec::new();
    let mut c: usize = 0;
    while c < num_cameras
        invariant
            c <= num_cameras,
            out@.len() == c,
            forall|q: int|
                0 <= q < c ==> (#[trigger] out@[q])@ == seen_by(images@, camera_of_image@, q, 0),
        decreases num_cameras - c,
    {
        let none: Vec<usize> = Vec::new();
        assert(none@ =~= seen_by(images@, camera_of_image@, c as int, 0));
        out.push(none);
        c += 1;
    }
    let mut k: usize = 0;
    while k < images.len()
        invariant
            k <= images.len(),
            out@.len() == num_cameras,
            forall|k: int|
                0 <= k < images@.len() ==> (#[trigger] images@[k]) < camera_of_image@.len()
                    && camera_of_image@[images@[k] as int] < num_cameras,
            forall|q: int|
                0 <= q < num_cameras ==> (#[trigger] out@[q])@ == seen_by(
                    images@,
                    camera_of_image@,
                    q,
                    k as nat,
                ),
        decreases images.len() - k,
    {
        let i: usize = images[k];
        assert(images@[k as int] < camera_of_image@.len());
        let cam: usize = camera_of_image[i];
        let ghost before = out@;
        let mut list: Vec<usize> = Vec::new();
        std::mem::swap(&mut list, &mut out[cam]);
        list.push(k);
        out[cam] = list;
        k += 1;
        assert forall|q: int| 0 <= q < num_cameras implies (#[trigger] out@[q])@ == seen_by(
            images@,
            camera_of_image@,
            q,
            k as nat,
        ) by {
            if q != cam {
                assert(out@[q] == before[q]);
            }
        }
    }
    out
}

/// Whether a camera has enough observations for its intrinsics to be refined
/// rather than fitted to noise.
pub fn worth_refining(observations: usize) -> (r: bool)
    ensures
        r == (observations >= MIN_OBSERVATIONS_TO_REFINE),
{
    observations >= MIN_OBSERVATIONS_TO_REFINE
}

// ---------------------------------------------------------------------------
// After a step
// ---------------------------------------------------------------------------

/// What a step makes of some variables: those with a row have moved, the
/// others are as they were.
pub open spec fn is_stepped<P>(
    rows: Seq<Option<usize>>,
    before: Seq<P>,
    moved: Seq<P>,
    after: Seq<P>,
) -> bool {
    &&& after.len() == rows.len()
    &&& forall|i: int|
        0 <= i < rows.len() ==> #[trigger] after[i] == if rows[i] is Some {
            moved[i]
        } else {
            before[i]
        }
}

/// Takes the variables that have a row from `moved`, and leaves the others as
/// they are in `old`.
pub fn kept_or_moved<P: Copy>(rows: &Vec<Option<usize>>, old: &Vec<P>, moved: &Vec<P>) -> (out: Vec<
    P,
>)
    requires
        old@.len() == rows@.len(),
        moved@.len() == rows@.len(),
    ensures
        out@.len() == rows@.len(),
        forall|i: int|
            0 <= i < rows@.len() ==> #[trigger] out@[i] == if rows@[i] is Some {
                moved@[i]
            } else {
                old@[i]
            },
        is_stepped(rows@, old@, moved@, out@),
{
    let mut out: Vec<P> = Vec::new();
    let mut i: usize = 0;
    while i < rows.len()
        invariant
            i <= rows@.len(),
            old@.len() == rows@.len(),
            moved@.len() == rows@.len(),
            out@.len() == i,
            forall|k: int|
                0 <= k < i ==> #[trigger] out@[k] == if rows@[k] is Some {
                    moved@[k]
                } else {
                    old@[k]
                },
        decreases rows@.len() - i,
    {
        if rows[i].is_some() {
            out.push(moved[i]);
        } else {
            out.push(old[i]);
        }
        i += 1;
    }
    out
}

/// A run of steps: what each makes of the variables is where the next begins.
pub open spec fn is_run<P>(
    rows: Seq<Option<usize>>,
    states: Seq<Seq<P>>,
    moves: Seq<Seq<P>>,
) -> bool {
    &&& states.len() == moves.len() + 1
    &&& states[0].len() == rows.len()
    &&& forall|k: int|
        0 <= k < moves.len() ==> is_stepped(rows, states[k], #[trigger] moves[k], states[k + 1])
}

proof fn lemma_rowless_stays<P>(
    rows: Seq<Option<usize>>,
    states: Seq<Seq<P>>,
    moves: Seq<Seq<P>>,
    i: int,
    k: int,
)
    requires
        is_run(rows, states, moves),
        0 <= i < rows.len(),
        rows[i] is None,
        0 <= k < states.len(),
    ensures
        states[k][i] == states[0][i],
    decreases k,
{
    if k > 0 {
        lemma_rowless_stays(rows, states, moves, i, k - 1);
        assert(is_stepped(rows, states[k - 1], moves[k - 1], states[k - 1 + 1]));
        assert(states[k][i] == states[k - 1][i]);
    }
}

/// A fixed pose comes out of a run of steps as it went in, whatever the steps
/// compute.
pub proof fn fixed_poses_stay<P>(
    s: Slots,
    num_images: nat,
    fixed_poses: Seq<bool>,
    dof: Seq<usize>,
    fixed_cameras: Seq<bool>,
    states: Seq<Seq<P>>,
    moves: Seq<Seq<P>>,
    i: int,
)
    requires
        s.follow(num_images, fixed_poses, dof, fixed_cameras),
        is_run(s.poses@, states, moves),
        0 <= i < num_images,
        !is_free(fixed_poses, i),
    ensures
        states.last()[i] == states[0][i],
{
    assert(s.poses@[i] is None);
    lemma_rowless_stays(s.poses@, states, moves, i, states.len() - 1);
}

/// A fixed camera comes out of a run of steps as it went in, whatever the
/// steps compute.
pub proof fn fixed_cameras_stay<P>(
    s: Slots,
    num_images: nat,
    fixed_poses: Seq<bool>,
    dof: Seq<usize>,
    fixed_cameras: Seq<bool>,
    states: Seq<Seq<P>>,
    moves: Seq<Seq<P>>,
    c: int,
)
    requires
        s.follow(num_images, fixed_poses, dof, fixed_cameras),
        is_run(s.cameras@, states, moves),
        0 <= c < dof.len(),
        !is_free(fixed_cameras, c),
    ensures
        states.last()[c] == states[0][c],
{
    assert(s.cameras@[c] is None);
    lemma_rowless_stays(s.cameras@, states, moves, c, states.len() - 1);
}

// ---------------------------------------------------------------------------
// What the couplings of a point are
// ---------------------------------------------------------------------------

/// Observation `k` sees point `p` in an image whose pose, or with a camera
/// that, has a place in the system.
pub open spec fn couples(s: Slots, obs: Seq<Sighting>, p: int, c: Coupling) -> bool {
    let k = c.observation as int;
    &&& k < obs.len()
    &&& obs[k].point_idx == p
    &&& s.row(c.variable) is Some
    &&& c.variable == Variable::Pose(obs[k].image_idx) || c.variable == Variable::Camera(
        obs[k].camera_idx,
    )
}

proof fn lemma_couplings_of(s: Slots, obs: Seq<Sighting>, p: int, n: nat)
    requires
        n <= obs.len() <= usize::MAX,
    ensures
        ({
            let list = couplings_of(s, obs, p, n);
            &&& forall|i: int|
                0 <= i < list.len() ==> couples(s, obs, p, #[trigger] list[i])
                    && list[i].observation < n
            &&& forall|c: Coupling| #[trigger]
                couples(s, obs, p, c) && c.observation < n ==> list.contains(c)
            &&& list.no_duplicates()
            &&& forall|i: int, j: int|
                0 <= i < j < list.len() ==> (#[trigger] list[i]).observation <= (
                #[trigger] list[j]).observation
        }),
    decreases n,
{
    if n > 0 {
        lemma_couplings_of(s, obs, p, (n - 1) as nat);
        let front = couplings_of(s, obs, p, (n - 1) as nat);
        let list = couplings_of(s, obs, p, n);
        let o = obs[n - 1];
        let k = (n - 1) as usize;
        let pose = Coupling { observation: k, variable: Variable::Pose(o.image_idx) };
        let camera = Coupling { observation: k, variable: Variable::Camera(o.camera_idx) };
        let last = couplings_at(s, o, k);
        assert forall|i: int| 0 <= i < list.len() implies couples(s, obs, p, #[trigger] list[i])
            && list[i].observation < n by {
            if i < front.len() {
                assert(list[i] == front[i]);
            }
        }
        assert forall|c: Coupling| #[trigger]
            couples(s, obs, p, c) && c.observation < n implies list.contains(c) by {
            if c.observation < n - 1 {
                assert(front.contains(c));
                let i = choose|i: int| 0 <= i < front.len() && front[i] == c;
                assert(list[i] == c);
            } else {
                assert(c == pose || c == camera);
                if c == pose {
                    assert(list[front.len() as int] == c);
                } else {
                    assert(list[list.len() - 1] == c);
                }
            }
        }
        assert(list.no_duplicates()) by {
            assert forall|i: int, j: int| 0 <= i < list.len() && 0 <= j < list.len() && i
                != j implies list[i] != list[j] by {
                if i < front.len() {
                    assert(list[i] == front[i]);
                }
                if j < front.len() {
                    assert(list[j] == front[j]);
                }
            }
        }
        assert forall|i: int, j: int| 0 <= i < j < list.len() implies (
        #[trigger] list[i]).observation <= (#[trigger] list[j]).observation by {
            if i < front.len() {
                assert(list[i] == front[i]);
            }
            if j < front.len() {
                assert(list[j] == front[j]);
            }
        }
    }
}

/// A point is coupled by its own observations and by no other's: each with the
/// pose of its own image and with its own camera, as far as these have a place,
/// once each, in the order of the observations.
pub proof fn points_are_coupled_by_their_own_observations(s: Slots, obs: Seq<Sighting>, p: int)
    requires
        obs.len() <= usize::MAX,
    ensures
        ({
            let list = couplings_of(s, obs, p, obs.len());
            &&& forall|c: Coupling| #[trigger] list.contains(c) <==> couples(s, obs, p, c)
            &&& list.no_duplicates()
            &&& forall|i: int, j: int|
                0 <= i < j < list.len() ==> (#[trigger] list[i]).observation <= (
                #[trigger] list[j]).observation
        }),
{
    lemma_couplings_of(s, obs, p, obs.len());
    let list = couplings_of(s, obs, p, obs.len());
    assert forall|c: Coupling| #[trigger] list.contains(c) <==> couples(s, obs, p, c) by {
        if list.contains(c) {
            let i = choose|i: int| 0 <= i < list.len() && list[i] == c;
            assert(couples(s, obs, p, list[i]));
        }
    }
}

proof fn lemma_seen_by(images: Seq<usize>, camera_of_image: Seq<usize>, c: int, n: nat)
    requires
        n <= images.len() <= usize::MAX,
    ensures
        ({
            let out = seen_by(images, camera_of_image, c, n);
            &&& forall|x: usize| #[trigger] out.contains(x) <==> x < n && camera_of_image[images[(x as int)] as int] == c
            &&& forall|a: int, b: int| 0 <= a < b < out.len() ==> out[a] < out[b]
        }),
    decreases n,
{
    let out = seen_by(images, camera_of_image, c, n);
    if n == 0 {
        assert(out.len() == 0);
    } else {
        let rest = seen_by(images, camera_of_image, c, (n - 1) as nat);
        lemma_seen_by(images, camera_of_image, c, (n - 1) as nat);
        
        assert forall|x: usize| #[trigger] out.contains(x) <==> x < n && camera_of_image[images[(x as int)] as int] == c by {
            if rest.contains(x) {
                let a = choose|a: int| 0 <= a < rest.len() && rest[a] == x;
                assert(out[a] == x);
            }
            if out.contains(x) {
                let a = choose|a: int| 0 <= a < out.len() && out[a] == x;
                if a < rest.len() {
                    assert(rest[a] == x);
                    assert(rest.contains(x));
                }
            }
            if x == n - 1 && camera_of_image[images[(x as int)] as int] == c {
                assert(out[rest.len() as int] == x);
            }
        }
        assert forall|a: int, b: int| 0 <= a < b < out.len() implies out[a] < out[b] by {
            assert(rest.contains(rest[a]));
            if b < rest.len() {
                assert(out[b] == rest[b]);
            }
        }
    }
}

/// An observation is grouped with the camera of its image, once, and with no
/// other; the observations of a camera keep their order.
pub proof fn observations_go_to_the_camera_of_their_image(images: Seq<usize>, camera_of_image: Seq<usize>, c: int)
    requires
        images.len() <= usize::MAX,
    ensures
        forall|x: usize| #[trigger] seen_by(images, camera_of_image, c, images.len()).contains(x) <==> x < images.len() && camera_of_image[images[(x as int)] as int] == c,
        forall|a: int, b: int|
            0 <= a < b < seen_by(images, camera_of_image, c, images.len()).len() ==> seen_by(images, camera_of_image, c, images.len())[a] < seen_by(images, camera_of_image, c, images.len())[b],
{
    lemma_seen_by(images, camera_of_image, c, images.len());
}

proof fn lemma_masked_rows(s: Slots, mask: Seq<bool>, c: int, n: nat, row: usize)
    requires
        blocks_fit(s),
        0 <= c < s.cameras@.len(),
        n <= mask.len(),
    ensures
        masked_rows(s, mask, c, n).contains(row) <==> exists|k: int|
            0 <= k < n && #[trigger] mask[k] && k < s.dof@[c] && s.cameras@[c] == Some(
                (row - k) as usize,
            ) && k <= row,
    decreases n,
{
    if n > 0 {
        lemma_masked_rows(s, mask, c, (n - 1) as nat, row);
        let front = masked_rows(s, mask, c, (n - 1) as nat);
        let all = masked_rows(s, mask, c, n);
        assert(s.cameras@[c] matches Some(first) ==> first + s.dof@[c] <= s.total_dim);
        if front.contains(row) {
            let a = choose|a: int| 0 <= a < front.len() && front[a] == row;
            assert(all[a] == row);
        }
        if all.contains(row) && !front.contains(row) {
            let a = choose|a: int| 0 <= a < all.len() && all[a] == row;
            if a < front.len() {
                assert(front[a] == row);
            }
            assert(mask[n - 1]);
        }
        if mask[n - 1] && n - 1 < s.dof@[c] && s.cameras@[c] == Some((row - (n - 1)) as usize) && n
            - 1 <= row {
            assert(all[front.len() as int] == row);
        }
    }
}

proof fn lemma_decoupled(s: Slots, masks: Seq<Vec<bool>>, n: nat, row: usize)
    requires
        blocks_fit(s),
        n <= s.cameras@.len(),
    ensures
        decoupled(s, masks, n).contains(row) <==> exists|c: int, k: int|
            0 <= c < n && is_held(s, masks, c, k, row),
    decreases n,
{
    if n > 0 {
        lemma_decoupled(s, masks, (n - 1) as nat, row);
        let front = decoupled(s, masks, (n - 1) as nat);
        let all = decoupled(s, masks, n);
        if n <= masks.len() {
            let mask = masks[n - 1]@;
            let last = masked_rows(s, mask, n - 1, mask.len());
            lemma_masked_rows(s, mask, n - 1, mask.len(), row);
            if last.contains(row) {
                let a = choose|a: int| 0 <= a < last.len() && last[a] == row;
                assert(all[front.len() + a] == row);
                let k = choose|k: int|
                    0 <= k < mask.len() && #[trigger] mask[k] && k < s.dof@[n - 1]
                        && s.cameras@[n - 1] == Some((row - k) as usize) && k <= row;
                assert(is_held(s, masks, n - 1, k, row));
            }
            if all.contains(row) && !front.contains(row) {
                let a = choose|a: int| 0 <= a < all.len() && all[a] == row;
                if a < front.len() {
                    assert(front[a] == row);
                } else {
                    assert(last[a - front.len()] == row);
                }
            }
        }
        if front.contains(row) {
            let a = choose|a: int| 0 <= a < front.len() && front[a] == row;
            assert(all[a] == row);
        }
        if exists|c: int, k: int| 0 <= c < n && is_held(s, masks, c, k, row) {
            let (c, k) = choose|c: int, k: int| 0 <= c < n && is_held(s, masks, c, k, row);
            if c == n - 1 {
                assert(masks[n - 1]@[k]);
            }
        }
    }
}

/// A row of the system is that of parameter `k` of camera `c`, which its mask
/// holds fixed.
pub open spec fn is_held(s: Slots, masks: Seq<Vec<bool>>, c: int, k: int, row: usize) -> bool {
    &&& 0 <= c < masks.len()
    &&& 0 <= k < masks[c]@.len()
    &&& masks[c]@[k]
    &&& k < s.dof@[c]
    &&& s.cameras@[c] matches Some(first) && first + k == row
}

/// The rows that are cut out are exactly those of parameters that a mask holds
/// fixed: parameter `k` of a camera stands `k` rows behind the camera's first.
pub proof fn cut_rows_are_those_held_fixed(s: Slots, masks: Seq<Vec<bool>>, row: usize)
    requires
        blocks_fit(s),
    ensures
        decoupled(s, masks, s.cameras@.len()).contains(row) <==> exists|c: int, k: int|
            0 <= c < s.cameras@.len() && is_held(s, masks, c, k, row),
{
    lemma_decoupled(s, masks, s.cameras@.len(), row);
}

/// Every block of an elimination has as many rows and columns as its two
/// variables have unknowns: six for a pose, the camera's own number for a
/// camera.
pub proof fn blocks_have_the_size_of_their_variables(s: Slots, list: Seq<Coupling>, k: int)
    requires
        list.len() <= usize::MAX,
        0 <= k < updates_of(s, list, list.len()).len(),
    ensures
        ({
            let u = updates_of(s, list, list.len())[k];
            &&& u.rows == match list[target(u).0 as int].variable {
                Variable::Pose(_) => 6,
                Variable::Camera(c) => s.dof@[c as int],
            }
            &&& u.cols == match list[target(u).1 as int].variable {
                Variable::Pose(_) => 6,
                Variable::Camera(c) => s.dof@[c as int],
            }
        }),
{
    lemma_updates_of(s, list, list.len());
    let u = updates_of(s, list, list.len())[k];
    assert(u == update_at(s, list, u.left as int, u.right as int, u.mirrored));
}

/// The workers share the points evenly: together their chunks hold all of
/// them, and with one point fewer per worker they would not.
pub proof fn chunks_are_as_small_as_can_be(num_points: nat, workers: nat)
    requires
        workers > 0,
        num_points > 0,
    ensures
        chunk_size(num_points, workers) * workers >= num_points,
        (chunk_size(num_points, workers) - 1) * workers < num_points,
{
    let c = chunk_size(num_points, workers);
    let q = (num_points + workers - 1) / workers as int;
    assert(q * workers <= num_points + workers - 1 < (q + 1) * workers) by (nonlinear_arith)
        requires
            workers > 0,
            q == (num_points + workers - 1) / workers as int,
    ;
    assert(q >= 1) by (nonlinear_arith)
        requires
            workers > 0,
            num_points > 0,
            num_points + workers - 1 < (q + 1) * workers,
    ;
    assert((q + 1) * workers == q * workers + workers) by (nonlinear_arith);
    assert((q - 1) * workers == q * workers - workers) by (nonlinear_arith);
}

/// A pose has six rows of its own unless it is flagged as fixed, and a camera
/// as many as it has unknowns, unless it is flagged or has none; a variable
/// without a flag is free. The poses come first, then the cameras, each kind in
/// order.
pub proof fn free_variables_have_rows_in_order(
    s: Slots,
    num_images: nat,
    fixed_poses: Seq<bool>,
    dof: Seq<usize>,
    fixed_cameras: Seq<bool>,
    i: int,
    j: int,
    c: int,
    d: int,
)
    requires
        s.follow(num_images, fixed_poses, dof, fixed_cameras),
        0 <= i < j < num_images,
        0 <= c < d < dof.len(),
    ensures
        s.poses@[i] is None <==> i < fixed_poses.len() && fixed_poses[i],
        s.cameras@[c] is None <==> (c < fixed_cameras.len() && fixed_cameras[c]) || dof[c] == 0,
        s.poses@[i] is Some && s.poses@[j] is Some ==> s.poses@[i]->0 + 6 <= s.poses@[j]->0,
        s.cameras@[c] is Some && s.cameras@[d] is Some ==> s.cameras@[c]->0 + dof[c]
            <= s.cameras@[d]->0,
        s.poses@[i] is Some && s.cameras@[c] is Some ==> s.poses@[i]->0 + 6 <= s.cameras@[c]->0,
{
    lemma_pose_dim_grows(fixed_poses, (i + 1) as nat, j as nat);
    lemma_pose_dim_grows(fixed_poses, j as nat, num_images);
    lemma_camera_dim_grows(fixed_cameras, dof, (c + 1) as nat, d as nat);
    lemma_camera_dim_grows(fixed_cameras, dof, d as nat, dof.len());
}

/// Every point is in the range of one worker, and of one only.
pub proof fn every_point_has_one_worker(
    ranges: Seq<(usize, usize)>,
    num_points: nat,
    p: int,
    s: int,
    t: int,
)
    requires
        ranges_tile(ranges, num_points),
        0 <= p < num_points,
        0 <= s < ranges.len(),
        0 <= t < ranges.len(),
    ensures
        exists|w: int| 0 <= w < ranges.len() && (#[trigger] ranges[w]).0 <= p < ranges[w].1,
        ranges[s].0 <= p < ranges[s].1 && ranges[t].0 <= p < ranges[t].1 ==> s == t,
{
    lemma_worker_of(ranges, num_points, p, ranges.len() - 1);
    if s < t {
        lemma_ranges_in_order(ranges, num_points, s, t);
    } else if t < s {
        lemma_ranges_in_order(ranges, num_points, t, s);
    }
}

proof fn lemma_ranges_in_order(ranges: Seq<(usize, usize)>, num_points: nat, s: int, t: int)
    requires
        ranges_tile(ranges, num_points),
        0 <= s < t < ranges.len(),
    ensures
        ranges[s].1 <= ranges[t].0,
    decreases t,
{
    assert(ranges[t].0 == ranges[t - 1].1);
    if s < t - 1 {
        lemma_ranges_in_order(ranges, num_points, s, t - 1);
    }
}

proof fn lemma_worker_of(ranges: Seq<(usize, usize)>, num_points: nat, p: int, t: int)
    requires
        ranges_tile(ranges, num_points),
        0 <= t < ranges.len(),
        0 <= p < ranges[t].1,
    ensures
        exists|w: int| 0 <= w < ranges.len() && (#[trigger] ranges[w]).0 <= p < ranges[w].1,
    decreases t,
{
    if ranges[t].0 <= p {
        assert(ranges[t].0 <= p < ranges[t].1);
    } else {
        assert(ranges[t].0 == ranges[t - 1].1);
        lemma_worker_of(ranges, num_points, p, t - 1);
    }
}

} // verus!
