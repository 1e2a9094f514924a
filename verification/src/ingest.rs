//! Giving detected images their camera and their row in the project.

use std::collections::HashMap;

use vstd::prelude::*;

use crate::camera;
use crate::camera::CameraModel;
use crate::error::SfmError;
use crate::paths;
use crate::project;
use crate::project::{glob_match, CameraConfig};
use crate::text;
use crate::text::decimal_string;

verus! {

/// An image about to be stored.
#[derive(Debug)]
pub struct Incoming {
    pub name: String,
    pub capture_id: u32,
    /// The physical camera that the dataset's layout identified.
    pub camera_id: u32,
    pub image_index: u32,
    pub width: u32,
    pub height: u32,
}

/// What is known of the project's rows while images are stored.
pub struct Ingest {
    pub next_camera_id: u32,
    pub next_image_id: u32,
    /// The camera of each declared camera, once one was made.
    pub declared: Vec<Option<u32>>,
    /// The camera of each physical camera.
    pub physical: HashMap<u32, u32>,
    /// The camera of each image size.
    pub sizes: HashMap<u64, u32>,
    /// The row of each image name.
    pub images: Vec<(String, u32)>,
}

/// An image size as one number.
pub open spec fn size_key(width: u32, height: u32) -> u64 {
    (width as int * 4294967296 + height as int) as u64
}

/// The key of an image size.
pub fn size_key_of(width: u32, height: u32) -> (k: u64)
    ensures
        k == size_key(width, height),
{
    (width as u64) * 4294967296 + height as u64
}

/// Different sizes have different keys.
pub proof fn size_keys_differ(a: u32, b: u32, c: u32, d: u32)
    ensures
        size_key(a, b) == size_key(c, d) <==> a == c && b == d,
{
    let (x, y) = (a as int * 4294967296 + b as int, c as int * 4294967296 + d as int);
    assert(x <= u64::MAX && y <= u64::MAX);
}

/// The first of the first `n` globs that matches a name.
pub open spec fn first_glob(globs: Seq<String>, name: Seq<char>, n: nat) -> Option<int>
    decreases n,
{
    if n == 0 {
        None
    } else {
        match first_glob(globs, name, (n - 1) as nat) {
            Some(i) => Some(i),
            None => if project::matches_glob(globs[n - 1]@, name) {
                Some(n - 1)
            } else {
                None
            },
        }
    }
}

/// The first glob that matches a name.
pub fn find_glob(globs: &Vec<String>, name: &str) -> (r: Option<usize>)
    ensures
        match r {
            Some(i) => i < globs@.len() && first_glob(globs@, name@, globs@.len()) == Some(
                i as int,
            ),
            None => first_glob(globs@, name@, globs@.len()) is None,
        },
{
    let mut found: Option<usize> = None;
    let mut i: usize = 0;
    while i < globs.len()
        invariant
            i <= globs.len(),
            match found {
                Some(k) => k < i && first_glob(globs@, name@, i as nat) == Some(k as int),
                None => first_glob(globs@, name@, i as nat) is None,
            },
        decreases globs.len() - i,
    {
        if found.is_none() && glob_match(globs[i].as_str(), name) {
            found = Some(i);
        }
        i += 1;
    }
    found
}

/// The complaint about an image that no declared camera claims.
pub open spec fn unclaimed(name: Seq<char>, declared: nat) -> Seq<char> {
    "image "@ + name + " matches none of the "@ + text::decimal(declared)
        + " declared [[cameras]] globs in sfm.toml (add a catch-all `images = \"*\"` entry if that is intended)"@
}

/// The row of a name among the first `n` known ones.
pub open spec fn row_of(images: Seq<(String, u32)>, name: Seq<char>, n: nat) -> Option<u32>
    decreases n,
{
    if n == 0 {
        None
    } else {
        match row_of(images, name, (n - 1) as nat) {
            Some(id) => Some(id),
            None => if images[n - 1].0@ == name {
                Some(images[n - 1].1)
            } else {
                None
            },
        }
    }
}

/// Nothing but the cameras changed.
pub open spec fn same_images(a: Ingest, b: Ingest) -> bool {
    a.images == b.images && a.next_image_id == b.next_image_id
}

impl Ingest {
    /// Starts from what the project holds: the largest ids in use, the cameras
    /// by image size and the images by name.
    pub fn begin(
        max_camera_id: u32,
        max_image_id: u32,
        sizes: HashMap<u64, u32>,
        images: Vec<(String, u32)>,
        num_declared: usize,
    ) -> (r: Ingest)
        requires
            max_camera_id < u32::MAX,
            max_image_id < u32::MAX,
        ensures
            r.next_camera_id == max_camera_id + 1,
            r.next_image_id == max_image_id + 1,
            r.declared@ == Seq::new(num_declared as nat, |i: int| None::<u32>),
            r.physical@ == Map::<u32, u32>::empty(),
            r.sizes == sizes,
            r.images == images,
    {
        let mut declared: Vec<Option<u32>> = Vec::new();
        let mut i: usize = 0;
        while i < num_declared
            invariant
                i <= num_declared,
                declared@ == Seq::new(i as nat, |i: int| None::<u32>),
            decreases num_declared - i,
        {
            declared.push(None);
            i += 1;
            assert(declared@ =~= Seq::new(i as nat, |i: int| None::<u32>));
        }
        Ingest {
            next_camera_id: max_camera_id + 1,
            next_image_id: max_image_id + 1,
            declared,
            physical: HashMap::new(),
            sizes,
            images,
        }
    }

    /// The camera of an image, and whether it is a new one. The most explicit
    /// source comes first: declared globs, then the physical camera that the
    /// layout identified, then image size. The middle case is what keeps
    /// several same-resolution cameras in a rig from collapsing into one
    /// intrinsics block.
    pub fn camera_for(
        &mut self,
        image: &Incoming,
        globs: &Vec<String>,
        num_physical: usize,
    ) -> (r: Result<(u32, bool), SfmError>)
        requires
            old(self).next_camera_id < u32::MAX,
            old(self).declared@.len() == globs@.len(),
        ensures
            same_images(*old(self), *final(self)),
            final(self).declared@.len() == old(self).declared@.len(),
            match r {
                Ok((id, is_new)) => {
                    &&& is_new ==> id == old(self).next_camera_id && final(self).next_camera_id
                        == id + 1
                    &&& !is_new ==> final(self).next_camera_id == old(self).next_camera_id
                    &&& if globs@.len() > 0 {
                        let w = first_glob(globs@, image.name@, globs@.len());
                        &&& w is Some
                        &&& is_new == (old(self).declared@[w->0] is None)
                        &&& !is_new ==> old(self).declared@[w->0] == Some(id)
                        &&& final(self).declared@ == old(self).declared@.update(w->0, Some(id))
                        &&& final(self).physical@ == old(self).physical@
                        &&& final(self).sizes@ == old(self).sizes@
                    } else if num_physical > 1 {
                        let k = image.camera_id;
                        &&& is_new == !old(self).physical@.dom().contains(k)
                        &&& !is_new ==> old(self).physical@[k] == id
                        &&& final(self).physical@ == old(self).physical@.insert(k, id)
                        &&& final(self).declared@ == old(self).declared@
                        &&& final(self).sizes@ == old(self).sizes@
                    } else {
                        let k = size_key(image.width, image.height);
                        &&& is_new == !old(self).sizes@.dom().contains(k)
                        &&& !is_new ==> old(self).sizes@[k] == id
                        &&& final(self).sizes@ == old(self).sizes@.insert(k, id)
                        &&& final(self).declared@ == old(self).declared@
                        &&& final(self).physical@ == old(self).physical@
                    }
                },
                Err(e) => {
                    &&& *final(self) == *old(self)
                    &&& globs@.len() > 0
                    &&& first_glob(globs@, image.name@, globs@.len()) is None
                    &&& e matches SfmError::Other(m) && m@ == unclaimed(
                        image.name@,
                        globs@.len(),
                    )
                },
            },
    {
        broadcast use vstd::std_specs::hash::group_hash_axioms;

        if globs.len() > 0 {
            return match find_glob(globs, image.name.as_str()) {
                Some(w) => match self.declared[w] {
                    Some(id) => {
                        assert(self.declared@.update(w as int, Some(id)) =~= self.declared@);
                        Ok((id, false))
                    },
                    None => {
                        let id: u32 = self.next_camera_id;
                        self.next_camera_id = id + 1;
                        self.declared.set(w, Some(id));
                        Ok((id, true))
                    },
                },
                None => {
                    let mut m = String::from_str("image ");
                    m.append(image.name.as_str());
                    m.append(" matches none of the ");
                    m.append(decimal_string(globs.len() as u64).as_str());
                    m.append(
                        " declared [[cameras]] globs in sfm.toml (add a catch-all `images = \"*\"` entry if that is intended)",
                    );
                    Err(SfmError::Other(m))
                },
            };
        }
        if num_physical > 1 {
            let k: u32 = image.camera_id;
            if let Some(id) = self.physical.get(&k) {
                let id: u32 = *id;
                assert(self.physical@.insert(k, id) =~= self.physical@);
                return Ok((id, false));
            }
            let id: u32 = self.next_camera_id;
            self.next_camera_id = id + 1;
            self.physical.insert(k, id);
            return Ok((id, true));
        }
        let k: u64 = size_key_of(image.width, image.height);
        if let Some(id) = self.sizes.get(&k) {
            let id: u32 = *id;
            assert(self.sizes@.insert(k, id) =~= self.sizes@);
            return Ok((id, false));
        }
        let id: u32 = self.next_camera_id;
        self.next_camera_id = id + 1;
        self.sizes.insert(k, id);
        Ok((id, true))
    }

    /// The row of an image: the one it has, or a new one.
    pub fn image_for(&mut self, name: &String) -> (id: u32)
        requires
            old(self).next_image_id < u32::MAX,
        ensures
            ({
                let known = row_of(old(self).images@, name@, old(self).images@.len());
                &&& known matches Some(k) ==> id == k && *final(self) == *old(self)
                &&& known is None ==> {
                    &&& id == old(self).next_image_id
                    &&& final(self).next_image_id == id + 1
                    &&& final(self).images@.len() == old(self).images@.len() + 1
                    &&& final(self).images@.drop_last() == old(self).images@
                    &&& final(self).images@.last().0@ == name@
                    &&& final(self).images@.last().1 == id
                    &&& final(self).next_camera_id == old(self).next_camera_id
                    &&& final(self).declared == old(self).declared
                    &&& final(self).physical == old(self).physical
                    &&& final(self).sizes == old(self).sizes
                }
            }),
    {
        let mut i: usize = 0;
        let mut found: Option<u32> = None;
        while i < self.images.len()
            invariant
                i <= self.images.len(),
                *self == *old(self),
                found == row_of(self.images@, name@, i as nat),
            decreases self.images.len() - i,
        {
            if found.is_none() && self.images[i].0 == *name {
                found = Some(self.images[i].1);
            }
            i += 1;
        }
        match found {
            Some(id) => id,
            None => {
                let id: u32 = self.next_image_id;
                self.next_image_id = id + 1;
                let ghost before = self.images@;
                self.images.push((name.clone(), id));
                assert(self.images@.drop_last() =~= before);
                id
            },
        }
    }
}

/// Cameras stay apart: while ids already given are below the next one, a new
/// camera shares its id with none of them.
pub open spec fn ids_below(s: Ingest) -> bool {
    &&& forall|w: int|
        0 <= w < s.declared@.len() ==> ((#[trigger] s.declared@[w]) matches Some(id) ==> id
            < s.next_camera_id)
    &&& forall|k: u32|
        s.physical@.dom().contains(k) ==> (#[trigger] s.physical@[k]) < s.next_camera_id
    &&& forall|k: u64| s.sizes@.dom().contains(k) ==> (#[trigger] s.sizes@[k]) < s.next_camera_id
}

/// No two physical cameras share a camera.
pub open spec fn physical_apart(s: Ingest) -> bool {
    forall|a: u32, b: u32|
        s.physical@.dom().contains(a) && s.physical@.dom().contains(b) && (
        #[trigger] s.physical@[a]) == (#[trigger] s.physical@[b]) ==> a == b
}

/// Storing an image of a physical camera keeps cameras apart: two physical
/// cameras never get the same intrinsics.
pub proof fn physical_cameras_stay_apart(before: Ingest, after: Ingest, camera: u32, id: u32)
    requires
        ids_below(before),
        physical_apart(before),
        if before.physical@.dom().contains(camera) {
            before.physical@[camera] == id && after.next_camera_id == before.next_camera_id
        } else {
            id == before.next_camera_id && after.next_camera_id == id + 1
        },
        after.physical@ == before.physical@.insert(camera, id),
        after.declared@ == before.declared@,
        after.sizes@ == before.sizes@,
    ensures
        ids_below(after),
        physical_apart(after),
{
    assert forall|a: u32, b: u32| after.physical@.dom().contains(a)
        && after.physical@.dom().contains(b) && (#[trigger] after.physical@[a]) == (
    #[trigger] after.physical@[b]) implies a == b by {
        if a != camera && b != camera {
            assert(before.physical@[a] == before.physical@[b]);
        } else if a != camera {
            assert(before.physical@[a] < before.next_camera_id);
            if before.physical@.dom().contains(camera) {
                assert(before.physical@[a] == before.physical@[camera]);
            }
        } else if b != camera {
            assert(before.physical@[b] < before.next_camera_id);
            if before.physical@.dom().contains(camera) {
                assert(before.physical@[b] == before.physical@[camera]);
            }
        }
    }
    assert forall|k: u32| after.physical@.dom().contains(k) implies (#[trigger] after.physical@[k])
        < after.next_camera_id by {
        if k != camera {
            assert(before.physical@[k] < before.next_camera_id);
        }
    }
}

/// The capture an image is stored with. A merged image spans captures, so it
/// has no single capture of origin.
pub fn capture_column(merged: bool, num_captures: usize, capture_id: u32) -> (r: i64)
    ensures
        r == if merged && num_captures > 1 {
            -1
        } else {
            capture_id as int
        },
{
    if merged && num_captures > 1 {
        -1
    } else {
        capture_id as i64
    }
}

/// The identity of one fiducial corner:
/// `capture_camera_image_marker_corner`.
pub open spec fn corner_id(
    capture: u32,
    camera: u32,
    image: u32,
    marker: u32,
    corner: u32,
) -> Seq<char> {
    text::decimal(capture as nat) + "_"@ + text::decimal(camera as nat) + "_"@ + text::decimal(
        image as nat,
    ) + "_"@ + text::decimal(marker as nat) + "_"@ + text::decimal(corner as nat)
}

/// One row of the list of fiducial corners; `x` and `y` are written with three
/// decimals.
pub fn corner_line(
    key: (u32, u32, u32),
    image: &Incoming,
    image_id: u32,
    x: &str,
    y: &str,
) -> (r: String)
    ensures
        r@ == corner_id(key.0, image.camera_id, image.image_index, key.1, key.2) + ","@
            + text::decimal(image_id as nat) + ","@ + image.name@ + ","@ + x@ + ","@ + y@,
{
    let mut s = decimal_string(key.0 as u64);
    s.append("_");
    s.append(decimal_string(image.camera_id as u64).as_str());
    s.append("_");
    s.append(decimal_string(image.image_index as u64).as_str());
    s.append("_");
    s.append(decimal_string(key.1 as u64).as_str());
    s.append("_");
    s.append(decimal_string(key.2 as u64).as_str());
    s.append(",");
    s.append(decimal_string(image_id as u64).as_str());
    s.append(",");
    s.append(image.name.as_str());
    s.append(",");
    s.append(x);
    s.append(",");
    s.append(y);
    s
}

// ---------------------------------------------------------------------------
// Declared models
// ---------------------------------------------------------------------------

/// The model a declared camera names.
pub open spec fn declared_name<T>(cfg: CameraConfig<T>) -> Seq<char> {
    match cfg.model {
        Some(m) => m@,
        None => "SIMPLE_RADIAL"@,
    }
}

/// The model that a declared camera stands for: its known parameters, or a
/// guess from the image size.
pub open spec fn declared_model<T>(
    cfg: CameraConfig<T>,
    focal: T,
    centre: (T, T),
    zero: T,
) -> Option<CameraModel<T>> {
    match cfg.params {
        Some(p) => camera::model_of(declared_name(cfg), p@),
        None => camera::seeded(declared_name(cfg), (focal, focal), centre, zero),
    }
}

pub open spec fn model_complaint<T>(cfg: CameraConfig<T>) -> Seq<char> {
    match cfg.params {
        Some(p) => "camera \""@ + cfg.name@ + "\": model "@ + declared_name(cfg)
            + " does not accept "@ + text::decimal(p@.len()) + " parameters"@,
        None => "camera \""@ + cfg.name@ + "\": unknown model "@ + declared_name(cfg),
    }
}

/// The model of a declared camera. `focal` and `centre` are the guess from the
/// image size.
pub fn configured_model<T: Copy>(
    cfg: &CameraConfig<T>,
    focal: T,
    centre: (T, T),
    zero: T,
) -> (r: Result<CameraModel<T>, SfmError>)
    requires
        cfg.params matches Some(p) ==> (camera::param_count(declared_name(*cfg)) matches Some(n)
            ==> n <= p@.len()),
    ensures
        match r {
            Ok(m) => declared_model(*cfg, focal, centre, zero) == Some(m),
            Err(e) => declared_model(*cfg, focal, centre, zero) is None && (e matches SfmError::Other(
                m,
            ) && m@ == model_complaint(*cfg)),
        },
{
    let name: &str = match &cfg.model {
        Some(m) => m.as_str(),
        None => "SIMPLE_RADIAL",
    };
    let model = match &cfg.params {
        Some(p) => CameraModel::from_name_and_params(name, p.as_slice()),
        None => camera::default_camera_model(name, focal, centre, zero),
    };
    match model {
        Some(m) => Ok(m),
        None => {
            let mut m = String::from_str("camera \"");
            m.append(cfg.name.as_str());
            match &cfg.params {
                Some(p) => {
                    m.append("\": model ");
                    m.append(name);
                    m.append(" does not accept ");
                    m.append(decimal_string(p.len() as u64).as_str());
                    m.append(" parameters");
                },
                None => {
                    m.append("\": unknown model ");
                    m.append(name);
                },
            }
            Err(SfmError::Other(m))
        },
    }
}

/// Whether a declared camera gives at least the parameters that its model
/// takes, where it gives any.
pub open spec fn has_enough_params<T>(cfg: CameraConfig<T>) -> bool {
    cfg.params matches Some(p) ==> (camera::param_count(declared_name(cfg)) matches Some(n) ==> n
        <= p@.len())
}

/// The model of a declared camera, unless it names none that is known or gives
/// parameters that the model does not accept.
pub fn usable_model<T: Copy>(cfg: &CameraConfig<T>, focal: T, centre: (T, T), zero: T) -> (r:
    Result<CameraModel<T>, SfmError>)
    ensures
        match r {
            Ok(m) => has_enough_params(*cfg) && declared_model(*cfg, focal, centre, zero) == Some(
                m,
            ),
            Err(e) => (!has_enough_params(*cfg) || declared_model(*cfg, focal, centre, zero)
                is None) && (e matches SfmError::Other(m) && m@ == model_complaint(*cfg)),
        },
{
    let name: &str = match &cfg.model {
        Some(m) => m.as_str(),
        None => "SIMPLE_RADIAL",
    };
    if let Some(p) = &cfg.params {
        if let Some(n) = camera::count_params(name) {
            if n > p.len() {
                let mut m = String::from_str("camera \"");
                m.append(cfg.name.as_str());
                m.append("\": model ");
                m.append(name);
                m.append(" does not accept ");
                m.append(decimal_string(p.len() as u64).as_str());
                m.append(" parameters");
                return Err(SfmError::Other(m));
            }
        }
    }
    configured_model(cfg, focal, centre, zero)
}

/// What is said of a new camera that is declared.
pub open spec fn camera_text<T>(id: u32, cfg: CameraConfig<T>) -> Seq<char> {
    "camera "@ + text::decimal(id as nat) + " \""@ + cfg.name@ + "\" ("@ + declared_name(cfg) + (
    if cfg.params is Some {
        ", known intrinsics"@
    } else {
        Seq::empty()
    }) + ")"@ + (if cfg.refine == Some(false) {
        ", held fixed"@
    } else {
        Seq::empty()
    })
}

/// Announces a new camera that is declared.
pub fn camera_note<T>(id: u32, cfg: &CameraConfig<T>) -> (r: String)
    ensures
        r@ == camera_text(id, *cfg),
{
    let mut s = String::from_str("camera ");
    s.append(decimal_string(id as u64).as_str());
    s.append(" \"");
    s.append(cfg.name.as_str());
    s.append("\" (");
    match &cfg.model {
        Some(m) => s.append(m.as_str()),
        None => s.append("SIMPLE_RADIAL"),
    }
    if cfg.params.is_some() {
        s.append(", known intrinsics");
    }
    s.append(")");
    match cfg.refine {
        Some(refined) => {
            if !refined {
                s.append(", held fixed");
            }
        },
        None => {},
    }
    assert(s@ =~= camera_text(id, *cfg));
    s
}

/// The glob that claims an image is the first that matches its name.
pub proof fn the_first_matching_glob_claims(globs: Seq<String>, name: Seq<char>, n: nat)
    requires
        n <= globs.len(),
    ensures
        match first_glob(globs, name, n) {
            Some(i) => 0 <= i < n && project::matches_glob(globs[i]@, name) && forall|j: int|
                0 <= j < i ==> !project::matches_glob((#[trigger] globs[j])@, name),
            None => forall|j: int|
                0 <= j < n ==> !project::matches_glob((#[trigger] globs[j])@, name),
        },
    decreases n,
{
    if n > 0 {
        the_first_matching_glob_claims(globs, name, (n - 1) as nat);
    }
}

proof fn lemma_row_of(images: Seq<(String, u32)>, name: Seq<char>, n: nat)
    requires
        n <= images.len(),
    ensures
        match row_of(images, name, n) {
            Some(id) => exists|i: int|
                0 <= i < n && (#[trigger] images[i]).0@ == name && images[i].1 == id && forall|
                    j: int,
                |
                    0 <= j < i ==> (#[trigger] images[j]).0@ != name,
            None => forall|j: int| 0 <= j < n ==> (#[trigger] images[j]).0@ != name,
        },
    decreases n,
{
    if n > 0 {
        lemma_row_of(images, name, (n - 1) as nat);
        if row_of(images, name, (n - 1) as nat) is None && images[n - 1].0@ == name {
            assert(images[n - 1].1 == row_of(images, name, n)->0);
        }
    }
}

/// An image that is known by its name has the row it was first given.
pub proof fn known_images_have_their_first_row(images: Seq<(String, u32)>, name: Seq<char>)
    ensures
        match row_of(images, name, images.len()) {
            Some(id) => exists|i: int|
                0 <= i < images.len() && (#[trigger] images[i]).0@ == name && images[i].1 == id
                    && forall|j: int| 0 <= j < i ==> (#[trigger] images[j]).0@ != name,
            None => forall|j: int| 0 <= j < images.len() ==> (#[trigger] images[j]).0@ != name,
        },
{
    lemma_row_of(images, name, images.len());
}

/// A new image is known from then on by the row it was given, and the images
/// known before keep theirs.
pub proof fn new_images_are_known_afterwards(
    images: Seq<(String, u32)>,
    name: String,
    id: u32,
    other: Seq<char>,
)
    requires
        row_of(images, name@, images.len()) is None,
    ensures
        row_of(images.push((name, id)), name@, images.len() + 1) == Some(id),
        other != name@ ==> row_of(images.push((name, id)), other, images.len() + 1) == row_of(
            images,
            other,
            images.len(),
        ),
{
    lemma_row_prefix(images, (name, id), name@, images.len());
    lemma_row_prefix(images, (name, id), other, images.len());
}

proof fn lemma_row_prefix(images: Seq<(String, u32)>, last: (String, u32), name: Seq<char>, n: nat)
    requires
        n <= images.len(),
    ensures
        row_of(images.push(last), name, n) == row_of(images, name, n),
    decreases n,
{
    if n > 0 {
        lemma_row_prefix(images, last, name, (n - 1) as nat);
    }
}

proof fn lemma_decimal_unsplit(n: nat)
    ensures
        !text::decimal(n).contains('_'),
{
    text::decimal_reads_back(n);
    if text::decimal(n).contains('_') {
        let k = choose|k: int| 0 <= k < text::decimal(n).len() && text::decimal(n)[k] == '_';
        assert(text::is_digit(text::decimal(n)[k]));
    }
}

proof fn lemma_corner_parts(capture: u32, camera: u32, image: u32, marker: u32, corner: u32)
    ensures
        paths::split_on(corner_id(capture, camera, image, marker, corner), '_') == seq![
            text::decimal(capture as nat),
            text::decimal(camera as nat),
            text::decimal(image as nat),
            text::decimal(marker as nat),
            text::decimal(corner as nat),
        ],
{
    reveal_strlit("_");
    let parts = seq![
        text::decimal(capture as nat),
        text::decimal(camera as nat),
        text::decimal(image as nat),
        text::decimal(marker as nat),
        text::decimal(corner as nat),
    ];
    lemma_decimal_unsplit(capture as nat);
    lemma_decimal_unsplit(camera as nat);
    lemma_decimal_unsplit(image as nat);
    lemma_decimal_unsplit(marker as nat);
    lemma_decimal_unsplit(corner as nat);
    assert("_"@ =~= seq!['_']);
    reveal_with_fuel(paths::join_with, 6);
    assert(parts.drop_last().drop_last().drop_last().drop_last() =~= seq![parts[0]]);
    assert(paths::join_with(parts, seq!['_']) =~= corner_id(
        capture,
        camera,
        image,
        marker,
        corner,
    ));
    paths::joined_pieces_are_split_again(parts, '_');
}

/// Two corners with one identity are the same corner of the same marker in the
/// same image of the same camera and capture.
pub proof fn corner_ids_differ(
    a: (u32, u32, u32, u32, u32),
    b: (u32, u32, u32, u32, u32),
)
    requires
        corner_id(a.0, a.1, a.2, a.3, a.4) == corner_id(b.0, b.1, b.2, b.3, b.4),
    ensures
        a == b,
{
    lemma_corner_parts(a.0, a.1, a.2, a.3, a.4);
    lemma_corner_parts(b.0, b.1, b.2, b.3, b.4);
    let s = paths::split_on(corner_id(a.0, a.1, a.2, a.3, a.4), '_');
    assert(s[0] == text::decimal(a.0 as nat) && s[0] == text::decimal(b.0 as nat));
    assert(s[1] == text::decimal(a.1 as nat) && s[1] == text::decimal(b.1 as nat));
    assert(s[2] == text::decimal(a.2 as nat) && s[2] == text::decimal(b.2 as nat));
    assert(s[3] == text::decimal(a.3 as nat) && s[3] == text::decimal(b.3 as nat));
    assert(s[4] == text::decimal(a.4 as nat) && s[4] == text::decimal(b.4 as nat));
    text::decimal_reads_back(a.0 as nat);
    text::decimal_reads_back(a.1 as nat);
    text::decimal_reads_back(a.2 as nat);
    text::decimal_reads_back(a.3 as nat);
    text::decimal_reads_back(a.4 as nat);
    text::decimal_reads_back(b.0 as nat);
    text::decimal_reads_back(b.1 as nat);
    text::decimal_reads_back(b.2 as nat);
    text::decimal_reads_back(b.3 as nat);
    text::decimal_reads_back(b.4 as nat);
}

/// A declared camera has the model that it names, or SIMPLE_RADIAL where it
/// names none. Its parameters are those declared, where any are, and else the
/// guess without distortion.
pub proof fn declared_cameras_are_as_declared<T>(
    cfg: CameraConfig<T>,
    focal: T,
    centre: (T, T),
    zero: T,
)
    requires
        declared_model(cfg, focal, centre, zero) is Some,
        has_enough_params(cfg),
    ensures
        ({
            let m = declared_model(cfg, focal, centre, zero)->0;
            &&& cfg.model matches Some(name) ==> m.name_text() == name@
            &&& cfg.model is None ==> m is SimpleRadial
            &&& cfg.params matches Some(p) ==> m.values() == p@.take(m.values().len() as int)
            &&& cfg.params is None ==> m.focals() == (focal, focal) && m.centre() == centre
                && m.distortion(zero) == seq![zero, zero, zero, zero, zero, zero]
        }),
{
    camera::lemma_names_differ();
    let name = declared_name(cfg);
    match cfg.params {
        Some(p) => {
            if camera::param_count(name) is Some {
                camera::named_models_keep_name_and_params(name, p@);
            }
        },
        None => {
            if camera::param_count(name) is Some {
                camera::seeding_carries_geometry(name, (focal, focal), centre, zero);
            }
        },
    }
}

/// A declared camera gives enough parameters where it gives as many as its
/// model takes, or more, or none at all.
pub proof fn as_many_parameters_as_the_model_takes_are_enough<T>(cfg: CameraConfig<T>, n: nat)
    requires
        camera::param_count(declared_name(cfg)) == Some(n),
    ensures
        cfg.params is None ==> has_enough_params(cfg),
        cfg.params matches Some(p) ==> (has_enough_params(cfg) <==> p@.len() >= n),
{
}

/// A camera is announced with its id, its name and its model; with known
/// intrinsics exactly where parameters are declared, and as held fixed exactly
/// where it is not to be refined.
pub proof fn cameras_are_announced_as_declared<T>(id: u32, cfg: CameraConfig<T>)
    ensures
        ({
            let head = "camera "@ + text::decimal(id as nat) + " \""@ + cfg.name@ + "\" ("@
                + declared_name(cfg);
            let told = camera_text(id, cfg);
            &&& cfg.params is None && cfg.refine != Some(false) ==> told == head + ")"@
            &&& cfg.params is Some && cfg.refine != Some(false) ==> told == head
                + ", known intrinsics"@ + ")"@
            &&& cfg.params is None && cfg.refine == Some(false) ==> told == head + ")"@
                + ", held fixed"@
            &&& cfg.params is Some && cfg.refine == Some(false) ==> told == head
                + ", known intrinsics"@ + ")"@ + ", held fixed"@
        }),
{
    let head = "camera "@ + text::decimal(id as nat) + " \""@ + cfg.name@ + "\" ("@
        + declared_name(cfg);
    let told = camera_text(id, cfg);
    if cfg.params is None && cfg.refine != Some(false) {
        assert(told =~= head + ")"@);
    }
    if cfg.params is Some && cfg.refine != Some(false) {
        assert(told =~= head + ", known intrinsics"@ + ")"@);
    }
    if cfg.params is None && cfg.refine == Some(false) {
        assert(told =~= head + ")"@ + ", held fixed"@);
    }
    if cfg.params is Some && cfg.refine == Some(false) {
        assert(told =~= head + ", known intrinsics"@ + ")"@ + ", held fixed"@);
    }
}

} // verus!
