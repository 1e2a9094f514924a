//! Project directory layout and configuration.
//!
//! ```text
//! <project>/
//!   sfm.toml            # optional - defaults apply when absent
//!   images/             # default input location
//!   cache/
//!     project.sqlite    # shared working store (features, matches)
//!     feature/          # feature output and learned ArUco params
//!     match/            # match output
//!     map/sparse/0/     # map output (COLMAP text model)
//!   export/             # default export destination
//! ```
//!
//! `sfm.toml` is optional: a directory with an `images/` folder in it is
//! already a valid project.

use vstd::prelude::*;

use crate::paths;
use crate::paths::join;
use crate::text;
use crate::text::{chars_of, decimal_string};

verus! {

// ---------------------------------------------------------------------------
// Globs
// ---------------------------------------------------------------------------

/// A name matches a pattern of literal characters, `*` (any run of
/// characters) and `?` (one character).
pub open spec fn matches_glob(p: Seq<char>, n: Seq<char>) -> bool
    decreases p.len() + n.len(),
{
    if p.len() == 0 {
        n.len() == 0
    } else if p[0] == '*' {
        matches_glob(p.drop_first(), n) || (n.len() > 0 && matches_glob(p, n.drop_first()))
    } else {
        n.len() > 0 && (p[0] == '?' || p[0] == n[0]) && matches_glob(
            p.drop_first(),
            n.drop_first(),
        )
    }
}

/// What `*` matches is any run of characters, the empty one too.
pub proof fn star_takes_any_run(rest: Seq<char>, n: Seq<char>, k: int)
    requires
        0 <= k <= n.len(),
        matches_glob(rest, n.skip(k)),
    ensures
        matches_glob(seq!['*'] + rest, n),
    decreases k,
{
    let p = seq!['*'] + rest;
    assert(p.drop_first() =~= rest);
    if k == 0 {
        assert(n.skip(0) =~= n);
    } else {
        assert(n.drop_first().skip(k - 1) =~= n.skip(k));
        star_takes_any_run(rest, n.drop_first(), k - 1);
    }
}

/// Where a pattern that starts with `*` matches, the `*` took some run.
pub proof fn star_took_some_run(rest: Seq<char>, n: Seq<char>) -> (k: int)
    requires
        matches_glob(seq!['*'] + rest, n),
    ensures
        0 <= k <= n.len(),
        matches_glob(rest, n.skip(k)),
    decreases n.len(),
{
    let p = seq!['*'] + rest;
    assert(p.drop_first() =~= rest);
    if matches_glob(rest, n) {
        assert(n.skip(0) =~= n);
        0
    } else {
        let k = star_took_some_run(rest, n.drop_first());
        assert(n.drop_first().skip(k) =~= n.skip(k + 1));
        k + 1
    }
}

/// Minimal glob matcher supporting `*` and `?`.
pub fn glob_match(pattern: &str, name: &str) -> (r: bool)
    ensures
        r == matches_glob(pattern@, name@),
{
    let p = chars_of(pattern);
    let n = chars_of(name);
    let len: usize = n.len();
    // `row[j]`: whether the pattern from `i` on matches the name from `j` on.
    let mut row: Vec<bool> = Vec::new();
    let ghost none = p@.skip(p@.len() as int);
    let mut j: usize = 0;
    while j < len
        invariant
            j <= len == n@.len(),
            none.len() == 0,
            row@.len() == j,
            forall|k: int| 0 <= k < j ==> #[trigger] row@[k] == matches_glob(none, n@.skip(k)),
        decreases len - j,
    {
        assert(n@.skip(j as int).len() > 0);
        row.push(false);
        j += 1;
    }
    assert(n@.skip(len as int).len() == 0);
    row.push(true);
    let mut i: usize = p.len();
    while i > 0
        invariant
            i <= p@.len(),
            len == n@.len(),
            row@.len() == len + 1,
            forall|k: int|
                0 <= k <= len ==> #[trigger] row@[k] == matches_glob(p@.skip(i as int), n@.skip(k)),
        decreases i,
    {
        i -= 1;
        let c = p[i];
        let ghost rest = p@.skip(i + 1);
        let ghost here = p@.skip(i as int);
        assert(here.drop_first() =~= rest);
        assert(here[0] == c);
        if c == '*' {
            let mut j: usize = len;
            while j > 0
                invariant
                    j <= len == n@.len(),
                    row@.len() == len + 1,
                    here.len() > 0,
                    here[0] == '*',
                    here.drop_first() == rest,
                    forall|k: int|
                        0 <= k < j ==> #[trigger] row@[k] == matches_glob(rest, n@.skip(k)),
                    forall|k: int|
                        j <= k <= len ==> #[trigger] row@[k] == matches_glob(here, n@.skip(k)),
                decreases j,
            {
                j -= 1;
                proof {
                    assert(n@.skip(j as int).drop_first() =~= n@.skip(j + 1));
                }
                let v = row[j] || row[j + 1];
                row.set(j, v);
            }
        } else {
            let mut j: usize = 0;
            while j < len
                invariant
                    j <= len == n@.len(),
                    row@.len() == len + 1,
                    here.len() > 0,
                    here[0] == c,
                    c != '*',
                    here.drop_first() == rest,
                    forall|k: int|
                        0 <= k < j ==> #[trigger] row@[k] == matches_glob(here, n@.skip(k)),
                    forall|k: int|
                        j <= k <= len ==> #[trigger] row@[k] == matches_glob(rest, n@.skip(k)),
                decreases len - j,
            {
                assert(n@.skip(j as int).drop_first() =~= n@.skip(j + 1));
                assert(n@.skip(j as int)[0] == n@[j as int]);
                let v = (c == '?' || c == n[j]) && row[j + 1];
                row.set(j, v);
                j += 1;
            }
            assert(n@.skip(len as int).len() == 0);
            row.set(len, false);
        }
    }
    assert(p@.skip(0) =~= p@);
    assert(n@.skip(0) =~= n@);
    row[0]
}

/// `*` matches every name.
pub proof fn star_matches_everything(n: Seq<char>)
    ensures
        matches_glob(seq!['*'], n),
{
    let none = Seq::<char>::empty();
    assert(n.skip(n.len() as int).len() == 0);
    star_takes_any_run(none, n, n.len() as int);
    assert(seq!['*'] + none =~= seq!['*']);
}

/// A pattern without wildcards matches exactly itself.
pub proof fn literal_patterns_match_themselves(p: Seq<char>, n: Seq<char>)
    requires
        forall|i: int| 0 <= i < p.len() ==> #[trigger] p[i] != '*' && p[i] != '?',
    ensures
        matches_glob(p, n) <==> p == n,
    decreases p.len(),
{
    if p.len() == 0 {
        assert(p == n <==> n.len() == 0) by {
            if n.len() == 0 {
                assert(p =~= n);
            }
        }
    } else if n.len() > 0 {
        let rest = p.drop_first();
        assert forall|i: int| 0 <= i < rest.len() implies #[trigger] rest[i] != '*' && rest[i]
            != '?' by {
            assert(rest[i] == p[i + 1]);
        }
        literal_patterns_match_themselves(rest, n.drop_first());
        assert(p[0] != '*' && p[0] != '?');
        if p[0] == n[0] && rest == n.drop_first() {
            assert(p =~= seq![p[0]] + rest);
            assert(n =~= seq![n[0]] + n.drop_first());
        }
    } else {
        assert(p[0] != '*' && p[0] != '?');
    }
}

/// Patterns in a row match names in a row.
pub proof fn patterns_concatenate(p: Seq<char>, q: Seq<char>, a: Seq<char>, b: Seq<char>)
    requires
        matches_glob(p, a),
        matches_glob(q, b),
    ensures
        matches_glob(p + q, a + b),
    decreases p.len() + a.len(),
{
    if p.len() == 0 {
        assert(p + q =~= q);
        assert(a + b =~= b);
    } else {
        let rest = p.drop_first();
        assert((p + q).drop_first() =~= rest + q);
        assert((p + q)[0] == p[0]);
        if p[0] == '*' {
            if matches_glob(rest, a) {
                patterns_concatenate(rest, q, a, b);
            } else {
                patterns_concatenate(p, q, a.drop_first(), b);
                assert((a + b).drop_first() =~= a.drop_first() + b);
            }
        } else {
            patterns_concatenate(rest, q, a.drop_first(), b);
            assert((a + b).drop_first() =~= a.drop_first() + b);
        }
    }
}

// ---------------------------------------------------------------------------
// Configuration
// ---------------------------------------------------------------------------

/// The contents of `sfm.toml`. Intrinsics are numbers of type `T`, poses are of
/// type `P`.
#[derive(Debug)]
pub struct ProjectConfig<T, P> {
    pub images_dir: String,
    pub detector: Option<String>,
    pub pairing: Option<String>,
    pub matcher: Option<String>,
    pub pipeline: Option<String>,
    /// Explicit camera definitions. When empty (the default), images are
    /// grouped into cameras by image resolution - which is right for the
    /// common single-camera case but silently merges *distinct* physical
    /// cameras that happen to share a resolution.
    pub cameras: Vec<CameraConfig<T>>,
    /// Known camera poses, used to initialize (and optionally pin) extrinsics.
    pub poses: Vec<PoseConfig<P>>,
}

/// One declared physical camera: which images belong to it, and optionally its
/// known calibration.
#[derive(Debug)]
pub struct CameraConfig<T> {
    /// Identifies this camera in messages.
    pub name: String,
    /// Glob matched against each image's name. Supports `*` (any run of
    /// characters) and `?` (one character).
    pub images: String,
    /// COLMAP model name. Defaults to `SIMPLE_RADIAL` when omitted.
    pub model: Option<String>,
    /// Known intrinsics in that model's parameter order. When omitted, the
    /// usual focal-length guess from image dimensions is used instead.
    pub params: Option<Vec<T>>,
    /// Whether bundle adjustment may refine these intrinsics. Defaults to
    /// `true`; `false` for a camera calibrated offline and held exactly.
    pub refine: Option<bool>,
}

/// A known pose for one image.
#[derive(Debug)]
pub struct PoseConfig<P> {
    /// Image file name this pose belongs to.
    pub image: String,
    pub pose: P,
    /// Whether the pose is pinned. Defaults to `false` (the pose is an
    /// initialization only).
    pub fixed: Option<bool>,
}

#[derive(Debug)]
pub struct Project<T, P> {
    pub root: String,
    pub config: ProjectConfig<T, P>,
}

impl<T, P> ProjectConfig<T, P> {
    /// What applies when there is no `sfm.toml`.
    pub open spec fn is_default(&self, root: Seq<char>) -> bool {
        &&& self.images_dir@ == paths::joined(root, "images"@)
        &&& self.detector is None
        &&& self.pairing is None
        &&& self.matcher is None
        &&& self.pipeline is None
        &&& self.cameras@.len() == 0
        &&& self.poses@.len() == 0
    }

    /// The configuration of a project without `sfm.toml`.
    pub fn defaults(root: &str) -> (r: Self)
        ensures
            r.is_default(root@),
    {
        ProjectConfig {
            images_dir: join(root, "images"),
            detector: None,
            pairing: None,
            matcher: None,
            pipeline: None,
            cameras: Vec::new(),
            poses: Vec::new(),
        }
    }
}

impl<T, P> Project<T, P> {
    /// Opens a project whose configuration, if there is one, has been read:
    /// without one the defaults apply, and one that names no images directory
    /// gets the default one.
    pub fn open(root: &str, config: Option<ProjectConfig<T, P>>) -> (r: Self)
        ensures
            r.root@ == root@,
            match config {
                Some(c) => {
                    &&& r.config.images_dir@ == if c.images_dir@.len() == 0 {
                        paths::joined(root@, "images"@)
                    } else {
                        c.images_dir@
                    }
                    &&& r.config.detector == c.detector
                    &&& r.config.pairing == c.pairing
                    &&& r.config.matcher == c.matcher
                    &&& r.config.pipeline == c.pipeline
                    &&& r.config.cameras == c.cameras
                    &&& r.config.poses == c.poses
                },
                None => r.config.is_default(root@),
            },
    {
        let config = match config {
            Some(c) => {
                let images_dir = if c.images_dir.as_str().unicode_len() == 0 {
                    join(root, "images")
                } else {
                    c.images_dir
                };
                ProjectConfig {
                    images_dir,
                    detector: c.detector,
                    pairing: c.pairing,
                    matcher: c.matcher,
                    pipeline: c.pipeline,
                    cameras: c.cameras,
                    poses: c.poses,
                }
            },
            None => ProjectConfig::defaults(root),
        };
        Project { root: String::from_str(root), config }
    }

    pub fn config_path(root: &str) -> (r: String)
        ensures
            r@ == paths::joined(root@, "sfm.toml"@),
    {
        join(root, "sfm.toml")
    }

    pub fn cache_dir(&self) -> (r: String)
        ensures
            r@ == paths::joined(self.root@, "cache"@),
    {
        join(self.root.as_str(), "cache")
    }

    /// Per-stage output directory, named after the stage that writes it.
    pub fn stage_dir(&self, stage: &str) -> (r: String)
        ensures
            r@ == paths::joined(paths::joined(self.root@, "cache"@), stage@),
    {
        join(self.cache_dir().as_str(), stage)
    }

    /// Shared working store. It lies beside the per-stage directories rather
    /// than inside one of them because more than one stage writes to it.
    pub fn database_path(&self) -> (r: String)
        ensures
            r@ == paths::joined(paths::joined(self.root@, "cache"@), "project.sqlite"@),
    {
        join(self.cache_dir().as_str(), "project.sqlite")
    }

    pub fn sparse_dir(&self) -> (r: String)
        ensures
            r@ == paths::joined(
                paths::joined(
                    paths::joined(paths::joined(self.root@, "cache"@), "map"@),
                    "sparse"@,
                ),
                "0"@,
            ),
    {
        join(join(self.stage_dir("map").as_str(), "sparse").as_str(), "0")
    }

    /// Default input location when `sfm.toml` does not say otherwise.
    pub fn default_images_dir(root: &str) -> (r: String)
        ensures
            r@ == paths::joined(root@, "images"@),
    {
        join(root, "images")
    }

    pub fn export_dir(&self) -> (r: String)
        ensures
            r@ == paths::joined(self.root@, "export"@),
    {
        join(self.root.as_str(), "export")
    }

    pub fn logs_dir(&self) -> (r: String)
        ensures
            r@ == paths::joined(self.root@, "logs"@),
    {
        join(self.root.as_str(), "logs")
    }

    /// Path of the learned ArUco parameters.
    pub fn aruco_params_path(&self) -> (r: String)
        ensures
            r@ == paths::joined(
                paths::joined(paths::joined(self.root@, "cache"@), "feature"@),
                "aruco_params.toml"@,
            ),
    {
        join(self.stage_dir("feature").as_str(), "aruco_params.toml")
    }

    /// Where the record of one run of a stage goes: `<stage>_<millis>.json`.
    pub fn log_path(&self, stage: &str, millis: u64) -> (r: String)
        ensures
            r@ == paths::joined(
                paths::joined(self.root@, "logs"@),
                stage@ + "_"@ + text::decimal(millis as nat) + ".json"@,
            ),
    {
        let mut name = String::from_str(stage);
        name.append("_");
        name.append(decimal_string(millis).as_str());
        name.append(".json");
        join(self.logs_dir().as_str(), name.as_str())
    }
}

/// `?` takes one character, whichever it is.
pub proof fn question_mark_takes_one(rest: Seq<char>, n: Seq<char>)
    ensures
        matches_glob(seq!['?'] + rest, n) <==> n.len() > 0 && matches_glob(rest, n.skip(1)),
{
    let p = seq!['?'] + rest;
    assert(p.drop_first() =~= rest);
    if n.len() > 0 {
        assert(n.drop_first() =~= n.skip(1));
    }
}

/// Without a configuration nothing is declared and nothing is chosen; the
/// images lie in the project's own directory of that name.
pub proof fn defaults_declare_nothing<T, P>(c: ProjectConfig<T, P>, root: Seq<char>)
    requires
        c.is_default(root),
    ensures
        c.images_dir@ == paths::joined(root, "images"@),
        c.detector is None && c.pairing is None && c.matcher is None && c.pipeline is None,
        c.cameras@.len() == 0 && c.poses@.len() == 0,
{
}

} // verus!
