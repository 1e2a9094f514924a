//! Building a link tree: what is said of the plan before, and where each link
//! goes.

use vstd::prelude::*;

use crate::error::SfmError;
use crate::layout::{Placed, Plan};
use crate::model;
use crate::model::ids_u32;
use crate::order;
use crate::order::push_text;
use crate::paths;
use crate::paths::{join, number_list, relative_link};
use crate::sets;
use crate::text;
use crate::text::{chars_of, decimal_string, string_between, wide_decimal};

verus! {

/// How many of the first `n` images a camera took in a capture.
pub open spec fn shots_by(placed: Seq<Placed>, capture_id: u32, camera_id: u32, n: nat) -> nat
    decreases n,
{
    if n == 0 {
        0
    } else {
        let last = placed[n - 1];
        shots_by(placed, capture_id, camera_id, (n - 1) as nat) + if last.capture_id == capture_id
            && last.camera_id == camera_id {
            1nat
        } else {
            0
        }
    }
}

/// The most images that a camera took in one capture, over the cameras and
/// captures of the first `n` images.
pub open spec fn most_shots(placed: Seq<Placed>, n: nat) -> nat
    decreases n,
{
    if n == 0 {
        0
    } else {
        let rest = most_shots(placed, (n - 1) as nat);
        let last = placed[n - 1];
        let here = shots_by(placed, last.capture_id, last.camera_id, placed.len());
        if here > rest {
            here
        } else {
            rest
        }
    }
}

/// The line about one camera with gaps.
pub open spec fn gap_line(plan: Plan, i: int) -> Seq<char> {
    let camera = model::ids(plan.gaps@)[i];
    "    camera "@ + text::decimal(camera as nat) + " missing from capture(s) "@ + paths::bracketed(
        plan.gaps@[camera]@,
    )
}

/// The lines about the first `n` cameras with gaps.
pub open spec fn gap_lines(plan: Plan, n: nat) -> Seq<Seq<char>> {
    Seq::new(n, |i: int| gap_line(plan, i))
}

/// One image and its link.
pub open spec fn example_line(p: Placed) -> Seq<char> {
    "  e.g. "@ + p.source@ + " -> "@ + p.link@
}

/// The first `n` images and their links.
pub open spec fn example_lines(placed: Seq<Placed>, n: nat) -> Seq<Seq<char>> {
    Seq::new(n, |i: int| example_line(placed[i]))
}

/// No more than a limit.
pub open spec fn at_most(n: nat, limit: nat) -> nat {
    if n < limit {
        n
    } else {
        limit
    }
}

/// How many of the slots are filled, where every camera has one frame per
/// capture and some are missing.
pub open spec fn slot_lines(plan: Plan) -> Seq<Seq<char>> {
    let full = plan.captures@.len() * plan.cameras@.len();
    if most_shots(plan.placed@, plan.placed@.len()) <= 1 && plan.placed@.len() != full {
        seq![
            "  "@ + text::decimal(plan.placed@.len()) + " of "@ + text::decimal(full)
                + " (capture, camera) slots are filled"@,
        ]
    } else {
        Seq::empty()
    }
}

/// Which cameras are missing from which captures: redundancy that the layout
/// exists to provide, quietly reduced.
pub open spec fn missing_lines(plan: Plan) -> Seq<Seq<char>> {
    let k = plan.gaps@.len();
    if k == 0 {
        Seq::empty()
    } else {
        seq![
            "  "@ + text::decimal(k) + " camera(s) are absent from at least one capture:"@,
        ] + gap_lines(plan, at_most(k, 10)) + (if k > 10 {
            seq!["    ... and "@ + text::decimal((k - 10) as nat) + " more"@]
        } else {
            Seq::empty()
        })
    }
}

/// How many shots a camera has per capture, where it has several.
pub open spec fn shot_lines(plan: Plan) -> Seq<Seq<char>> {
    let most = most_shots(plan.placed@, plan.placed@.len());
    if most > 1 {
        seq!["  up to "@ + text::decimal(most) + " shot(s) per camera per capture"@]
    } else {
        Seq::empty()
    }
}

/// Everything that is said of a plan.
pub open spec fn report(plan: Plan, source: Seq<char>) -> Seq<Seq<char>> {
    seq![
        "Source "@ + source,
        "  "@ + text::decimal(plan.captures@.len()) + " captures x "@ + text::decimal(
            plan.cameras@.len(),
        ) + " cameras -> "@ + text::decimal(plan.placed@.len()) + " images"@,
    ] + slot_lines(plan) + missing_lines(plan) + shot_lines(plan) + example_lines(
        plan.placed@,
        at_most(plan.placed@.len(), 3),
    )
}

fn add_gaps(plan: &Plan, out: &mut Vec<String>)
    ensures
        order::texts(final(out)@) == order::texts(old(out)@) + missing_lines(*plan),
{
    broadcast use vstd::std_specs::btree::group_btree_axioms;

    let ghost start = order::texts(out@);
    let cameras = ids_u32(&plan.gaps);
    let k: usize = cameras.len();
    if k == 0 {
        assert(order::texts(out@) =~= start + missing_lines(*plan));
        return;
    }
    let mut head = String::from_str("  ");
    head.append(decimal_string(k as u64).as_str());
    head.append(" camera(s) are absent from at least one capture:");
    let ghost title = head@;
    push_text(out, head);
    let ghost body = order::texts(out@);
    let shown: usize = if k < 10 {
        k
    } else {
        10
    };
    let mut i: usize = 0;
    assert(order::texts(out@) =~= body + gap_lines(*plan, 0));
    while i < shown
        invariant
            i <= shown <= k,
            k == cameras@.len(),
            cameras@ == model::ids(plan.gaps@),
            cameras@.to_set() == plan.gaps@.dom(),
            order::texts(out@) == body + gap_lines(*plan, i as nat),
        decreases shown - i,
    {
        let camera: u32 = cameras[i];
        assert(cameras@.to_set().contains(camera)) by {
            assert(cameras@[i as int] == camera);
        }
        assert(plan.gaps@.contains_key(camera));
        let mut line = String::from_str("    camera ");
        line.append(decimal_string(camera as u64).as_str());
        line.append(" missing from capture(s) ");
        match plan.gaps.get(&camera) {
            Some(missing) => {
                line.append(number_list(missing).as_str());
            },
            None => {
                assert(false);
            },
        }
        push_text(out, line);
        i += 1;
        assert(order::texts(out@) =~= body + gap_lines(*plan, i as nat));
    }
    if k > 10 {
        let mut more = String::from_str("    ... and ");
        more.append(decimal_string((k - 10) as u64).as_str());
        more.append(" more");
        push_text(out, more);
    }
    assert(order::texts(out@) =~= start + missing_lines(*plan));
}

/// How many images a camera took in a capture.
fn count_shots(placed: &Vec<Placed>, capture_id: u32, camera_id: u32) -> (count: usize)
    ensures
        count == shots_by(placed@, capture_id, camera_id, placed@.len()),
{
    let mut count: usize = 0;
    let mut i: usize = 0;
    while i < placed.len()
        invariant
            count <= i <= placed@.len(),
            count == shots_by(placed@, capture_id, camera_id, i as nat),
        decreases placed@.len() - i,
    {
        if placed[i].capture_id == capture_id && placed[i].camera_id == camera_id {
            count += 1;
        }
        i += 1;
    }
    count
}

/// Describes a plan.
pub fn link_report(plan: &Plan, source: &str) -> (out: Vec<String>)
    ensures
        order::texts(out@) == report(*plan, source@),
{
    broadcast use vstd::std_specs::btree::group_btree_axioms;

    let total: usize = plan.placed.len();
    let mut most: usize = 0;
    let mut i: usize = 0;
    while i < total
        invariant
            i <= total == plan.placed@.len(),
            most == most_shots(plan.placed@, i as nat),
        decreases total - i,
    {
        let here: usize = count_shots(
            &plan.placed,
            plan.placed[i].capture_id,
            plan.placed[i].camera_id,
        );
        if here > most {
            most = here;
        }
        i += 1;
    }
    let captures: usize = plan.captures.len();
    let cameras: usize = plan.cameras.len();
    let mut out: Vec<String> = Vec::new();
    let mut head = String::from_str("Source ");
    head.append(source);
    let ghost first = head@;
    push_text(&mut out, head);
    let mut counts = String::from_str("  ");
    counts.append(decimal_string(captures as u64).as_str());
    counts.append(" captures x ");
    counts.append(decimal_string(cameras as u64).as_str());
    counts.append(" cameras -> ");
    counts.append(decimal_string(total as u64).as_str());
    counts.append(" images");
    let ghost second = counts@;
    push_text(&mut out, counts);
    let ghost opening = order::texts(out@);
    assert(opening =~= seq![first, second]);
    assert(captures * cameras <= u128::MAX) by (nonlinear_arith)
        requires
            captures <= 0xffff_ffff_ffff_ffff,
            cameras <= 0xffff_ffff_ffff_ffff,
    ;
    let full: u128 = captures as u128 * cameras as u128;
    if most <= 1 && total as u128 != full {
        let mut line = String::from_str("  ");
        line.append(decimal_string(total as u64).as_str());
        line.append(" of ");
        line.append(wide_decimal(full).as_str());
        line.append(" (capture, camera) slots are filled");
        push_text(&mut out, line);
    }
    let ghost slots = order::texts(out@);
    assert(slots =~= opening + slot_lines(*plan));
    add_gaps(plan, &mut out);
    let ghost gaps = order::texts(out@);
    if most > 1 {
        let mut line = String::from_str("  up to ");
        line.append(decimal_string(most as u64).as_str());
        line.append(" shot(s) per camera per capture");
        push_text(&mut out, line);
    }
    let ghost shots = order::texts(out@);
    assert(shots =~= gaps + shot_lines(*plan));
    let shown: usize = if total < 3 {
        total
    } else {
        3
    };
    let mut k: usize = 0;
    assert(order::texts(out@) =~= shots + example_lines(plan.placed@, 0));
    while k < shown
        invariant
            k <= shown <= plan.placed@.len(),
            order::texts(out@) == shots + example_lines(plan.placed@, k as nat),
        decreases shown - k,
    {
        let mut line = String::from_str("  e.g. ");
        line.append(plan.placed[k].source.as_str());
        line.append(" -> ");
        line.append(plan.placed[k].link.as_str());
        push_text(&mut out, line);
        k += 1;
        assert(order::texts(out@) =~= shots + example_lines(plan.placed@, k as nat));
    }
    out
}

// ---------------------------------------------------------------------------
// Building the tree
// ---------------------------------------------------------------------------

/// Whether a tree that stands in the way is to be removed first; it is only
/// rebuilt where that was asked for.
pub fn rebuilds(exists: bool, force: bool, target: &str) -> (r: Result<bool, SfmError>)
    ensures
        match r {
            Ok(remove) => (exists ==> force) && remove == exists,
            Err(e) => e matches SfmError::Other(m) && exists && !force && m@ == target@
                + " already exists; pass --force to rebuild it"@,
        },
{
    if exists && !force {
        let mut m = String::from_str(target);
        m.append(" already exists; pass --force to rebuild it");
        return Err(SfmError::Other(m));
    }
    Ok(exists)
}

/// One link: the directory that it stands in, its own path, and what it points
/// to.
#[derive(Debug)]
pub struct LinkStep {
    pub parent: String,
    pub dest: String,
    pub target: String,
}

/// The place of the last slash of the first `n` characters.
pub open spec fn last_slash(s: Seq<char>, n: nat) -> Option<int>
    decreases n,
{
    if n == 0 {
        None
    } else if s[n - 1] == '/' {
        Some(n - 1)
    } else {
        last_slash(s, (n - 1) as nat)
    }
}

/// The directory of a path that does not end in a slash.
pub open spec fn parent_of(path: Seq<char>) -> Option<Seq<char>> {
    match last_slash(path, path.len()) {
        Some(at) => Some(
            path.take(
                if at == 0 {
                    1
                } else {
                    at
                },
            ),
        ),
        None => None,
    }
}

/// What a link points to: the way from its directory to the source, or the
/// source itself where there is no such way. A relative link survives a rename
/// of a directory that both lie under, because the two move together.
pub open spec fn target_of(parent: Seq<char>, source: Seq<char>) -> Seq<char> {
    let (from, to) = (paths::components(parent), paths::components(source));
    if paths::same_start(from, to) {
        paths::join_with(paths::relative_components(from, to), seq!['/'])
    } else {
        source
    }
}

fn find_parent(path: &str) -> (r: Option<String>)
    ensures
        match r {
            Some(p) => parent_of(path@) == Some(p@),
            None => parent_of(path@) is None,
        },
{
    let chars = chars_of(path);
    let mut n: usize = chars.len();
    while n > 0
        invariant
            n <= chars@.len(),
            chars@ == path@,
            last_slash(path@, path@.len()) == last_slash(path@, n as nat),
        decreases n,
    {
        if chars[n - 1] == '/' {
            let end: usize = if n == 1 {
                1
            } else {
                n - 1
            };
            return Some(string_between(chars.as_slice(), 0, end));
        }
        n -= 1;
    }
    None
}

/// Where one link of a tree goes. The root and the source are absolute.
pub fn link_step(root: &str, link: &str, source: &str) -> (r: Result<LinkStep, SfmError>)
    ensures
        ({
            let dest = paths::joined(root@, link@);
            match r {
                Ok(s) => parent_of(dest) == Some(s.parent@) && s.dest@ == dest && s.target@
                    == target_of(s.parent@, source@),
                Err(e) => e matches SfmError::Other(m) && parent_of(dest) is None && m@ == "link "@
                    + dest + " has no parent"@,
            }
        }),
{
    let dest = join(root, link);
    match find_parent(dest.as_str()) {
        Some(parent) => {
            let target = match relative_link(parent.as_str(), source) {
                Some(t) => t,
                None => String::from_str(source),
            };
            Ok(LinkStep { parent, dest, target })
        },
        None => {
            let mut m = String::from_str("link ");
            m.append(dest.as_str());
            m.append(" has no parent");
            Err(SfmError::Other(m))
        },
    }
}

/// What is said once the tree is built.
pub fn linked_note(images: usize, target: &str) -> (r: String)
    ensures
        r@ == "\nLinked "@ + text::decimal(images as nat) + " image(s) into "@ + target@
            + "\nStages will now read that tree; re-run this after the raw dataset changes."@,
{
    let mut s = String::from_str("\nLinked ");
    s.append(decimal_string(images as u64).as_str());
    s.append(" image(s) into ");
    s.append(target);
    s.append("\nStages will now read that tree; re-run this after the raw dataset changes.");
    s
}

/// Being an image that a camera took in a capture.
pub open spec fn is_shot_by(capture_id: u32, camera_id: u32) -> spec_fn(Placed) -> bool {
    |p: Placed| p.capture_id == capture_id && p.camera_id == camera_id
}

/// The shots of a camera in a capture are counted.
pub proof fn shots_are_counted(placed: Seq<Placed>, capture_id: u32, camera_id: u32, n: nat)
    requires
        n <= placed.len(),
    ensures
        shots_by(placed, capture_id, camera_id, n) == sets::how_many(
            placed,
            is_shot_by(capture_id, camera_id),
            n,
        ),
    decreases n,
{
    let kind = is_shot_by(capture_id, camera_id);
    sets::lemma_none_of_none(placed, kind);
    if n > 0 {
        shots_are_counted(placed, capture_id, camera_id, (n - 1) as nat);
        sets::lemma_one_more(placed, kind, (n - 1) as nat);
    }
}

/// No camera took more shots in a capture than the most, and one took as many.
pub proof fn the_most_shots_are_taken_by_a_camera(placed: Seq<Placed>, n: nat)
    requires
        n <= placed.len(),
    ensures
        forall|i: int|
            0 <= i < n ==> shots_by(
                placed,
                (#[trigger] placed[i]).capture_id,
                placed[i].camera_id,
                placed.len(),
            ) <= most_shots(placed, n),
        most_shots(placed, n) == 0 || exists|i: int|
            0 <= i < n && shots_by(
                placed,
                (#[trigger] placed[i]).capture_id,
                placed[i].camera_id,
                placed.len(),
            ) == most_shots(placed, n),
    decreases n,
{
    if n > 0 {
        the_most_shots_are_taken_by_a_camera(placed, (n - 1) as nat);
    }
}

proof fn lemma_last_slash(s: Seq<char>, n: nat)
    requires
        n <= s.len(),
    ensures
        match last_slash(s, n) {
            Some(at) => 0 <= at < n && s[at] == '/' && forall|j: int|
                at < j < n ==> #[trigger] s[j] != '/',
            None => forall|j: int| 0 <= j < n ==> #[trigger] s[j] != '/',
        },
    decreases n,
{
    if n > 0 {
        lemma_last_slash(s, (n - 1) as nat);
    }
}

/// A file lies in the directory that it was put in; at the root, in the root.
pub proof fn files_lie_in_their_directory(dir: Seq<char>, name: Seq<char>)
    requires
        !name.contains('/'),
    ensures
        dir.len() > 0 ==> parent_of(dir + seq!['/'] + name) == Some(dir),
        parent_of(seq!['/'] + name) == Some(seq!['/']),
        parent_of(name) is None,
{
    let (s, t) = (dir + seq!['/'] + name, seq!['/'] + name);
    lemma_last_slash(s, s.len());
    lemma_last_slash(t, t.len());
    lemma_last_slash(name, name.len());
    let d = dir.len() as int;
    assert(s[d] == '/');
    assert(t[0] == '/');
    if last_slash(s, s.len())->0 > d {
        let k = last_slash(s, s.len())->0;
        assert(name[k - d - 1] == '/');
    }
    if last_slash(t, t.len())->0 > 0 {
        let k = last_slash(t, t.len())->0;
        assert(name[k - 1] == '/');
    }
    if last_slash(name, name.len()) is Some {
        assert(name[last_slash(name, name.len())->0] == '/');
    }
    assert(s.take(d) =~= dir);
    assert(t.take(1) =~= seq!['/']);
}

proof fn lemma_plain_pieces(parts: Seq<Seq<char>>)
    requires
        forall|i: int| 0 <= i < parts.len() ==> !(#[trigger] parts[i]).contains('/'),
    ensures
        forall|i: int|
            0 <= i < paths::meaningful(parts).len() ==> paths::is_plain(
                #[trigger] paths::meaningful(parts)[i],
            ),
    decreases parts.len(),
{
    if parts.len() > 0 {
        let front = parts.drop_last();
        assert forall|i: int| 0 <= i < front.len() implies !(#[trigger] front[i]).contains(
            '/',
        ) by {
            assert(!parts[i].contains('/'));
        }
        lemma_plain_pieces(front);
        assert(!parts[parts.len() - 1].contains('/'));
        let (some, all) = (paths::meaningful(front), paths::meaningful(parts));
        assert forall|i: int| 0 <= i < all.len() implies paths::is_plain(#[trigger] all[i]) by {
            if i < some.len() {
                assert(all[i] == some[i]);
            } else {
                assert(all[i] == parts.last());
            }
        }
    }
}

/// A link leads to its source: from the directory that it lies in, the way it
/// names ends there. So does one by its source's own name, which needs no way.
pub proof fn links_lead_to_their_source(parent: Seq<char>, source: Seq<char>)
    requires
        parent.len() > 0,
        parent[0] == '/',
        source.len() > 0,
        source[0] == '/',
        forall|i: int|
            0 <= i < paths::components(source).len() ==> #[trigger] paths::components(source)[i]
                != paths::dot_dot(),
    ensures
        paths::follow(
            paths::components(parent),
            paths::components(target_of(parent, source)),
        ) == paths::components(source),
{
    let (from, to) = (paths::components(parent), paths::components(source));
    assert(from[0] == paths::root() && to[0] == paths::root());
    let way = paths::relative_components(from, to);
    let k = paths::shared_prefix(from, to) as int;
    paths::relative_link_leads_to_the_target(from, to);
    paths::lemma_shared_prefix(from, to);
    assert(k >= 1);
    paths::split_pieces_join_to_the_text(source, '/');
    lemma_plain_pieces(paths::split_on(source, '/'));
    assert forall|i: int| 0 <= i < way.len() implies paths::is_plain(#[trigger] way[i]) by {
        let ups = from.len() - k;
        if i < ups {
            assert(way[i] == paths::dot_dot());
            assert(paths::dot_dot().len() == 2 && paths::dot().len() == 1);
            assert(!paths::dot_dot().contains('/'));
        } else {
            assert(way[i] == to[k + i - ups]);
            assert(to[k + i - ups] == paths::meaningful(paths::split_on(source, '/'))[k + i - ups
                - 1]);
        }
    }
    if way.len() > 0 {
        paths::written_paths_are_read(way);
    } else {
        let none = Seq::<char>::empty();
        assert(paths::join_with(way, seq!['/']) =~= none);
        assert(paths::split_on(none, '/') =~= seq![none]);
        paths::lemma_nothing_meaningful(none);
        assert(none != paths::dot());
        assert(paths::components(none) =~= way);
    }
}

/// Shots are told of where a camera has several in a capture, and unfilled
/// places where none has and there are others than one image for each camera
/// in each capture.
pub proof fn shots_or_places_are_told_of(plan: Plan)
    ensures
        ({
            let most = most_shots(plan.placed@, plan.placed@.len());
            &&& shot_lines(plan).len() > 0 <==> most >= 2
            &&& slot_lines(plan).len() > 0 <==> most < 2 && plan.placed@.len()
                != plan.captures@.len() * plan.cameras@.len()
        }),
{
}

/// Cameras with gaps are told of one by one, the first ten of them.
pub proof fn cameras_with_gaps_are_told_of(plan: Plan, i: int)
    requires
        0 <= i < 10,
        i < plan.gaps@.len(),
    ensures
        missing_lines(plan).len() == if plan.gaps@.len() <= 10 {
            1 + plan.gaps@.len()
        } else {
            12nat
        },
        missing_lines(plan)[1 + i] == gap_line(plan, i),
{
}

} // verus!
