//! Slash-separated paths as text.

use vstd::prelude::*;

use crate::order;
use crate::order::push_text;
use crate::text;
use crate::text::{chars_of, decimal_string, same_text, string_between};

verus! {

// ---------------------------------------------------------------------------
// Splitting and joining
// ---------------------------------------------------------------------------

/// The pieces of `s` between occurrences of `sep`; always at least one.
pub open spec fn split_on(s: Seq<char>, sep: char) -> Seq<Seq<char>>
    decreases s.len(),
{
    if s.len() == 0 {
        seq![Seq::empty()]
    } else {
        let front = split_on(s.drop_last(), sep);
        if s.last() == sep {
            front.push(Seq::empty())
        } else {
            front.drop_last().push(front.last().push(s.last()))
        }
    }
}

/// The pieces with `sep` between each two.
pub open spec fn join_with(parts: Seq<Seq<char>>, sep: Seq<char>) -> Seq<char>
    decreases parts.len(),
{
    if parts.len() == 0 {
        Seq::empty()
    } else if parts.len() == 1 {
        parts[0]
    } else {
        join_with(parts.drop_last(), sep) + sep + parts.last()
    }
}

proof fn lemma_split_nonempty(s: Seq<char>, sep: char)
    ensures
        split_on(s, sep).len() > 0,
    decreases s.len(),
{
    if s.len() > 0 {
        lemma_split_nonempty(s.drop_last(), sep);
    }
}

/// Splits text at every `sep`.
pub fn split_text(s: &str, sep: char) -> (out: Vec<String>)
    ensures
        order::texts(out@) == split_on(s@, sep),
{
    let chars = chars_of(s);
    let mut out: Vec<String> = Vec::new();
    let mut start: usize = 0;
    let mut i: usize = 0;
    assert(chars@.subrange(0, 0) =~= Seq::<char>::empty());
    assert(order::texts(out@).push(chars@.subrange(0, 0)) =~= seq![Seq::<char>::empty()]);
    assert(chars@.take(0) =~= Seq::<char>::empty());
    while i < chars.len()
        invariant
            start <= i <= chars.len(),
            chars@ == s@,
            order::texts(out@).push(chars@.subrange(start as int, i as int)) == split_on(
                chars@.take(i as int),
                sep,
            ),
        decreases chars.len() - i,
    {
        let ghost before = split_on(chars@.take(i as int), sep);
        let ghost out0 = order::texts(out@);
        let ghost piece = chars@.subrange(start as int, i as int);
        assert(chars@.take(i + 1).drop_last() =~= chars@.take(i as int));
        assert(before.last() == piece);
        assert(before.drop_last() =~= out0);
        if chars[i] == sep {
            out.push(string_between(chars.as_slice(), start, i));
            start = i + 1;
            assert(order::texts(out@) =~= before);
            assert(chars@.subrange(i + 1, i + 1) =~= Seq::<char>::empty());
        } else {
            assert(chars@.subrange(start as int, i + 1) =~= piece.push(chars@[i as int]));
        }
        i += 1;
    }
    assert(chars@.take(chars@.len() as int) =~= chars@);
    let ghost out0 = order::texts(out@);
    out.push(string_between(chars.as_slice(), start, i));
    assert(order::texts(out@) =~= out0.push(chars@.subrange(start as int, i as int)));
    out
}

/// Joins pieces of text with `sep` between them.
pub fn join_text(parts: &Vec<String>, sep: &str) -> (out: String)
    ensures
        out@ == join_with(order::texts(parts@), sep@),
{
    let mut out = String::new();
    let mut i: usize = 0;
    let ghost all = order::texts(parts@);
    while i < parts.len()
        invariant
            i <= parts.len(),
            all == order::texts(parts@),
            out@ == join_with(all.take(i as int), sep@),
        decreases parts.len() - i,
    {
        assert(all.take(i + 1).drop_last() =~= all.take(i as int));
        assert(all.take(i + 1).last() == parts@[i as int]@);
        if i > 0 {
            out.append(sep);
        }
        out.append(parts[i].as_str());
        i += 1;
        assert(out@ =~= join_with(all.take(i as int), sep@));
    }
    assert(all.take(all.len() as int) =~= all);
    out
}

// ---------------------------------------------------------------------------
// Components
// ---------------------------------------------------------------------------

pub open spec fn dot() -> Seq<char> {
    seq!['.']
}

pub open spec fn dot_dot() -> Seq<char> {
    seq!['.', '.']
}

pub open spec fn root() -> Seq<char> {
    seq!['/']
}

/// The pieces that name something: repeated slashes and `.` do not.
pub open spec fn meaningful(parts: Seq<Seq<char>>) -> Seq<Seq<char>>
    decreases parts.len(),
{
    if parts.len() == 0 {
        Seq::empty()
    } else {
        let front = meaningful(parts.drop_last());
        if parts.last().len() == 0 || parts.last() == dot() {
            front
        } else {
            front.push(parts.last())
        }
    }
}

/// The components of a path: the root or a leading `.` where it has one, then
/// the names between the slashes.
pub open spec fn components(path: Seq<char>) -> Seq<Seq<char>> {
    let parts = split_on(path, '/');
    if path.len() > 0 && path[0] == '/' {
        seq![root()] + meaningful(parts)
    } else if parts[0] == dot() {
        seq![dot()] + meaningful(parts)
    } else {
        meaningful(parts)
    }
}

/// The components of a path.
pub fn path_components(path: &str) -> (out: Vec<String>)
    ensures
        order::texts(out@) == components(path@),
{
    let parts = split_text(path, '/');
    let mut out: Vec<String> = Vec::new();
    let ghost all = order::texts(parts@);
    proof {
        lemma_split_nonempty(path@, '/');
        reveal_strlit(".");
        reveal_strlit("/");
        assert(dot() =~= "."@);
        assert(root() =~= "/"@);
        assert(all[0] == parts@[0]@);
    }
    if path.unicode_len() > 0 && path.get_char(0) == '/' {
        out.push(String::from_str("/"));
    } else if same_text(parts[0].as_str(), ".") {
        out.push(String::from_str("."));
    }
    let ghost head = order::texts(out@);
    assert(head =~= if path@.len() > 0 && path@[0] == '/' {
        seq![root()]
    } else if all[0] == dot() {
        seq![dot()]
    } else {
        Seq::empty()
    });
    let mut i: usize = 0;
    assert(head =~= head + meaningful(all.take(0)));
    while i < parts.len()
        invariant
            i <= parts.len(),
            all == order::texts(parts@),
            dot() == "."@,
            order::texts(out@) == head + meaningful(all.take(i as int)),
        decreases parts.len() - i,
    {
        assert(all.take(i + 1).drop_last() =~= all.take(i as int));
        assert(all.take(i + 1).last() == parts@[i as int]@);
        let ghost out0 = order::texts(out@);
        if parts[i].as_str().unicode_len() != 0 && !same_text(parts[i].as_str(), ".") {
            out.push(parts[i].clone());
            assert(order::texts(out@) =~= out0.push(parts@[i as int]@));
        }
        i += 1;
        assert(order::texts(out@) =~= head + meaningful(all.take(i as int)));
    }
    assert(all.take(all.len() as int) =~= all);
    assert(order::texts(out@) =~= components(path@));
    out
}

/// The last component of a path, where that is a name.
pub open spec fn file_name_of(path: Seq<char>) -> Option<Seq<char>> {
    let c = components(path);
    if c.len() == 0 || c.last() == dot_dot() || c.last() == dot() || c.last() == root() {
        None
    } else {
        Some(c.last())
    }
}

/// The last component of a path; nothing where it ends in `..` or names no
/// file at all.
pub fn file_name(path: &str) -> (r: Option<String>)
    ensures
        match r {
            Some(name) => file_name_of(path@) == Some(name@),
            None => file_name_of(path@) is None,
        },
{
    let c = path_components(path);
    proof {
        reveal_strlit(".");
        reveal_strlit("..");
        reveal_strlit("/");
        assert(dot() =~= "."@);
        assert(dot_dot() =~= ".."@);
        assert(root() =~= "/"@);
    }
    if c.len() == 0 {
        return None;
    }
    let last = &c[c.len() - 1];
    assert(order::texts(c@).last() == last@);
    if same_text(last.as_str(), "..") || same_text(last.as_str(), ".") || same_text(
        last.as_str(),
        "/",
    ) {
        None
    } else {
        Some(last.clone())
    }
}

// ---------------------------------------------------------------------------
// File names
// ---------------------------------------------------------------------------

/// The place of the last dot, or -1.
pub open spec fn last_dot(s: Seq<char>) -> int
    decreases s.len(),
{
    if s.len() == 0 {
        -1
    } else if s.last() == '.' {
        s.len() - 1
    } else {
        last_dot(s.drop_last())
    }
}

/// A file name without its extension. A dot at the very start begins a hidden
/// name, not an extension.
pub open spec fn stem_of(name: Seq<char>) -> Seq<char> {
    if name == dot_dot() || last_dot(name) <= 0 {
        name
    } else {
        name.take(last_dot(name))
    }
}

/// What follows the last dot of a file name, where that dot begins an
/// extension.
pub open spec fn extension_of(name: Seq<char>) -> Option<Seq<char>> {
    if name == dot_dot() || last_dot(name) <= 0 {
        None
    } else {
        Some(name.skip(last_dot(name) + 1))
    }
}

/// The last dot is where it says, and no dot follows it.
pub proof fn lemma_last_dot(s: Seq<char>)
    ensures
        -1 <= last_dot(s) < s.len(),
        last_dot(s) >= 0 ==> s[last_dot(s)] == '.',
        forall|i: int| last_dot(s) < i < s.len() ==> #[trigger] s[i] != '.',
    decreases s.len(),
{
    if s.len() > 0 && s.last() != '.' {
        lemma_last_dot(s.drop_last());
        assert forall|i: int| last_dot(s) < i < s.len() implies #[trigger] s[i] != '.' by {
            if i < s.len() - 1 {
                assert(s[i] == s.drop_last()[i]);
            }
        }
    }
}

/// Where a file name divides into stem and extension: the place of the dot,
/// or nothing for a name without an extension.
fn extension_dot(name: &[char]) -> (r: Option<usize>)
    ensures
        r == if name@ == dot_dot() || last_dot(name@) <= 0 {
            None
        } else {
            Some(last_dot(name@) as usize)
        },
        match r {
            Some(d) => 0 < d < name.len() && d == last_dot(name@),
            None => true,
        },
{
    proof {
        lemma_last_dot(name@);
    }
    let mut i: usize = name.len();
    while i > 0
        invariant
            i <= name.len(),
            forall|j: int| i <= j < name.len() ==> #[trigger] name@[j] != '.',
            -1 <= last_dot(name@) < name@.len(),
            last_dot(name@) >= 0 ==> name@[last_dot(name@)] == '.',
            forall|k: int| last_dot(name@) < k < name@.len() ==> #[trigger] name@[k] != '.',
        decreases i,
    {
        i -= 1;
        if name[i] == '.' {
            assert(last_dot(name@) == i);
            if i == 0 {
                return None;
            }
            if name.len() == 2 && name[0] == '.' {
                assert(name@ =~= dot_dot());
                return None;
            }
            assert(name@ != dot_dot()) by {
                if name@ == dot_dot() {
                    assert(name@[0] == '.');
                }
            }
            return Some(i);
        }
    }
    None
}

/// The file name without its extension.
pub fn stem(name: &str) -> (r: String)
    ensures
        r@ == stem_of(name@),
{
    let chars = chars_of(name);
    match extension_dot(chars.as_slice()) {
        Some(d) => {
            assert(chars@.subrange(0, d as int) =~= name@.take(d as int));
            string_between(chars.as_slice(), 0, d)
        },
        None => {
            assert(chars@.subrange(0, chars@.len() as int) =~= name@);
            string_between(chars.as_slice(), 0, chars.len())
        },
    }
}

/// The extension of a file name.
pub fn extension(name: &str) -> (r: Option<String>)
    ensures
        match r {
            Some(e) => extension_of(name@) == Some(e@),
            None => extension_of(name@) is None,
        },
{
    let chars = chars_of(name);
    match extension_dot(chars.as_slice()) {
        Some(d) => {
            assert(chars@.subrange(d + 1, chars@.len() as int) =~= name@.skip(d + 1));
            Some(string_between(chars.as_slice(), d + 1, chars.len()))
        },
        None => None,
    }
}

// ---------------------------------------------------------------------------
// Joining paths
// ---------------------------------------------------------------------------

/// `rel` below `base`; an absolute `rel` stands on its own.
pub open spec fn joined(base: Seq<char>, rel: Seq<char>) -> Seq<char> {
    if base.len() == 0 || (rel.len() > 0 && rel[0] == '/') {
        rel
    } else if base.last() == '/' {
        base + rel
    } else {
        base + seq!['/'] + rel
    }
}

/// Joins a relative path to a base path.
pub fn join(base: &str, rel: &str) -> (r: String)
    ensures
        r@ == joined(base@, rel@),
{
    let n: usize = base.unicode_len();
    if n == 0 || (rel.unicode_len() > 0 && rel.get_char(0) == '/') {
        return String::from_str(rel);
    }
    let mut r = String::from_str(base);
    if base.get_char(n - 1) != '/' {
        r.push('/');
    }
    r.append(rel);
    assert(r@ =~= joined(base@, rel@));
    r
}

/// A name with `\` written as `/`.
pub open spec fn forward_slashes(s: Seq<char>) -> Seq<char> {
    s.map_values(
        |c: char|
            if c == '\\' {
                '/'
            } else {
                c
            },
    )
}

pub fn with_forward_slashes(s: &str) -> (r: String)
    ensures
        r@ == forward_slashes(s@),
{
    let chars = chars_of(s);
    let mut r = String::new();
    let mut i: usize = 0;
    while i < chars.len()
        invariant
            i <= chars.len(),
            r@ == forward_slashes(chars@.take(i as int)),
        decreases chars.len() - i,
    {
        if chars[i] == '\\' {
            r.push('/');
        } else {
            r.push(chars[i]);
        }
        i += 1;
        assert(r@ =~= forward_slashes(chars@.take(i as int)));
    }
    assert(chars@.take(chars@.len() as int) =~= chars@);
    r
}

// ---------------------------------------------------------------------------
// Relative links
// ---------------------------------------------------------------------------

/// How many components two paths share from the start.
pub open spec fn shared_prefix(a: Seq<Seq<char>>, b: Seq<Seq<char>>) -> nat
    decreases a.len(),
{
    if a.len() == 0 || b.len() == 0 || a[0] != b[0] {
        0
    } else {
        1 + shared_prefix(a.drop_first(), b.drop_first())
    }
}

/// The components that lead from one directory to a path: up to what they
/// share, then down.
pub open spec fn relative_components(from: Seq<Seq<char>>, to: Seq<Seq<char>>) -> Seq<Seq<char>> {
    let k = shared_prefix(from, to);
    Seq::new((from.len() - k) as nat, |i: int| dot_dot()) + to.skip(k as int)
}

/// Whether two paths start at the same root (or at none).
pub open spec fn same_start(a: Seq<Seq<char>>, b: Seq<Seq<char>>) -> bool {
    if a.len() == 0 || b.len() == 0 {
        a.len() == b.len()
    } else {
        a[0] == b[0]
    }
}

/// Where following `link` from the directory `from` leads.
pub open spec fn follow(from: Seq<Seq<char>>, link: Seq<Seq<char>>) -> Seq<Seq<char>>
    decreases link.len(),
{
    if link.len() == 0 {
        from
    } else if link[0] == dot_dot() {
        follow(from.drop_last(), link.drop_first())
    } else {
        follow(from.push(link[0]), link.drop_first())
    }
}

pub proof fn lemma_shared_prefix(a: Seq<Seq<char>>, b: Seq<Seq<char>>)
    ensures
        shared_prefix(a, b) <= a.len(),
        shared_prefix(a, b) <= b.len(),
        a.take(shared_prefix(a, b) as int) == b.take(shared_prefix(a, b) as int),
    decreases a.len(),
{
    if a.len() == 0 || b.len() == 0 || a[0] != b[0] {
        assert(a.take(0) =~= b.take(0));
    } else {
        let (x, y) = (a.drop_first(), b.drop_first());
        lemma_shared_prefix(x, y);
        let k = shared_prefix(x, y) as int;
        assert(a.take(k + 1) =~= seq![a[0]] + x.take(k));
        assert(b.take(k + 1) =~= seq![b[0]] + y.take(k));
    }
}

proof fn lemma_follow_up(from: Seq<Seq<char>>, up: nat, rest: Seq<Seq<char>>)
    requires
        up <= from.len(),
    ensures
        follow(from, Seq::new(up, |i: int| dot_dot()) + rest) == follow(
            from.take(from.len() - up),
            rest,
        ),
    decreases up,
{
    let link = Seq::new(up, |i: int| dot_dot()) + rest;
    if up == 0 {
        assert(link =~= rest);
        assert(from.take(from.len() as int) =~= from);
    } else {
        assert(link[0] == dot_dot());
        assert(link.drop_first() =~= Seq::new((up - 1) as nat, |i: int| dot_dot()) + rest);
        lemma_follow_up(from.drop_last(), (up - 1) as nat, rest);
        assert(from.drop_last().take(from.len() - up) =~= from.take(from.len() - up));
    }
}

proof fn lemma_follow_down(from: Seq<Seq<char>>, names: Seq<Seq<char>>)
    requires
        forall|i: int| 0 <= i < names.len() ==> #[trigger] names[i] != dot_dot(),
    ensures
        follow(from, names) == from + names,
    decreases names.len(),
{
    if names.len() == 0 {
        assert(from + names =~= from);
    } else {
        assert(names[0] != dot_dot());
        let rest = names.drop_first();
        assert forall|i: int| 0 <= i < rest.len() implies #[trigger] rest[i] != dot_dot() by {
            assert(rest[i] == names[i + 1]);
        }
        lemma_follow_down(from.push(names[0]), rest);
        assert(from.push(names[0]) + rest =~= from + names);
    }
}

/// Following the relative link from its directory leads to the target.
pub proof fn relative_link_leads_to_the_target(from: Seq<Seq<char>>, to: Seq<Seq<char>>)
    requires
        forall|i: int| 0 <= i < to.len() ==> #[trigger] to[i] != dot_dot(),
    ensures
        follow(from, relative_components(from, to)) == to,
{
    lemma_shared_prefix(from, to);
    let k = shared_prefix(from, to) as int;
    lemma_follow_up(from, (from.len() - k) as nat, to.skip(k));
    let down = to.skip(k);
    assert forall|i: int| 0 <= i < down.len() implies #[trigger] down[i] != dot_dot() by {
        assert(down[i] == to[i + k]);
    }
    lemma_follow_down(from.take(k), down);
    assert(to.take(k) + down =~= to);
}

proof fn lemma_shared_prefix_behind(p: Seq<Seq<char>>, a: Seq<Seq<char>>, b: Seq<Seq<char>>)
    ensures
        shared_prefix(p + a, p + b) == p.len() + shared_prefix(a, b),
    decreases p.len(),
{
    if p.len() == 0 {
        assert(p + a =~= a);
        assert(p + b =~= b);
    } else {
        assert((p + a).drop_first() =~= p.drop_first() + a);
        assert((p + b).drop_first() =~= p.drop_first() + b);
        lemma_shared_prefix_behind(p.drop_first(), a, b);
    }
}

/// A relative link does not mention the directories that both ends lie under,
/// so renaming those leaves it as it is.
pub proof fn relative_link_survives_a_rename(
    old_dir: Seq<Seq<char>>,
    new_dir: Seq<Seq<char>>,
    from: Seq<Seq<char>>,
    to: Seq<Seq<char>>,
)
    ensures
        relative_components(old_dir + from, old_dir + to) == relative_components(
            new_dir + from,
            new_dir + to,
        ),
{
    lemma_shared_prefix_behind(old_dir, from, to);
    lemma_shared_prefix_behind(new_dir, from, to);
    lemma_shared_prefix(from, to);
    let k = shared_prefix(from, to) as int;
    assert((old_dir + to).skip(old_dir.len() + k) =~= to.skip(k));
    assert((new_dir + to).skip(new_dir.len() + k) =~= to.skip(k));
    assert(relative_components(old_dir + from, old_dir + to) =~= relative_components(
        new_dir + from,
        new_dir + to,
    ));
}

/// The path from the directory `from_dir` to `to`, as `../..`-style
/// components. Nothing when the two share no root: only then is an absolute
/// link the better answer.
pub fn relative_link(from_dir: &str, to: &str) -> (r: Option<String>)
    ensures
        match r {
            Some(link) => same_start(components(from_dir@), components(to@)) && link@ == join_with(
                relative_components(components(from_dir@), components(to@)),
                seq!['/'],
            ),
            None => !same_start(components(from_dir@), components(to@)),
        },
{
    let from = path_components(from_dir);
    let dest = path_components(to);
    let ghost f = components(from_dir@);
    let ghost t = components(to@);
    assert(forall|i: int| 0 <= i < f.len() ==> f[i] == #[trigger] from@[i]@);
    assert(forall|i: int| 0 <= i < t.len() ==> t[i] == #[trigger] dest@[i]@);
    if from.len() == 0 || dest.len() == 0 {
        if from.len() != dest.len() {
            return None;
        }
    } else if from[0] != dest[0] {
        return None;
    }
    let mut common: usize = 0;
    assert(f.skip(0) =~= f);
    assert(t.skip(0) =~= t);
    while common < from.len() && common < dest.len() && from[common] == dest[common]
        invariant
            common <= from.len(),
            common <= dest.len(),
            f == order::texts(from@),
            t == order::texts(dest@),
            shared_prefix(f, t) == common + shared_prefix(
                f.skip(common as int),
                t.skip(common as int),
            ),
        decreases from.len() - common,
    {
        assert(f[common as int] == from@[common as int]@);
        assert(t[common as int] == dest@[common as int]@);
        assert(f.skip(common as int).drop_first() =~= f.skip(common + 1));
        assert(t.skip(common as int).drop_first() =~= t.skip(common + 1));
        common += 1;
    }
    assert(shared_prefix(f, t) == common) by {
        if common < f.len() && common < t.len() {
            assert(f.skip(common as int)[0] == from@[common as int]@);
            assert(t.skip(common as int)[0] == dest@[common as int]@);
        }
    }
    proof {
        reveal_strlit("..");
        reveal_strlit("/");
        assert(dot_dot() =~= ".."@);
        assert(seq!['/'] =~= "/"@);
    }
    let mut parts: Vec<String> = Vec::new();
    let mut i: usize = common;
    while i < from.len()
        invariant
            common <= i <= from.len(),
            dot_dot() == ".."@,
            order::texts(parts@) == Seq::new((i - common) as nat, |j: int| dot_dot()),
        decreases from.len() - i,
    {
        let ghost before = parts@;
        parts.push(String::from_str(".."));
        i += 1;
        proof {
            order::lemma_texts_push(before, parts@.last());
        }
        assert(parts@ =~= before.push(parts@.last()));
        assert(order::texts(parts@) =~= Seq::new((i - common) as nat, |j: int| dot_dot()));
    }
    let ghost up = order::texts(parts@);
    let mut j: usize = common;
    assert(up =~= up + t.subrange(common as int, common as int));
    while j < dest.len()
        invariant
            common <= j <= dest.len(),
            t == order::texts(dest@),
            order::texts(parts@) == up + t.subrange(common as int, j as int),
        decreases dest.len() - j,
    {
        let ghost before = parts@;
        parts.push(dest[j].clone());
        j += 1;
        proof {
            order::lemma_texts_push(before, parts@.last());
        }
        assert(parts@ =~= before.push(parts@.last()));
        assert(order::texts(parts@) =~= up + t.subrange(common as int, j as int));
    }
    assert(order::texts(parts@) =~= relative_components(f, t));
    Some(join_text(&parts, "/"))
}

/// Numbers in decimal.
pub open spec fn decimals(v: Seq<u32>) -> Seq<Seq<char>> {
    v.map_values(|n: u32| text::decimal(n as nat))
}

/// A list of numbers in brackets.
pub open spec fn bracketed(v: Seq<u32>) -> Seq<char> {
    "["@ + join_with(decimals(v), ", "@) + "]"@
}

/// Writes a list of numbers in brackets.
pub fn number_list(v: &Vec<u32>) -> (r: String)
    ensures
        r@ == bracketed(v@),
{
    let mut parts: Vec<String> = Vec::new();
    let mut i: usize = 0;
    assert(order::texts(parts@) =~= decimals(v@).take(0));
    while i < v.len()
        invariant
            i <= v@.len(),
            order::texts(parts@) == decimals(v@).take(i as int),
        decreases v@.len() - i,
    {
        push_text(&mut parts, decimal_string(v[i] as u64));
        i += 1;
        assert(order::texts(parts@) =~= decimals(v@).take(i as int));
    }
    assert(order::texts(parts@) =~= decimals(v@));
    let mut s = String::from_str("[");
    s.append(join_text(&parts, ", ").as_str());
    s.append("]");
    s
}

proof fn lemma_split_pieces(s: Seq<char>, sep: char)
    ensures
        split_on(s, sep).len() > 0,
        join_with(split_on(s, sep), seq![sep]) == s,
        forall|i: int|
            0 <= i < split_on(s, sep).len() ==> !(#[trigger] split_on(s, sep)[i]).contains(sep),
    decreases s.len(),
{
    let out = split_on(s, sep);
    if s.len() == 0 {
        assert(out[0] =~= Seq::<char>::empty());
        assert(join_with(out, seq![sep]) =~= s);
    } else {
        let front = split_on(s.drop_last(), sep);
        lemma_split_pieces(s.drop_last(), sep);
        assert(s =~= s.drop_last().push(s.last()));
        if s.last() == sep {
            assert(out.drop_last() =~= front);
            assert(out.last() =~= Seq::<char>::empty());
            assert(join_with(out, seq![sep]) =~= s);
            assert forall|i: int| 0 <= i < out.len() implies !(#[trigger] out[i]).contains(sep) by {
                if i < front.len() {
                    assert(out[i] == front[i]);
                }
            }
        } else {
            let last = front.last().push(s.last());
            assert(out.drop_last() =~= front.drop_last());
            if front.len() == 1 {
                assert(out.len() == 1);
                assert(join_with(out, seq![sep]) == last);
                assert(join_with(front, seq![sep]) == front[0]);
                assert(join_with(out, seq![sep]) =~= s);
            } else {
                assert(join_with(out, seq![sep]) == join_with(front.drop_last(), seq![sep])
                    + seq![sep] + last);
                assert(join_with(out, seq![sep]) =~= s);
            }
            assert forall|i: int| 0 <= i < out.len() implies !(#[trigger] out[i]).contains(sep) by {
                if i < front.len() - 1 {
                    assert(out[i] == front[i]);
                } else {
                    assert(!front[front.len() - 1].contains(sep));
                    if out[i].contains(sep) {
                        let k = choose|k: int| 0 <= k < last.len() && last[k] == sep;
                        assert(k < front.last().len());
                        assert(front.last()[k] == sep);
                    }
                }
            }
        }
    }
}

/// Splitting a text leaves no separator in the pieces, and joining them gives
/// the text back.
pub proof fn split_pieces_join_to_the_text(s: Seq<char>, sep: char)
    ensures
        split_on(s, sep).len() > 0,
        join_with(split_on(s, sep), seq![sep]) == s,
        forall|i: int|
            0 <= i < split_on(s, sep).len() ==> !(#[trigger] split_on(s, sep)[i]).contains(sep),
{
    lemma_split_pieces(s, sep);
}

/// A separator parts the pieces in front of it from those behind it.
pub proof fn a_separator_parts_the_pieces(a: Seq<char>, sep: char, b: Seq<char>)
    ensures
        split_on(a + seq![sep] + b, sep) == split_on(a, sep) + split_on(b, sep),
    decreases b.len(),
{
    let s = a + seq![sep] + b;
    lemma_split_pieces(a, sep);
    lemma_split_pieces(b, sep);
    if b.len() == 0 {
        assert(s.drop_last() =~= a);
        assert(split_on(s, sep) =~= split_on(a, sep) + split_on(b, sep));
    } else {
        assert(s.drop_last() =~= a + seq![sep] + b.drop_last());
        a_separator_parts_the_pieces(a, sep, b.drop_last());
        lemma_split_pieces(b.drop_last(), sep);
        let (f, g) = (split_on(a, sep), split_on(b.drop_last(), sep));
        assert((f + g).last() == g.last());
        assert((f + g).drop_last() =~= f + g.drop_last());
        assert(split_on(s, sep) =~= f + split_on(b, sep));
    }
}

proof fn lemma_unsplit(s: Seq<char>, sep: char)
    requires
        !s.contains(sep),
    ensures
        split_on(s, sep) == seq![s],
    decreases s.len(),
{
    if s.len() == 0 {
        assert(s =~= Seq::<char>::empty());
        assert(split_on(s, sep) =~= seq![s]);
    } else {
        assert(s[s.len() - 1] != sep);
        assert forall|k: int| 0 <= k < s.drop_last().len() implies s.drop_last()[k] != sep by {
            assert(s[k] != sep);
        }
        lemma_unsplit(s.drop_last(), sep);
        assert(s.drop_last().push(s.last()) =~= s);
        assert(split_on(s, sep) =~= seq![s]);
    }
}

/// Pieces that hold no separator are found again in their joined text.
pub proof fn joined_pieces_are_split_again(parts: Seq<Seq<char>>, sep: char)
    requires
        parts.len() > 0,
        forall|i: int| 0 <= i < parts.len() ==> !(#[trigger] parts[i]).contains(sep),
    ensures
        split_on(join_with(parts, seq![sep]), sep) == parts,
    decreases parts.len(),
{
    if parts.len() == 1 {
        lemma_unsplit(parts[0], sep);
        assert(seq![parts[0]] =~= parts);
    } else {
        let front = parts.drop_last();
        joined_pieces_are_split_again(front, sep);
        assert(!parts[parts.len() - 1].contains(sep));
        lemma_unsplit(parts.last(), sep);
        a_separator_parts_the_pieces(join_with(front, seq![sep]), sep, parts.last());
        assert(front + seq![parts.last()] =~= parts);
    }
}

proof fn lemma_meaningful_adds(a: Seq<Seq<char>>, b: Seq<Seq<char>>)
    ensures
        meaningful(a + b) == meaningful(a) + meaningful(b),
    decreases b.len(),
{
    if b.len() == 0 {
        assert(a + b =~= a);
        assert(meaningful(a + b) =~= meaningful(a) + meaningful(b));
    } else {
        assert((a + b).drop_last() =~= a + b.drop_last());
        lemma_meaningful_adds(a, b.drop_last());
        assert(meaningful(a + b) =~= meaningful(a) + meaningful(b));
    }
}

/// An empty piece, and `.`, name nothing.
pub proof fn lemma_nothing_meaningful(piece: Seq<char>)
    requires
        piece.len() == 0 || piece == dot(),
    ensures
        meaningful(seq![piece]) == Seq::<Seq<char>>::empty(),
{
    assert(seq![piece].drop_last() =~= Seq::<Seq<char>>::empty());
    assert(meaningful(Seq::<Seq<char>>::empty()) =~= Seq::<Seq<char>>::empty());
    assert(seq![piece].last() == piece);
}

/// A piece that names something: not empty, not `.`, without a slash.
pub open spec fn is_plain(name: Seq<char>) -> bool {
    name.len() > 0 && name != dot() && !name.contains('/')
}

proof fn lemma_all_meaningful(names: Seq<Seq<char>>)
    requires
        forall|i: int| 0 <= i < names.len() ==> is_plain(#[trigger] names[i]),
    ensures
        meaningful(names) == names,
    decreases names.len(),
{
    if names.len() > 0 {
        assert(is_plain(names[names.len() - 1]));
        lemma_all_meaningful(names.drop_last());
        assert(names.drop_last().push(names.last()) =~= names);
    } else {
        assert(meaningful(names) =~= names);
    }
}

/// The names along a path are its components, behind the root where the path
/// starts there.
pub proof fn written_paths_are_read(names: Seq<Seq<char>>)
    requires
        names.len() > 0,
        forall|i: int| 0 <= i < names.len() ==> is_plain(#[trigger] names[i]),
    ensures
        components(join_with(names, seq!['/'])) == names,
        components(seq!['/'] + join_with(names, seq!['/'])) == seq![root()] + names,
{
    let text = join_with(names, seq!['/']);
    assert forall|i: int| 0 <= i < names.len() implies !(#[trigger] names[i]).contains('/') by {
        assert(is_plain(names[i]));
    }
    joined_pieces_are_split_again(names, '/');
    lemma_all_meaningful(names);
    assert(is_plain(names[0]));
    lemma_first_char(names);
    let rooted = seq!['/'] + text;
    let none = Seq::<char>::empty();
    assert(rooted =~= none + seq!['/'] + text);
    a_separator_parts_the_pieces(none, '/', text);
    assert(split_on(none, '/') =~= seq![none]);
    lemma_meaningful_adds(seq![none], names);
    lemma_nothing_meaningful(none);
    assert(meaningful(seq![none] + names) =~= names);
}

/// A path of plain names does not start at the root.
pub proof fn lemma_first_char(names: Seq<Seq<char>>)
    requires
        names.len() > 0,
        is_plain(names[0]),
    ensures
        join_with(names, seq!['/']).len() > 0,
        join_with(names, seq!['/'])[0] != '/',
    decreases names.len(),
{
    if names.len() == 1 {
        assert(names[0].contains(names[0][0]));
    } else {
        lemma_first_char(names.drop_last());
    }
}

/// Slashes that follow each other, and `.` between slashes, name nothing.
pub proof fn empty_steps_name_nothing(a: Seq<char>, b: Seq<char>)
    requires
        a.len() > 0,
    ensures
        components(a + seq!['/'] + seq!['/'] + b) == components(a + seq!['/'] + b),
        components(a + seq!['/'] + dot() + seq!['/'] + b) == components(a + seq!['/'] + b),
{
    let none = Seq::<char>::empty();
    let plain = a + seq!['/'] + b;
    let doubled = a + seq!['/'] + seq!['/'] + b;
    let dotted = a + seq!['/'] + dot() + seq!['/'] + b;
    lemma_split_pieces(a, '/');
    assert(doubled =~= a + seq!['/'] + (none + seq!['/'] + b));
    assert(dotted =~= a + seq!['/'] + (dot() + seq!['/'] + b));
    a_separator_parts_the_pieces(a, '/', b);
    a_separator_parts_the_pieces(a, '/', none + seq!['/'] + b);
    a_separator_parts_the_pieces(a, '/', dot() + seq!['/'] + b);
    a_separator_parts_the_pieces(none, '/', b);
    a_separator_parts_the_pieces(dot(), '/', b);
    assert(split_on(none, '/') =~= seq![none]);
    assert(!dot().contains('/'));
    lemma_unsplit(dot(), '/');
    let (f, g) = (split_on(a, '/'), split_on(b, '/'));
    lemma_meaningful_adds(f, g);
    lemma_meaningful_adds(f, seq![none] + g);
    lemma_meaningful_adds(f, seq![dot()] + g);
    lemma_meaningful_adds(seq![none], g);
    lemma_meaningful_adds(seq![dot()], g);
    lemma_nothing_meaningful(none);
    lemma_nothing_meaningful(dot());
    assert(meaningful(seq![none] + g) =~= meaningful(g));
    assert(meaningful(seq![dot()] + g) =~= meaningful(g));
    assert(plain[0] == a[0] && doubled[0] == a[0] && dotted[0] == a[0]);
    assert((f + g)[0] == f[0]);
    assert((f + (seq![none] + g))[0] == f[0]);
    assert((f + (seq![dot()] + g))[0] == f[0]);
}

/// The components of a joined path are those of the base, then those of the
/// relative path.
pub proof fn joined_paths_have_both_components(base: Seq<char>, rel: Seq<char>)
    requires
        base.len() > 0,
        rel.len() == 0 || rel[0] != '/',
        split_on(rel, '/')[0] != dot(),
    ensures
        components(joined(base, rel)) == components(base) + components(rel),
{
    let both = joined(base, rel);
    let (f, g) = (split_on(base, '/'), split_on(rel, '/'));
    lemma_split_pieces(base, '/');
    lemma_meaningful_adds(f, g);
    if base.last() == '/' {
        let front = base.drop_last();
        assert(base =~= front + seq!['/'] + Seq::<char>::empty());
        assert(both =~= front + seq!['/'] + rel);
        let none = Seq::<char>::empty();
        a_separator_parts_the_pieces(front, '/', rel);
        a_separator_parts_the_pieces(front, '/', none);
        lemma_split_pieces(front, '/');
        assert(split_on(none, '/') =~= seq![none]);
        lemma_meaningful_adds(split_on(front, '/'), seq![none]);
        lemma_meaningful_adds(split_on(front, '/'), g);
        lemma_nothing_meaningful(none);
        assert(meaningful(f) =~= meaningful(split_on(front, '/')));
        assert((split_on(front, '/') + g)[0] == split_on(front, '/')[0]);
        assert(f[0] == split_on(front, '/')[0]);
    } else {
        a_separator_parts_the_pieces(base, '/', rel);
        assert((f + g)[0] == f[0]);
    }
    assert(both[0] == base[0]);
    assert(components(both) =~= components(base) + components(rel));
}

/// The name of a file below a directory is the name that was put there.
pub proof fn files_keep_their_name(base: Seq<char>, name: Seq<char>)
    requires
        is_plain(name),
        name != dot_dot(),
    ensures
        file_name_of(joined(base, name)) == Some(name),
        file_name_of(name) == Some(name),
{
    lemma_unsplit(name, '/');
    assert(name.contains(name[0]));
    assert(root().contains('/')) by {
        assert(root()[0] == '/');
    }
    assert(meaningful(seq![name].drop_last()) =~= Seq::<Seq<char>>::empty());
    assert(meaningful(seq![name]) =~= seq![name]);
    assert(components(name) == seq![name]);
    if base.len() > 0 {
        joined_paths_have_both_components(base, name);
    }
}

proof fn lemma_dot_at(s: Seq<char>, k: int)
    requires
        0 <= k < s.len(),
        s[k] == '.',
        forall|i: int| k < i < s.len() ==> #[trigger] s[i] != '.',
    ensures
        last_dot(s) == k,
{
    lemma_last_dot(s);
}

/// A file name is its stem and its extension with a dot between them. A name
/// without a dot, or with none but a leading one, is all stem.
pub proof fn stem_and_extension_make_the_name(stem: Seq<char>, ext: Seq<char>, plain: Seq<char>)
    requires
        stem.len() > 0,
        !ext.contains('.'),
        stem != dot() || ext.len() > 0,
        forall|i: int| 0 < i < plain.len() ==> #[trigger] plain[i] != '.',
    ensures
        stem_of(stem + dot() + ext) == stem,
        extension_of(stem + dot() + ext) == Some(ext),
        stem_of(plain) == plain,
        extension_of(plain) is None,
{
    let name = stem + dot() + ext;
    let k = stem.len() as int;
    assert(name[k] == '.');
    assert forall|i: int| k < i < name.len() implies #[trigger] name[i] != '.' by {
        assert(ext.contains(ext[i - k - 1]));
    }
    lemma_dot_at(name, k);
    assert(name.take(k) =~= stem);
    assert(name.skip(k + 1) =~= ext);
    if name == dot_dot() {
        assert(stem =~= dot());
        assert(ext.len() == 0);
    }
    lemma_last_dot(plain);
}

/// Only backslashes are replaced, and each by a slash.
pub proof fn only_backslashes_become_slashes(s: Seq<char>, i: int)
    requires
        0 <= i < s.len(),
    ensures
        forward_slashes(s).len() == s.len(),
        s[i] == '\\' ==> forward_slashes(s)[i] == '/',
        s[i] != '\\' ==> forward_slashes(s)[i] == s[i],
{
}

/// There is a way between two absolute paths, and between two that start with
/// the same name, and none between an absolute path and another.
pub proof fn ways_lead_between_paths_from_one_root(a: Seq<char>, b: Seq<char>)
    requires
        a.len() > 0,
        a[0] == '/',
    ensures
        b.len() > 0 && b[0] == '/' ==> same_start(components(a), components(b)),
        !(b.len() > 0 && b[0] == '/') ==> !same_start(components(a), components(b)),
        same_start(components(b), components(b)),
{
    assert(components(a)[0] == root());
    if b.len() > 0 && b[0] == '/' {
        assert(components(b)[0] == root());
    } else {
        let parts = split_on(b, '/');
        lemma_split_pieces(b, '/');
        lemma_meaningful_unrooted(parts);
        if components(b).len() > 0 && components(b)[0] == root() {
            assert(root()[0] == '/');
            assert(root().contains('/'));
            if parts[0] == dot() {
                assert(components(b)[0] == dot());
                assert(dot()[0] == '.');
            } else {
                assert(components(b) == meaningful(parts));
                assert(!meaningful(parts)[0].contains('/'));
            }
        }
    }
}

proof fn lemma_meaningful_unrooted(parts: Seq<Seq<char>>)
    requires
        forall|i: int| 0 <= i < parts.len() ==> !(#[trigger] parts[i]).contains('/'),
    ensures
        forall|i: int|
            0 <= i < meaningful(parts).len() ==> !(#[trigger] meaningful(parts)[i]).contains('/'),
    decreases parts.len(),
{
    if parts.len() > 0 {
        let front = parts.drop_last();
        assert forall|i: int| 0 <= i < front.len() implies !(#[trigger] front[i]).contains(
            '/',
        ) by {
            assert(!parts[i].contains('/'));
        }
        lemma_meaningful_unrooted(front);
        assert(!parts[parts.len() - 1].contains('/'));
        let (some, all) = (meaningful(front), meaningful(parts));
        assert forall|i: int| 0 <= i < all.len() implies !(#[trigger] all[i]).contains('/') by {
            if i < some.len() {
                assert(all[i] == some[i]);
            } else {
                assert(all[i] == parts.last());
            }
        }
    }
}

} // verus!
