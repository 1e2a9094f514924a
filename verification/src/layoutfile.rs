//! Adding layouts to a configuration file and removing them, textually.
//!
//! Editing the text rather than writing the parsed configuration back keeps
//! comments and ordering, which a round trip would silently discard.

use vstd::prelude::*;
use vstd::slice::slice_subrange;

use crate::error::SfmError;
use crate::order;
use crate::order::push_text;
use crate::paths;
use crate::paths::{join_text, split_text};
use crate::text;
use crate::text::{chars_of, find_from, quoted, same_text, string_of, trim};

verus! {

/// A layout as the file holds it.
#[derive(Debug)]
pub struct LayoutText {
    pub source: Option<String>,
    pub layers: Vec<String>,
}

// ---------------------------------------------------------------------------
// Writing a layout
// ---------------------------------------------------------------------------

/// The texts in quotes.
pub open spec fn quoted_texts(v: Seq<String>) -> Seq<Seq<char>> {
    v.map_values(|s: String| text::debug_form(s@))
}

/// A layout's block.
pub open spec fn layout_block(name: Seq<char>, default: bool, cfg: LayoutText) -> Seq<char> {
    "\n[[layouts]]\nname = \""@ + name + "\"\n"@ + (if default {
        "default = true\n"@
    } else {
        Seq::empty()
    }) + (match cfg.source {
        Some(s) => "source = "@ + text::debug_form(s@) + "\n"@,
        None => Seq::empty(),
    }) + "layers = ["@ + paths::join_with(quoted_texts(cfg.layers@), ", "@) + "]\n"@
}

/// Writes a layout's block.
pub fn render_layout(name: &str, default: bool, cfg: &LayoutText) -> (r: String)
    ensures
        r@ == layout_block(name@, default, *cfg),
{
    let mut out = String::from_str("\n[[layouts]]\nname = \"");
    out.append(name);
    out.append("\"\n");
    if default {
        out.append("default = true\n");
    }
    let ghost head = out@;
    assert(head =~= "\n[[layouts]]\nname = \""@ + name@ + "\"\n"@ + (if default {
        "default = true\n"@
    } else {
        Seq::empty()
    }));
    match &cfg.source {
        Some(s) => {
            out.append("source = ");
            out.append(quoted(s.as_str()).as_str());
            out.append("\n");
        },
        None => {},
    }
    assert(out@ =~= head + (match cfg.source {
        Some(s) => "source = "@ + text::debug_form(s@) + "\n"@,
        None => Seq::empty(),
    }));
    let mut parts: Vec<String> = Vec::new();
    let mut i: usize = 0;
    assert(order::texts(parts@) =~= quoted_texts(cfg.layers@).take(0));
    while i < cfg.layers.len()
        invariant
            i <= cfg.layers@.len(),
            order::texts(parts@) == quoted_texts(cfg.layers@).take(i as int),
        decreases cfg.layers@.len() - i,
    {
        push_text(&mut parts, quoted(cfg.layers[i].as_str()));
        i += 1;
        assert(order::texts(parts@) =~= quoted_texts(cfg.layers@).take(i as int));
    }
    assert(order::texts(parts@) =~= quoted_texts(cfg.layers@));
    out.append("layers = [");
    out.append(join_text(&parts, ", ").as_str());
    out.append("]\n");
    out
}

/// The end of a block: the line break before the next header, or the end of
/// the file.
pub open spec fn block_end(file: Seq<char>, from: int) -> int {
    match text::first_from(file, "\n["@, from) {
        Some(at) => at + 1,
        None => file.len() as int,
    }
}

fn find_end(chars: &[char], from: usize) -> (r: usize)
    requires
        from <= chars@.len(),
    ensures
        r == block_end(chars@, from as int),
        from <= r <= chars@.len(),
{
    let header = chars_of("\n[");
    proof {
        reveal_strlit("\n[");
        text::the_first_place_is_first(chars@, "\n["@, from as int);
    }
    let total: usize = chars.len();
    match find_from(chars, header.as_slice(), from) {
        Some(at) => {
            assert(at + 2 <= total);
            at + 1
        },
        None => total,
    }
}

/// The file without its lone layout.
pub open spec fn without_lone_layout(file: Seq<char>) -> Seq<char> {
    match text::first_from(file, "[layout]"@, 0) {
        Some(start) => file.take(start) + file.skip(block_end(file, start)),
        None => file,
    }
}

/// Takes the part between two places out of a text.
fn cut(chars: &[char], from: usize, to: usize) -> (out: Vec<char>)
    requires
        from <= to <= chars@.len(),
    ensures
        out@ == chars@.take(from as int) + chars@.skip(to as int),
{
    let mut out: Vec<char> = Vec::new();
    let mut i: usize = 0;
    while i < from
        invariant
            i <= from <= chars@.len(),
            out@ == chars@.take(i as int),
        decreases from - i,
    {
        out.push(chars[i]);
        i += 1;
        assert(out@ =~= chars@.take(i as int));
    }
    let mut j: usize = to;
    assert(out@ =~= chars@.take(from as int) + chars@.subrange(to as int, to as int));
    while j < chars.len()
        invariant
            from <= to <= j <= chars@.len(),
            out@ == chars@.take(from as int) + chars@.subrange(to as int, j as int),
        decreases chars@.len() - j,
    {
        out.push(chars[j]);
        j += 1;
        assert(out@ =~= chars@.take(from as int) + chars@.subrange(to as int, j as int));
    }
    assert(chars@.subrange(to as int, j as int) =~= chars@.skip(to as int));
    out
}

/// Why a layout cannot be added, if it cannot.
pub open spec fn add_complaint(
    names: Seq<Seq<char>>,
    name: Seq<char>,
    layers: nat,
) -> Option<Seq<char>> {
    if layers == 0 {
        Some("--layers needs at least one role, e.g. --layers capture,camera"@)
    } else if names.contains(name) {
        Some("this project already has a layout named \""@ + name + "\""@)
    } else {
        None
    }
}

fn has_text(list: &Vec<String>, x: &str) -> (r: bool)
    ensures
        r == order::texts(list@).contains(x@),
{
    let ghost all = order::texts(list@);
    let mut i: usize = 0;
    while i < list.len()
        invariant
            i <= list@.len(),
            all == order::texts(list@),
            forall|k: int| 0 <= k < i ==> all[k] != x@,
        decreases list@.len() - i,
    {
        assert(all[i as int] == list@[i as int]@);
        if same_text(list[i].as_str(), x) {
            return true;
        }
        i += 1;
    }
    assert(all.len() == list@.len());
    false
}

/// Adds a layout to a file. A lone layout and a list of them cannot both be
/// authoritative, so the first one that is added turns the old form into an
/// entry of the list, as the default.
pub fn add_layout(
    file: &str,
    lone: Option<&LayoutText>,
    names: &Vec<String>,
    name: &str,
    default: bool,
    cfg: &LayoutText,
) -> (r: Result<String, SfmError>)
    ensures
        match r {
            Ok(out) => {
                &&& add_complaint(order::texts(names@), name@, cfg.layers@.len()) is None
                &&& out@ == (match lone {
                    Some(old_one) => without_lone_layout(file@) + layout_block(
                        "default"@,
                        true,
                        *old_one,
                    ),
                    None => file@,
                }) + layout_block(name@, default, *cfg)
            },
            Err(e) => e matches SfmError::Other(m) && add_complaint(
                order::texts(names@),
                name@,
                cfg.layers@.len(),
            ) == Some(m@),
        },
{
    if cfg.layers.len() == 0 {
        return Err(
            SfmError::Other(
                String::from_str("--layers needs at least one role, e.g. --layers capture,camera"),
            ),
        );
    }
    if has_text(names, name) {
        let mut m = String::from_str("this project already has a layout named \"");
        m.append(name);
        m.append("\"");
        return Err(SfmError::Other(m));
    }
    let mut out = match lone {
        Some(old_one) => {
            let chars = chars_of(file);
            let header = chars_of("[layout]");
            proof {
                text::the_first_place_is_first(chars@, "[layout]"@, 0);
            }
            let mut kept = match find_from(chars.as_slice(), header.as_slice(), 0) {
                Some(start) => {
                    let end: usize = find_end(chars.as_slice(), start);
                    string_of(cut(chars.as_slice(), start, end).as_slice())
                },
                None => String::from_str(file),
            };
            kept.append(render_layout("default", true, old_one).as_str());
            kept
        },
        None => String::from_str(file),
    };
    out.append(render_layout(name, default, cfg).as_str());
    Ok(out)
}

// ---------------------------------------------------------------------------
// Removing a layout
// ---------------------------------------------------------------------------

/// Some line, without the white space around it, reads so.
pub open spec fn has_line(block: Seq<char>, line: Seq<char>) -> bool {
    exists|i: int|
        0 <= i < paths::split_on(block, '\n').len() && text::trimmed(
            #[trigger] paths::split_on(block, '\n')[i],
        ) == line
}

/// The first block at or after `from` that names the layout: where it starts
/// and where it ends.
pub open spec fn named_block(file: Seq<char>, line: Seq<char>, from: int) -> Option<(int, int)>
    decreases file.len() - from,
    via named_block_decreases
{
    match text::first_from(file, "[[layouts]]"@, from) {
        Some(start) => {
            if from < 0 || from > file.len() {
                None
            } else {
                let end = block_end(file, start + 1);
                if has_line(file.subrange(start, end), line) {
                    Some((start, end))
                } else {
                    named_block(file, line, end)
                }
            }
        },
        None => None,
    }
}

#[via_fn]
proof fn named_block_decreases(file: Seq<char>, line: Seq<char>, from: int) {
    reveal_strlit("[[layouts]]");
    reveal_strlit("\n[");
    if 0 <= from <= file.len() {
        text::the_first_place_is_first(file, "[[layouts]]"@, from);
        match text::first_from(file, "[[layouts]]"@, from) {
            Some(start) => {
                text::the_first_place_is_first(file, "\n["@, start + 1);
            },
            None => {},
        }
    }
}

/// A text in which no more than one blank line stands in a row.
pub open spec fn collapsed(s: Seq<char>) -> Seq<char>
    decreases s.len(),
{
    if s.len() == 0 {
        s
    } else {
        let n = s.len();
        let rest = collapsed(s.drop_last());
        if n >= 3 && s[n - 1] == '\n' && s[n - 2] == '\n' && s[n - 3] == '\n' {
            rest
        } else {
            rest.push(s.last())
        }
    }
}

/// Three line breaks in a row.
pub open spec fn is_gap(s: Seq<char>, i: int) -> bool {
    0 <= i && i + 3 <= s.len() && s[i] == '\n' && s[i + 1] == '\n' && s[i + 2] == '\n'
}

/// How many line breaks a text ends in.
spec fn trailing_breaks(s: Seq<char>) -> nat
    decreases s.len(),
{
    if s.len() > 0 && s.last() == '\n' {
        trailing_breaks(s.drop_last()) + 1
    } else {
        0
    }
}

proof fn lemma_collapsed(s: Seq<char>)
    ensures
        trailing_breaks(collapsed(s)) == if trailing_breaks(s) < 2 {
            trailing_breaks(s)
        } else {
            2
        },
        forall|i: int| !#[trigger] is_gap(collapsed(s), i),
    decreases s.len(),
{
    reveal_with_fuel(trailing_breaks, 4);
    if s.len() > 0 {
        let n = s.len();
        let fewer = s.drop_last();
        let rest = collapsed(fewer);
        lemma_collapsed(fewer);
        assert(n >= 2 ==> fewer.drop_last().len() == n - 2);
        if n >= 3 && s[n - 1] == '\n' && s[n - 2] == '\n' && s[n - 3] == '\n' {
            assert(fewer.last() == '\n');
            assert(fewer.drop_last().last() == '\n');
        } else {
            let all = rest.push(s.last());
            assert(all.drop_last() =~= rest);
            assert forall|i: int| !#[trigger] is_gap(all, i) by {
                if is_gap(all, i) {
                    if i + 3 <= rest.len() {
                        assert(is_gap(rest, i));
                    } else {
                        assert(rest.last() == '\n');
                        assert(rest.drop_last().last() == '\n');
                        assert(trailing_breaks(rest) >= 2);
                        assert(trailing_breaks(fewer) >= 2);
                    }
                }
            }
        }
    }
}

/// Removing a layout leaves no run of blank lines behind.
pub proof fn removal_leaves_no_gap(s: Seq<char>, i: int)
    ensures
        !is_gap(collapsed(s), i),
{
    lemma_collapsed(s);
}

fn collapse(chars: &[char]) -> (out: Vec<char>)
    ensures
        out@ == collapsed(chars@),
{
    let mut out: Vec<char> = Vec::new();
    let mut i: usize = 0;
    assert(chars@.take(0) =~= Seq::<char>::empty());
    while i < chars.len()
        invariant
            i <= chars@.len(),
            out@ == collapsed(chars@.take(i as int)),
        decreases chars@.len() - i,
    {
        let ghost next = chars@.take(i + 1);
        assert(next.drop_last() =~= chars@.take(i as int));
        if !(i >= 2 && chars[i] == '\n' && chars[i - 1] == '\n' && chars[i - 2] == '\n') {
            out.push(chars[i]);
        }
        i += 1;
    }
    assert(chars@.take(chars@.len() as int) =~= chars@);
    out
}

fn block_has_line(block: &[char], line: &str) -> (r: bool)
    ensures
        r == has_line(block@, line@),
{
    let lines = split_text(string_of(block).as_str(), '\n');
    let ghost all = order::texts(lines@);
    let mut i: usize = 0;
    while i < lines.len()
        invariant
            i <= lines@.len(),
            all == order::texts(lines@),
            all == paths::split_on(block@, '\n'),
            forall|k: int| 0 <= k < i ==> text::trimmed(#[trigger] all[k]) != line@,
        decreases lines@.len() - i,
    {
        let chars = chars_of(lines[i].as_str());
        assert(chars@ == all[i as int]);
        if same_text(string_of(trim(chars.as_slice())).as_str(), line) {
            return true;
        }
        i += 1;
    }
    assert(all.len() == lines@.len());
    false
}

/// The line that names a layout.
pub open spec fn naming_line(name: Seq<char>) -> Seq<char> {
    "name = "@ + text::debug_form(name)
}

/// Deletes the first block that holds a line. Nothing where there is no such
/// block.
pub fn remove_block_with_line(file: &str, line: &str) -> (r: Option<String>)
    ensures
        match r {
            Some(out) => named_block(file@, line@, 0) matches Some((start, end)) && out@
                == collapsed(file@.take(start) + file@.skip(end)),
            None => named_block(file@, line@, 0) is None,
        },
{
    let chars = chars_of(file);
    let header = chars_of("[[layouts]]");
    proof {
        reveal_strlit("[[layouts]]");
    }
    let total: usize = chars.len();
    let mut from: usize = 0;
    loop
        invariant
            total == chars@.len(),
            chars@ == file@,
            header@ == "[[layouts]]"@,
            header@.len() == 11,
            from <= total,
            named_block(file@, line@, 0) == named_block(file@, line@, from as int),
        decreases total - from,
    {
        proof {
            text::the_first_place_is_first(chars@, header@, from as int);
        }
        match find_from(chars.as_slice(), header.as_slice(), from) {
            Some(start) => {
                let end: usize = find_end(chars.as_slice(), start + 1);
                let block = slice_subrange(chars.as_slice(), start, end);
                if block_has_line(block, line) {
                    let rest = cut(chars.as_slice(), start, end);
                    return Some(string_of(collapse(rest.as_slice()).as_slice()));
                }
                from = end;
            },
            None => {
                return None;
            },
        }
    }
}

/// Deletes the block whose name matches. Nothing where there is no such block,
/// so that the caller can say so.
pub fn remove_layout_block(file: &str, name: &str) -> (r: Option<String>)
    ensures
        match r {
            Some(out) => named_block(file@, naming_line(name@), 0) matches Some((start, end))
                && out@ == collapsed(file@.take(start) + file@.skip(end)),
            None => named_block(file@, naming_line(name@), 0) is None,
        },
{
    let mut line = String::from_str("name = ");
    line.append(quoted(name).as_str());
    remove_block_with_line(file, line.as_str())
}

/// What is said where a layout is not there.
pub fn unknown_layout(name: &str, names: &Vec<String>) -> (r: SfmError)
    ensures
        r matches SfmError::Other(m) && m@ == "no layout named \""@ + name@
            + "\"; this project has: "@ + paths::join_with(order::texts(names@), ", "@),
{
    let mut m = String::from_str("no layout named \"");
    m.append(name);
    m.append("\"; this project has: ");
    m.append(join_text(names, ", ").as_str());
    SfmError::Other(m)
}

// ---------------------------------------------------------------------------
// Choosing a layout
// ---------------------------------------------------------------------------

/// The first of the first `n` layouts with a name.
pub open spec fn first_named(names: Seq<Seq<char>>, name: Seq<char>, n: nat) -> Option<int>
    decreases n,
{
    if n == 0 {
        None
    } else {
        match first_named(names, name, (n - 1) as nat) {
            Some(i) => Some(i),
            None => if names[n - 1] == name {
                Some(n - 1)
            } else {
                None
            },
        }
    }
}

/// The first of the first `n` layouts that is a default.
pub open spec fn first_default(defaults: Seq<bool>, n: nat) -> Option<int>
    decreases n,
{
    if n == 0 {
        None
    } else {
        match first_default(defaults, (n - 1) as nat) {
            Some(i) => Some(i),
            None => if defaults[n - 1] {
                Some(n - 1)
            } else {
                None
            },
        }
    }
}

/// The layout to use: the one that was asked for, or else the only one, or
/// else the default one.
pub open spec fn layout_choice(
    names: Seq<Seq<char>>,
    defaults: Seq<bool>,
    wanted: Option<Seq<char>>,
) -> Option<int> {
    match wanted {
        Some(name) => first_named(names, name, names.len()),
        None => if names.len() == 1 {
            Some(0)
        } else {
            first_default(defaults, defaults.len())
        },
    }
}

/// What is said where no layout can be chosen.
pub open spec fn no_choice(names: Seq<Seq<char>>, wanted: Option<Seq<char>>) -> Seq<char> {
    match wanted {
        Some(name) => "no layout named \""@ + name + "\"; this project has: "@
            + paths::join_with(names, ", "@),
        None =>
            "this project has several layouts and no default; pass --layout with one of: "@
            + paths::join_with(names, ", "@),
    }
}

/// The text that was asked for, if one was.
pub open spec fn asked(wanted: Option<&str>) -> Option<Seq<char>> {
    match wanted {
        Some(s) => Some(s@),
        None => None,
    }
}

/// Chooses among the layouts of a project, given by their names and by which
/// of them are defaults.
pub fn choose_layout(names: &Vec<String>, defaults: &Vec<bool>, wanted: Option<&str>) -> (r: Result<
    usize,
    SfmError,
>)
    requires
        defaults@.len() == names@.len(),
    ensures
        ({
            let all = order::texts(names@);
            match r {
                Ok(at) => at < names@.len() && layout_choice(all, defaults@, asked(wanted)) == Some(
                    at as int,
                ),
                Err(e) => layout_choice(all, defaults@, asked(wanted)) is None && (e matches SfmError::Other(
                    m,
                ) && m@ == no_choice(all, asked(wanted))),
            }
        }),
{
    match wanted {
        Some(name) => {
            let mut i: usize = 0;
            while i < names.len()
                invariant
                    i <= names@.len(),
                    wanted == Some(name),
                    first_named(order::texts(names@), name@, i as nat) is None,
                decreases names@.len() - i,
            {
                if same_text(names[i].as_str(), name) {
                    proof {
                        lemma_first_named_stays(
                            order::texts(names@),
                            name@,
                            (i + 1) as nat,
                            names@.len(),
                        );
                    }
                    return Ok(i);
                }
                i += 1;
            }
            Err(unknown_layout(name, names))
        },
        None => {
            if names.len() == 1 {
                return Ok(0);
            }
            let mut i: usize = 0;
            while i < defaults.len()
                invariant
                    i <= defaults@.len(),
                    defaults@.len() == names@.len(),
                    names@.len() != 1,
                    wanted is None,
                    first_default(defaults@, i as nat) is None,
                decreases defaults@.len() - i,
            {
                if defaults[i] {
                    proof {
                        lemma_first_default_stays(defaults@, (i + 1) as nat, defaults@.len());
                    }
                    return Ok(i);
                }
                i += 1;
            }
            let mut m = String::from_str(
                "this project has several layouts and no default; pass --layout with one of: ",
            );
            m.append(join_text(names, ", ").as_str());
            Err(SfmError::Other(m))
        },
    }
}

proof fn lemma_first_named_stays(names: Seq<Seq<char>>, name: Seq<char>, k: nat, n: nat)
    requires
        k <= n,
        first_named(names, name, k) is Some,
    ensures
        first_named(names, name, n) == first_named(names, name, k),
    decreases n,
{
    if k < n {
        lemma_first_named_stays(names, name, k, (n - 1) as nat);
    }
}

proof fn lemma_first_default_stays(defaults: Seq<bool>, k: nat, n: nat)
    requires
        k <= n,
        first_default(defaults, k) is Some,
    ensures
        first_default(defaults, n) == first_default(defaults, k),
    decreases n,
{
    if k < n {
        lemma_first_default_stays(defaults, k, (n - 1) as nat);
    }
}

/// What is said where a project declares no layout at all.
pub open spec fn no_layouts_text(path: Seq<char>) -> Seq<char> {
    path
        + " declares no layout, so there is nothing to normalise.\nAdd one when the dataset's directory shape cannot be inferred. `layers` names each level of the path, ending with the file - for a rig dumping one directory per capture and one file per camera:\n\nsfmtory dataset add-layout --name rig --layers capture,camera\n\nRoles: capture, camera, image (a shot within one camera), ignore. A level may also be a pattern such as cam{camera}_{image}.\n"@
}

/// What is said where a project declares no layout at all.
pub fn no_layouts(path: &str) -> (r: SfmError)
    ensures
        r matches SfmError::Other(m) && m@ == no_layouts_text(path@),
{
    let mut m = String::from_str(path);
    m.append(
        " declares no layout, so there is nothing to normalise.\nAdd one when the dataset's directory shape cannot be inferred. `layers` names each level of the path, ending with the file - for a rig dumping one directory per capture and one file per camera:\n\nsfmtory dataset add-layout --name rig --layers capture,camera\n\nRoles: capture, camera, image (a shot within one camera), ignore. A level may also be a pattern such as cam{camera}_{image}.\n",
    );
    SfmError::Other(m)
}

/// A block goes from its header to the next one, or to the end of the file.
pub open spec fn is_block(file: Seq<char>, start: int, end: int) -> bool {
    &&& 0 <= start < end <= file.len()
    &&& forall|k: int| start < k < end - 1 ==> !#[trigger] text::stands_at(file, "\n["@, k)
    &&& (end - 1 > start && text::stands_at(file, "\n["@, end - 1)) || (end == file.len()
        && forall|k: int| start < k ==> !#[trigger] text::stands_at(file, "\n["@, k))
}

proof fn lemma_block_end(file: Seq<char>, start: int, end: int)
    requires
        is_block(file, start, end),
    ensures
        block_end(file, start + 1) == end,
{
    text::the_first_place_is_first(file, "\n["@, start + 1);
    match text::first_from(file, "\n["@, start + 1) {
        Some(at) => {
            assert(text::stands_at(file, "\n["@, at));
            if at < end - 1 {
                assert(!text::stands_at(file, "\n["@, at));
            }
        },
        None => {
            if end - 1 > start {
                assert(!text::stands_at(file, "\n["@, end - 1));
            }
        },
    }
}

/// Of the blocks of layouts in a file the first that holds the line is the one
/// that goes: one that does not hold it is passed over, whole.
pub proof fn the_first_block_with_the_line_goes(
    file: Seq<char>,
    line: Seq<char>,
    from: int,
    start: int,
    end: int,
)
    requires
        0 <= from <= start,
        text::stands_at(file, "[[layouts]]"@, start),
        forall|k: int|
            from <= k < start ==> !#[trigger] text::stands_at(file, "[[layouts]]"@, k),
        is_block(file, start, end),
    ensures
        has_line(file.subrange(start, end), line) ==> named_block(file, line, from) == Some(
            (start, end),
        ),
        !has_line(file.subrange(start, end), line) ==> named_block(file, line, from)
            == named_block(file, line, end),
{
    text::the_first_place_is_first(file, "[[layouts]]"@, from);
    lemma_block_end(file, start, end);
    let found = text::first_from(file, "[[layouts]]"@, from);
    if found is None {
        assert(!text::stands_at(file, "[[layouts]]"@, start));
    } else {
        let at = found->0;
        if at < start {
            assert(!text::stands_at(file, "[[layouts]]"@, at));
        }
        if at > start {
            assert(!text::stands_at(file, "[[layouts]]"@, start));
        }
    }
}

/// A file without a block of a layout has none to remove.
pub proof fn nothing_goes_where_there_is_no_layout(file: Seq<char>, line: Seq<char>, from: int)
    requires
        0 <= from,
        forall|k: int| from <= k ==> !#[trigger] text::stands_at(file, "[[layouts]]"@, k),
    ensures
        named_block(file, line, from) is None,
{
    text::the_first_place_is_first(file, "[[layouts]]"@, from);
}

/// A line is found in a block whatever white space stands around it.
pub proof fn lines_are_found_between_white_space(
    above: Seq<char>,
    left: Seq<char>,
    line: Seq<char>,
    right: Seq<char>,
    below: Seq<char>,
)
    requires
        text::all_white(left),
        text::all_white(right),
        !left.contains('\n'),
        !right.contains('\n'),
        !line.contains('\n'),
        line.len() > 0,
        !text::is_white(line[0]),
        !text::is_white(line.last()),
    ensures
        has_line(above + seq!['\n'] + (left + line + right) + seq!['\n'] + below, line),
{
    let middle = left + line + right;
    let block = above + seq!['\n'] + middle + seq!['\n'] + below;
    assert(!middle.contains('\n')) by {
        if middle.contains('\n') {
            let k = choose|k: int| 0 <= k < middle.len() && middle[k] == '\n';
            if k < left.len() {
                assert(left[k] == '\n');
            } else if k < left.len() + line.len() {
                assert(line[k - left.len()] == '\n');
            } else {
                assert(right[k - left.len() - line.len()] == '\n');
            }
        }
    }
    paths::a_separator_parts_the_pieces(above + seq!['\n'] + middle, '\n', below);
    paths::a_separator_parts_the_pieces(above, '\n', middle);
    let one = seq![middle];
    paths::joined_pieces_are_split_again(one, '\n');
    assert(paths::join_with(one, seq!['\n']) == middle);
    let front = paths::split_on(above, '\n');
    let all = paths::split_on(block, '\n');
    assert(all == front + one + paths::split_on(below, '\n'));
    assert(all[front.len() as int] == middle);
    text::trimming_leaves_what_white_space_surrounds(left, line, right);
}

/// The lone layout goes from its header to the next one, and what stands
/// around it stays.
pub proof fn the_lone_layout_goes_alone(file: Seq<char>, start: int, end: int)
    requires
        text::stands_at(file, "[layout]"@, start),
        forall|k: int| 0 <= k < start ==> !#[trigger] text::stands_at(file, "[layout]"@, k),
        is_block(file, start, end),
    ensures
        without_lone_layout(file) == file.take(start) + file.skip(end),
{
    reveal_strlit("[layout]");
    reveal_strlit("\n[");
    text::the_first_place_is_first(file, "[layout]"@, 0);
    let found = text::first_from(file, "[layout]"@, 0);
    if found is None {
        assert(!text::stands_at(file, "[layout]"@, start));
    } else {
        let at = found->0;
        if at < start {
            assert(!text::stands_at(file, "[layout]"@, at));
        }
        if at > start {
            assert(!text::stands_at(file, "[layout]"@, start));
        }
    }
    assert(found == Some(start));
    // The header itself is no line break.
    assert(!text::stands_at(file, "\n["@, start)) by {
        if text::stands_at(file, "\n["@, start) {
            assert(file.subrange(start, start + 2)[0] == '\n');
            assert(file.subrange(start, start + 8)[0] == '[');
        }
    }
    assert(text::first_from(file, "\n["@, start) == text::first_from(file, "\n["@, start + 1));
    lemma_block_end(file, start, end);
}

/// Collapsing runs of blank lines drops line breaks alone, and none where no
/// two blank lines stand in a row.
pub proof fn collapsing_drops_line_breaks_alone(s: Seq<char>)
    ensures
        collapsed(s).filter(|c: char| c != '\n') == s.filter(|c: char| c != '\n'),
        (forall|i: int| !#[trigger] is_gap(s, i)) ==> collapsed(s) == s,
    decreases s.len(),
{
    reveal(Seq::filter);
    if s.len() > 0 {
        let n = s.len() as int;
        let rest = s.drop_last();
        collapsing_drops_line_breaks_alone(rest);
        assert(s =~= rest.push(s.last()));
        assert(collapsed(rest).push(s.last()).drop_last() =~= collapsed(rest));
        if n >= 3 && s[n - 1] == '\n' && s[n - 2] == '\n' && s[n - 3] == '\n' {
            assert(is_gap(s, n - 3));
        }
        if forall|i: int| !#[trigger] is_gap(s, i) {
            assert forall|i: int| !#[trigger] is_gap(rest, i) by {
                assert(!is_gap(s, i));
            }
        }
    }
}

/// The layout that is used is the first of the name that was asked for; where
/// none was, the only one, or the first that is a default.
pub proof fn the_layout_asked_for_is_used(
    names: Seq<Seq<char>>,
    defaults: Seq<bool>,
    wanted: Option<Seq<char>>,
)
    requires
        defaults.len() == names.len(),
    ensures
        match (wanted, layout_choice(names, defaults, wanted)) {
            (Some(name), Some(i)) => 0 <= i < names.len() && names[i] == name && forall|j: int|
                0 <= j < i ==> #[trigger] names[j] != name,
            (Some(name), None) => !names.contains(name),
            (None, Some(i)) => 0 <= i < names.len() && (names.len() == 1 || (defaults[i]
                && forall|j: int| 0 <= j < i ==> !#[trigger] defaults[j])),
            (None, None) => names.len() != 1 && forall|j: int|
                0 <= j < names.len() ==> !#[trigger] defaults[j],
        },
{
    if wanted is Some {
        lemma_first_named(names, wanted->0, names.len());
    }
    lemma_first_default(defaults, defaults.len());
}

proof fn lemma_first_named(names: Seq<Seq<char>>, name: Seq<char>, n: nat)
    requires
        n <= names.len(),
    ensures
        match first_named(names, name, n) {
            Some(i) => 0 <= i < n && names[i] == name && forall|j: int|
                0 <= j < i ==> #[trigger] names[j] != name,
            None => forall|j: int| 0 <= j < n ==> #[trigger] names[j] != name,
        },
    decreases n,
{
    if n > 0 {
        lemma_first_named(names, name, (n - 1) as nat);
    }
}

proof fn lemma_first_default(defaults: Seq<bool>, n: nat)
    requires
        n <= defaults.len(),
    ensures
        match first_default(defaults, n) {
            Some(i) => 0 <= i < n && defaults[i] && forall|j: int|
                0 <= j < i ==> !#[trigger] defaults[j],
            None => forall|j: int| 0 <= j < n ==> !#[trigger] defaults[j],
        },
    decreases n,
{
    if n > 0 {
        lemma_first_default(defaults, (n - 1) as nat);
    }
}

/// A layout can be added exactly where it has a level and a name of its own.
pub proof fn layouts_need_a_level_and_a_new_name(
    names: Seq<Seq<char>>,
    name: Seq<char>,
    layers: nat,
)
    ensures
        add_complaint(names, name, layers) is None <==> layers >= 1 && forall|i: int|
            0 <= i < names.len() ==> #[trigger] names[i] != name,
{
}

} // verus!
