//! The patch applier: the first tree is walked with the same counting rule
//! as the diff, the patch set is consulted at every position, and the tree
//! that the patches describe is written out as indented lines of text.

use crate::model::{listing, listing_from, Edit, Line, Tree};
use crate::tree::{forest, patch_set, Node, Patch};
use std::collections::HashMap;
use std::fmt::Display;
use std::rc::Rc;
use vstd::prelude::*;
use vstd::string::*;

verus! {

/// The lines that the vertex `node` at position `p` gives at depth `d` under
/// the patch set `m`.
pub open spec fn apply_lines<T>(node: Tree<T>, m: Map<int, Edit<T>>, p: int, d: nat) -> Seq<Line<T>>
    decreases node, 0nat,
{
    let own = seq![Line { depth: d, value: node.value, changed: false }];
    if m.contains_key(p) {
        match m[p] {
            Edit::Update(n) => listing(n, d, true),
            Edit::Insert(ns) => own + children_lines(node.children, m, p, d + 1, 0) + listing_from(
                ns,
                d + 1,
                true,
                0,
            ),
            Edit::Remove => Seq::empty(),
        }
    } else {
        own + children_lines(node.children, m, p, d + 1, 0)
    }
}

/// The position counter after the vertex `node` at position `p` has been
/// applied: a replaced or removed vertex keeps its children from being
/// numbered.
pub open spec fn apply_end<T>(node: Tree<T>, m: Map<int, Edit<T>>, p: int) -> int
    decreases node, 0nat,
{
    if m.contains_key(p) && !(m[p] is Insert) {
        p
    } else {
        children_end(node.children, m, p, 0)
    }
}

/// The lines of the children `xs[i..]` at depth `d`, when the counter stands
/// at `p` before the first of them.
pub open spec fn children_lines<T>(
    xs: Seq<Tree<T>>,
    m: Map<int, Edit<T>>,
    p: int,
    d: nat,
    i: int,
) -> Seq<Line<T>>
    decreases xs, xs.len() - i,
{
    if 0 <= i < xs.len() {
        apply_lines(xs[i], m, p + 1, d) + children_lines(
            xs,
            m,
            apply_end(xs[i], m, p + 1),
            d,
            i + 1,
        )
    } else {
        Seq::empty()
    }
}

/// The position counter after the children `xs[i..]` have been applied, when
/// it stood at `p` before.
pub open spec fn children_end<T>(xs: Seq<Tree<T>>, m: Map<int, Edit<T>>, p: int, i: int) -> int
    decreases xs, xs.len() - i,
{
    if 0 <= i < xs.len() {
        children_end(xs, m, apply_end(xs[i], m, p + 1), i + 1)
    } else {
        p
    }
}

/// The projection of `root` under the patch set `m`: the root stands at
/// position 0 and depth 0.
pub open spec fn projection<T>(root: Tree<T>, m: Map<int, Edit<T>>) -> Seq<Line<T>> {
    apply_lines(root, m, 0, 0)
}

/// Two spaces for each level of depth.
pub open spec fn indent_text(depth: nat) -> Seq<char> {
    Seq::new(2 * depth, |i: int| ' ')
}

/// The suffix that marks a changed line.
pub open spec fn mark_text(changed: bool) -> Seq<char> {
    if changed {
        seq!['(', '*', ')']
    } else {
        Seq::empty()
    }
}

/// `text` is the line `l` written out: the indentation of its depth, the
/// text that `Display` gives for its value, and the mark if it is changed.
pub open spec fn line_text<T: Display>(l: Line<T>, text: Seq<char>) -> bool {
    exists|s: String|
        #![trigger to_string_from_display_ensures::<T>(&l.value, s)]
        to_string_from_display_ensures::<T>(&l.value, s) && text == indent_text(l.depth) + s@
            + mark_text(l.changed)
}

/// `out` holds the lines `lines` written out, one string for each, in order.
pub open spec fn renders<T: Display>(lines: Seq<Line<T>>, out: Seq<String>) -> bool {
    &&& out.len() == lines.len()
    &&& forall|i: int| 0 <= i < lines.len() ==> line_text(lines[i], #[trigger] out[i]@)
}

/// `after` is `before` with the lines `lines` written out behind it.
pub open spec fn written<T: Display>(
    before: Seq<String>,
    after: Seq<String>,
    lines: Seq<Line<T>>,
) -> bool {
    &&& after.len() == before.len() + lines.len()
    &&& after.subrange(0, before.len() as int) == before
    &&& renders(lines, after.subrange(before.len() as int, after.len() as int))
}

/// The counter never goes back while a vertex is applied.
pub proof fn lemma_apply_end_bounds<T>(node: Tree<T>, m: Map<int, Edit<T>>, p: int)
    ensures
        p <= apply_end(node, m, p),
    decreases node, 0nat,
{
    if m.contains_key(p) && !(m[p] is Insert) {
    } else {
        lemma_children_end_bounds(node.children, m, p, 0);
    }
}

/// The counter never goes back while children are applied, and it passes the
/// end of the first of them.
pub proof fn lemma_children_end_bounds<T>(xs: Seq<Tree<T>>, m: Map<int, Edit<T>>, p: int, i: int)
    ensures
        p <= children_end(xs, m, p, i),
        0 <= i < xs.len() ==> p + 1 <= apply_end(xs[i], m, p + 1) <= children_end(xs, m, p, i),
    decreases xs, xs.len() - i,
{
    if 0 <= i < xs.len() {
        lemma_apply_end_bounds(xs[i], m, p + 1);
        lemma_children_end_bounds(xs, m, apply_end(xs[i], m, p + 1), i + 1);
    }
}

/// Nothing written leaves the output as it was.
proof fn lemma_written_nothing<T: Display>(before: Seq<String>)
    ensures
        written(before, before, Seq::<Line<T>>::empty()),
{
    assert(before.subrange(0, before.len() as int) =~= before);
}

/// Writing one run of lines and then another is writing the two runs joined.
proof fn lemma_written_more<T: Display>(
    before: Seq<String>,
    middle: Seq<String>,
    after: Seq<String>,
    first: Seq<Line<T>>,
    second: Seq<Line<T>>,
)
    requires
        written(before, middle, first),
        written(middle, after, second),
    ensures
        written(before, after, first + second),
{
    let lines = first + second;
    let tail = after.subrange(before.len() as int, after.len() as int);
    let head = middle.subrange(before.len() as int, middle.len() as int);
    let rest = after.subrange(middle.len() as int, after.len() as int);
    assert(after.subrange(0, before.len() as int) =~= middle.subrange(0, before.len() as int)) by {
        assert(after.subrange(0, middle.len() as int) == middle);
        assert forall|i: int| 0 <= i < before.len() implies after[i] == middle[i] by {
            assert(after.subrange(0, middle.len() as int)[i] == after[i]);
        }
    }
    assert forall|i: int| 0 <= i < lines.len() implies line_text(lines[i], #[trigger] tail[i]@) by {
        if i < first.len() {
            assert(after.subrange(0, middle.len() as int)[before.len() + i] == after[before.len()
                + i]);
            assert(tail[i] == head[i]);
        } else {
            assert(tail[i] == rest[i - first.len()]);
        }
    }
}

/// The indentation of a line at depth `n`.
pub fn indent(n: usize) -> (text: String)
    ensures
        text@ == indent_text(n as nat),
{
    let mut text = String::new();
    let mut i: usize = 0;
    while i < n
        invariant
            i <= n,
            text@ == indent_text(i as nat),
        decreases n - i,
    {
        proof {
            reveal_strlit("  ");
        }
        text.append("  ");
        i = i + 1;
        proof {
            assert(text@ =~= indent_text(i as nat));
        }
    }
    text
}

/// Writes out the line of `node` at depth `depth`, with the mark if `change`
/// is set.
fn render_line<T: Display + Eq>(node: &Rc<Node<T>>, depth: usize, change: bool) -> (text: String)
    ensures
        line_text(Line { depth: depth as nat, value: node@.value, changed: change }, text@),
{
    let mut text = indent(depth);
    let value = node.value().to_string();
    text.append(value.as_str());
    if change {
        proof {
            reveal_strlit("(*)");
        }
        text.append("(*)");
    }
    proof {
        let l = Line { depth: depth as nat, value: node@.value, changed: change };
        assert(to_string_from_display_ensures::<T>(&l.value, value));
        assert(text@ =~= indent_text(l.depth) + value@ + mark_text(l.changed));
        assert(line_text(l, text@));
    }
    text
}

/// Writes out `node` and all below it, every line marked as changed.
fn render_marked<T: Display + Eq>(node: &Rc<Node<T>>, depth: usize, out: &mut Vec<String>)
    requires
        depth <= old(out).len(),
    ensures
        written(old(out)@, final(out)@, listing(node@, depth as nat, true)),
    decreases node@, 0nat,
{
    let ghost before = out@;
    let ghost own = seq![Line { depth: depth as nat, value: node@.value, changed: true }];
    let text = render_line(node, depth, true);
    out.push(text);
    proof {
        assert(out@.subrange(0, before.len() as int) =~= before);
        assert(out@.subrange(before.len() as int, out@.len() as int) =~= seq![text]);
        assert(written(before, out@, own));
    }
    let ghost middle = out@;
    render_all_marked(node.children(), depth, out);
    proof {
        lemma_written_more(
            before,
            middle,
            out@,
            own,
            listing_from(node@.children, depth as nat + 1, true, 0),
        );
    }
}

/// Writes out each of `nodes` and all below it one level below `depth`, every
/// line marked as changed.
fn render_all_marked<T: Display + Eq>(
    nodes: &Vec<Rc<Node<T>>>,
    depth: usize,
    out: &mut Vec<String>,
)
    requires
        depth < old(out).len(),
    ensures
        written(
            old(out)@,
            final(out)@,
            listing_from(forest(nodes@), depth as nat + 1, true, 0),
        ),
    decreases forest(nodes@), nodes@.len() + 1,
{
    let ghost before = out@;
    let ghost xs = forest(nodes@);
    let ghost d = depth as nat + 1;
    let ghost mut done = Seq::<Line<T>>::empty();
    let n = nodes.len();
    let mut i: usize = 0;
    proof {
        lemma_written_nothing::<T>(before);
    }
    while i < n
        invariant
            xs == forest(nodes@),
            n == nodes@.len(),
            d == depth as nat + 1,
            i <= n,
            depth < out.len(),
            written(before, out@, done),
            done + listing_from(xs, d, true, i as int) == listing_from(xs, d, true, 0),
        decreases n - i,
    {
        let ghost middle = out@;
        render_marked(&nodes[i], depth + 1, out);
        proof {
            let more = listing(xs[i as int], d, true);
            lemma_written_more(before, middle, out@, done, more);
            assert((done + more) + listing_from(xs, d, true, i + 1) =~= done + listing_from(
                xs,
                d,
                true,
                i as int,
            ));
            done = done + more;
        }
        i = i + 1;
    }
    proof {
        assert(done =~= listing_from(xs, d, true, 0));
    }
}

/// Applies the patch set to `node`, which stands at position `*index` and
/// depth `depth`, and writes the lines it gives behind `out`.
fn apply<T: Display + Eq>(
    node: &Rc<Node<T>>,
    patches: &HashMap<u32, Patch<T>>,
    index: &mut u32,
    depth: usize,
    out: &mut Vec<String>,
)
    requires
        apply_end(node@, patch_set(patches@), *old(index) as int) <= u32::MAX,
        depth <= old(out).len(),
    ensures
        *final(index) == apply_end(node@, patch_set(patches@), *old(index) as int),
        written(
            old(out)@,
            final(out)@,
            apply_lines(node@, patch_set(patches@), *old(index) as int, depth as nat),
        ),
    decreases node@, 0nat,
{
    let ghost before = out@;
    let ghost m = patch_set(patches@);
    let ghost own = seq![Line { depth: depth as nat, value: node@.value, changed: false }];
    let at = *index;
    match patches.get(&at) {
        Some(patch) => {
            assert(m.contains_key(at as int) && m[at as int] == patch@);
            match patch {
                Patch::Update(replacement) => {
                    render_marked(replacement, depth, out);
                },
                Patch::Insert(nodes) => {
                    let text = render_line(node, depth, false);
                    out.push(text);
                    proof {
                        assert(out@.subrange(0, before.len() as int) =~= before);
                        assert(out@.subrange(before.len() as int, out@.len() as int) =~= seq![text]);
                    }
                    let ghost first = out@;
                    apply_children(node.children(), patches, index, depth, out);
                    let ghost second = out@;
                    render_all_marked(nodes, depth, out);
                    proof {
                        let kept = children_lines(node@.children, m, at as int, depth as nat + 1, 0);
                        lemma_written_more(before, first, second, own, kept);
                        lemma_written_more(
                            before,
                            second,
                            out@,
                            own + kept,
                            listing_from(forest(nodes@), depth as nat + 1, true, 0),
                        );
                    }
                },
                Patch::Remove => {
                    proof {
                        lemma_written_nothing::<T>(before);
                    }
                },
            }
        },
        None => {
            assert(!m.contains_key(at as int));
            let text = render_line(node, depth, false);
            out.push(text);
            proof {
                assert(out@.subrange(0, before.len() as int) =~= before);
                assert(out@.subrange(before.len() as int, out@.len() as int) =~= seq![text]);
            }
            let ghost first = out@;
            apply_children(node.children(), patches, index, depth, out);
            proof {
                lemma_written_more(
                    before,
                    first,
                    out@,
                    own,
                    children_lines(node@.children, m, at as int, depth as nat + 1, 0),
                );
            }
        },
    }
}

/// Applies the patch set to each of `children`, whose parent stands at
/// position `*index` and depth `depth`, and writes the lines they give
/// behind `out`.
fn apply_children<T: Display + Eq>(
    children: &Vec<Rc<Node<T>>>,
    patches: &HashMap<u32, Patch<T>>,
    index: &mut u32,
    depth: usize,
    out: &mut Vec<String>,
)
    requires
        children_end(forest(children@), patch_set(patches@), *old(index) as int, 0) <= u32::MAX,
        depth < old(out).len(),
    ensures
        *final(index) == children_end(
            forest(children@),
            patch_set(patches@),
            *old(index) as int,
            0,
        ),
        written(
            old(out)@,
            final(out)@,
            children_lines(
                forest(children@),
                patch_set(patches@),
                *old(index) as int,
                depth as nat + 1,
                0,
            ),
        ),
    decreases forest(children@), children@.len() + 1,
{
    let ghost before = out@;
    let ghost xs = forest(children@);
    let ghost m = patch_set(patches@);
    let ghost d = depth as nat + 1;
    let ghost start = *index as int;
    let ghost mut done = Seq::<Line<T>>::empty();
    let n = children.len();
    let mut i: usize = 0;
    proof {
        lemma_written_nothing::<T>(before);
    }
    while i < n
        invariant
            xs == forest(children@),
            m == patch_set(patches@),
            n == children@.len(),
            d == depth as nat + 1,
            i <= n,
            children_end(xs, m, *index as int, i as int) == children_end(xs, m, start, 0),
            children_end(xs, m, start, 0) <= u32::MAX,
            depth < out.len(),
            written(before, out@, done),
            done + children_lines(xs, m, *index as int, d, i as int) == children_lines(
                xs,
                m,
                start,
                d,
                0,
            ),
        decreases n - i,
    {
        proof {
            lemma_children_end_bounds(xs, m, *index as int, i as int);
        }
        let ghost middle = out@;
        let ghost at = *index as int;
        *index = *index + 1;
        apply(&children[i], patches, index, depth + 1, out);
        proof {
            let more = apply_lines(xs[i as int], m, at + 1, d);
            lemma_written_more(before, middle, out@, done, more);
            assert((done + more) + children_lines(xs, m, *index as int, d, i + 1) =~= done
                + children_lines(xs, m, at, d, i as int));
            done = done + more;
        }
        i = i + 1;
    }
    proof {
        assert(done =~= children_lines(xs, m, start, d, 0));
    }
}

/// Whether the positions that `patch(root, patches)` numbers fit in `u32`:
/// the tree is walked without writing anything, and the walk given up as
/// soon as the counter could go no further.
pub fn patch_fits<T: Eq>(root: &Rc<Node<T>>, patches: &HashMap<u32, Patch<T>>) -> (fits: bool)
    ensures
        fits == (apply_end(root@, patch_set(patches@), 0) <= u32::MAX),
{
    count_apply(root, patches, 0).is_some()
}

/// The position at which applying the patch set to `node`, at position
/// `index`, ends, or `None` where it does not fit in `u32`.
fn count_apply<T: Eq>(node: &Rc<Node<T>>, patches: &HashMap<u32, Patch<T>>, index: u32) -> (end:
    Option<u32>)
    ensures
        match end {
            Some(e) => e == apply_end(node@, patch_set(patches@), index as int),
            None => apply_end(node@, patch_set(patches@), index as int) > u32::MAX,
        },
    decreases node@, 0nat,
{
    let ghost m = patch_set(patches@);
    match patches.get(&index) {
        Some(patch) => {
            assert(m.contains_key(index as int) && m[index as int] == patch@);
            match patch {
                Patch::Insert(_) => count_apply_children(node.children(), patches, index),
                _ => Some(index),
            }
        },
        None => {
            assert(!m.contains_key(index as int));
            count_apply_children(node.children(), patches, index)
        },
    }
}

/// The position at which applying the patch set to `children` ends, when
/// their parent stands at `index`, or `None` where it does not fit in `u32`.
fn count_apply_children<T: Eq>(
    children: &Vec<Rc<Node<T>>>,
    patches: &HashMap<u32, Patch<T>>,
    index: u32,
) -> (end: Option<u32>)
    ensures
        match end {
            Some(e) => e == children_end(forest(children@), patch_set(patches@), index as int, 0),
            None => children_end(forest(children@), patch_set(patches@), index as int, 0)
                > u32::MAX,
        },
    decreases forest(children@), children@.len() + 1,
{
    let ghost xs = forest(children@);
    let ghost m = patch_set(patches@);
    let n = children.len();
    let mut at = index;
    let mut i: usize = 0;
    while i < n
        invariant
            xs == forest(children@),
            m == patch_set(patches@),
            n == children@.len(),
            i <= n,
            children_end(xs, m, at as int, i as int) == children_end(xs, m, index as int, 0),
        decreases n - i,
    {
        proof {
            lemma_children_end_bounds(xs, m, at as int, i as int);
        }
        if at == u32::MAX {
            return None;
        }
        match count_apply(&children[i], patches, at + 1) {
            Some(next) => {
                at = next;
            },
            None => {
                return None;
            },
        }
        i = i + 1;
    }
    Some(at)
}

/// Replays `patches` against the tree under `root` and returns the lines of
/// the tree that results: one line for each vertex, indented by two spaces
/// for each level, with `(*)` behind every vertex that an insertion or a
/// replacement brought in. The tree itself is left as it is.
pub fn patch<T: Display + Eq>(root: &Rc<Node<T>>, patches: &HashMap<u32, Patch<T>>) -> (out: Vec<
    String,
>)
    requires
        apply_end(root@, patch_set(patches@), 0) <= u32::MAX,
    ensures
        renders(projection(root@, patch_set(patches@)), out@),
{
    let mut out: Vec<String> = Vec::new();
    let mut index: u32 = 0;
    apply(root, patches, &mut index, 0, &mut out);
    proof {
        assert(out@.subrange(0, out@.len() as int) =~= out@);
    }
    out
}

} // verus!
