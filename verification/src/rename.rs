use vstd::prelude::*;
use crate::error::ClipError;
use crate::layer::{find_layer_index, first_with_id, lookup, sorted_by_id, ClipLayer};

verus! {

/// One planned change of a name.
#[derive(Debug, Clone, Copy, PartialEq, Eq, Structural)]
pub struct Rename {
    /// Place of the renamed layer among the sorted records.
    pub index: usize,
    /// Identifier of the renamed layer.
    pub main_id: u64,
    /// Place of the folder that holds the layer.
    pub folder: usize,
    /// Number of the layer among the renamed layers of its folder.
    pub number: u64,
}

/// A folder whose layers are being walked.
#[derive(Debug, Clone, Copy)]
pub struct Frame {
    /// Place of the folder among the sorted records.
    pub folder: usize,
    /// Identifier of the layer to look at next, or zero at the end.
    pub next: u64,
    /// How many layers of the folder have been renamed so far.
    pub count: u64,
}

/// The state of a walk: the folders that are open, innermost last, the
/// records met so far, and the changes planned so far.
pub ghost struct Walk {
    pub stack: Seq<Frame>,
    pub visited: Seq<bool>,
    pub out: Seq<Rename>,
}

/// What one step of a walk leads to.
pub ghost enum Step {
    /// Every folder is closed.
    Done,
    /// A link leads nowhere, or to a record met before.
    Fail,
    /// The walk goes on.
    Next(Walk),
}

/// One step of the walk. The innermost open folder is closed at the end
/// of its chain; else the next layer of the chain is met: a folder is
/// opened, a leaf is renamed where its verdict says so (under the root
/// only if `rename_root` holds), and numbered after the leaves renamed
/// before it in the same folder.
pub open spec fn step(
    layers: Seq<ClipLayer>,
    root: int,
    rename_root: bool,
    verdicts: Seq<bool>,
    w: Walk,
) -> Step {
    if w.stack.len() == 0 {
        Step::Done
    } else {
        let f = w.stack.last();
        let rest = w.stack.drop_last();
        if f.next == 0 {
            Step::Next(Walk { stack: rest, visited: w.visited, out: w.out })
        } else {
            match lookup(layers, f.next) {
                None => Step::Fail,
                Some(ci) => {
                    if !(0 <= ci < w.visited.len()) || w.visited[ci] {
                        Step::Fail
                    } else {
                        let c = layers[ci];
                        let visited = w.visited.update(ci, true);
                        let moved = Frame { folder: f.folder, next: c.layer_next_index, count: f.count };
                        if c.layer_folder != 0 {
                            let opened = Frame {
                                folder: ci as usize,
                                next: c.layer_first_child_index,
                                count: 0,
                            };
                            Step::Next(
                                Walk { stack: rest.push(moved).push(opened), visited, out: w.out },
                            )
                        } else if (f.folder != root || rename_root) && verdicts[ci] {
                            let number = (f.count + 1) as u64;
                            let counted = Frame {
                                folder: f.folder,
                                next: c.layer_next_index,
                                count: number,
                            };
                            let change = Rename {
                                index: ci as usize,
                                main_id: c.main_id,
                                folder: f.folder,
                                number,
                            };
                            Step::Next(
                                Walk { stack: rest.push(counted), visited, out: w.out.push(change) },
                            )
                        } else {
                            Step::Next(Walk { stack: rest.push(moved), visited, out: w.out })
                        }
                    }
                },
            }
        }
    }
}

/// Number of records not met yet.
pub open spec fn count_false(v: Seq<bool>) -> nat
    decreases v.len(),
{
    if v.len() == 0 {
        0
    } else {
        count_false(v.drop_last()) + if v.last() {
            0nat
        } else {
            1nat
        }
    }
}

/// What is left of a walk: it falls with every step.
pub open spec fn measure(w: Walk) -> nat {
    2 * count_false(w.visited) + w.stack.len()
}

/// Meeting a record not met before leaves one fewer to meet.
pub proof fn lemma_count_false_update(v: Seq<bool>, i: int)
    requires
        0 <= i < v.len(),
        !v[i],
    ensures
        count_false(v.update(i, true)) + 1 == count_false(v),
        count_false(v) <= v.len(),
    decreases v.len(),
{
    lemma_count_false_le(v);
    if i == v.len() - 1 {
        assert(v.update(i, true).drop_last() =~= v.drop_last());
    } else {
        lemma_count_false_update(v.drop_last(), i);
        assert(v.update(i, true).drop_last() =~= v.drop_last().update(i, true));
    }
}

/// No more records are left to meet than there are records.
pub proof fn lemma_count_false_le(v: Seq<bool>)
    ensures
        count_false(v) <= v.len(),
    decreases v.len(),
{
    if v.len() > 0 {
        lemma_count_false_le(v.drop_last());
    }
}

/// Every step brings the walk nearer to its end.
pub proof fn lemma_step_decreases(
    layers: Seq<ClipLayer>,
    root: int,
    rename_root: bool,
    verdicts: Seq<bool>,
    w: Walk,
)
    ensures
        match step(layers, root, rename_root, verdicts, w) {
            Step::Next(w2) => measure(w2) < measure(w),
            _ => true,
        },
{
    if w.stack.len() > 0 && w.stack.last().next != 0 {
        match lookup(layers, w.stack.last().next) {
            Some(ci) => {
                if 0 <= ci < w.visited.len() && !w.visited[ci] {
                    lemma_count_false_update(w.visited, ci);
                }
            },
            None => {},
        }
    }
}

/// The walk from state `w` to its end: the changes planned, or nothing
/// where a step fails.
pub open spec fn run(
    layers: Seq<ClipLayer>,
    root: int,
    rename_root: bool,
    verdicts: Seq<bool>,
    w: Walk,
) -> Option<Seq<Rename>>
    decreases measure(w),
{
    match step(layers, root, rename_root, verdicts, w) {
        Step::Done => Some(w.out),
        Step::Fail => None,
        Step::Next(w2) => {
            proof {
                lemma_step_decreases(layers, root, rename_root, verdicts, w);
            }
            run(layers, root, rename_root, verdicts, w2)
        },
    }
}

/// The state in which a walk of the folder at `root` begins.
pub open spec fn start(layers: Seq<ClipLayer>, root: int) -> Walk {
    Walk {
        stack: seq![
            Frame { folder: root as usize, next: layers[root].layer_first_child_index, count: 0 },
        ],
        visited: Seq::new(layers.len(), |i: int| i == root),
        out: Seq::empty(),
    }
}

/// The changes that a walk of the folder at `root` plans, in the order
/// in which the layers are met; nothing where the record at `root` is no
/// folder or the links are broken.
pub open spec fn plan(
    layers: Seq<ClipLayer>,
    root: int,
    rename_root: bool,
    verdicts: Seq<bool>,
) -> Option<Seq<Rename>> {
    if layers[root].layer_folder == 0 {
        None
    } else {
        run(layers, root, rename_root, verdicts, start(layers, root))
    }
}

/// How many of the changes lie in the folder at `folder`.
pub open spec fn count_in(out: Seq<Rename>, folder: int) -> nat
    decreases out.len(),
{
    if out.len() == 0 {
        0
    } else {
        count_in(out.drop_last(), folder) + if out.last().folder == folder {
            1nat
        } else {
            0nat
        }
    }
}

/// Every change bears the number one more than the count of the changes
/// planned before it in the same folder: the numbers of a folder are
/// 1, 2, 3 and so on, in the order of the plan.
pub open spec fn well_numbered(out: Seq<Rename>) -> bool {
    forall|i: int|
        0 <= i < out.len() ==> (#[trigger] out[i]).number == 1 + count_in(
            out.take(i),
            out[i].folder as int,
        )
}

/// The change renames a leaf whose verdict asked for it, inside a folder,
/// and under the root only where that is allowed.
pub open spec fn sound_change(
    layers: Seq<ClipLayer>,
    root: int,
    rename_root: bool,
    verdicts: Seq<bool>,
    r: Rename,
) -> bool {
    &&& 0 <= r.index < layers.len()
    &&& 0 <= r.folder < layers.len()
    &&& layers[r.index as int].layer_folder == 0
    &&& layers[r.index as int].main_id == r.main_id
    &&& verdicts[r.index as int]
    &&& layers[r.folder as int].layer_folder != 0
    &&& r.folder == root ==> rename_root
}

/// No record is renamed twice.
pub open spec fn distinct_targets(out: Seq<Rename>) -> bool {
    forall|i: int, j: int|
        0 <= i < j < out.len() ==> (#[trigger] out[i]).index != (#[trigger] out[j]).index
}

/// An open folder is a folder met before, and its count is that of the
/// changes planned in it.
pub open spec fn frame_ok(layers: Seq<ClipLayer>, w: Walk, f: Frame) -> bool {
    &&& 0 <= f.folder < layers.len()
    &&& w.visited[f.folder as int]
    &&& layers[f.folder as int].layer_folder != 0
    &&& f.count == count_in(w.out, f.folder as int)
}

/// What holds of every state of a walk.
pub open spec fn inv(
    layers: Seq<ClipLayer>,
    root: int,
    rename_root: bool,
    verdicts: Seq<bool>,
    w: Walk,
) -> bool {
    &&& layers.len() <= usize::MAX
    &&& w.visited.len() == layers.len()
    &&& forall|k: int| 0 <= k < w.stack.len() ==> frame_ok(layers, w, #[trigger] w.stack[k])
    &&& forall|k1: int, k2: int|
        0 <= k1 < k2 < w.stack.len() ==> (#[trigger] w.stack[k1]).folder != (
        #[trigger] w.stack[k2]).folder
    &&& forall|idx: int|
        0 <= idx < layers.len() && !(#[trigger] w.visited[idx]) ==> count_in(w.out, idx) == 0
    &&& w.out.len() + count_false(w.visited) <= w.visited.len()
    &&& well_numbered(w.out)
    &&& forall|i: int|
        0 <= i < w.out.len() ==> sound_change(layers, root, rename_root, verdicts, #[trigger] w.out[i])
    &&& forall|i: int| 0 <= i < w.out.len() ==> w.visited[(#[trigger] w.out[i]).index as int]
    &&& distinct_targets(w.out)
}

/// One more change in a folder raises that folder's count by one and
/// no other.
pub proof fn lemma_count_in_push(out: Seq<Rename>, r: Rename, folder: int)
    ensures
        count_in(out.push(r), folder) == count_in(out, folder) + if r.folder == folder {
            1nat
        } else {
            0nat
        },
{
    assert(out.push(r).drop_last() =~= out);
}

/// A folder holds no more changes than the plan.
pub proof fn lemma_count_in_le(out: Seq<Rename>, folder: int)
    ensures
        count_in(out, folder) <= out.len(),
    decreases out.len(),
{
    if out.len() > 0 {
        lemma_count_in_le(out.drop_last(), folder);
    }
}

/// A longer beginning of a plan holds no fewer changes of a folder.
pub proof fn lemma_count_in_grows(out: Seq<Rename>, folder: int, i: int, j: int)
    requires
        0 <= i <= j <= out.len(),
    ensures
        count_in(out.take(i), folder) <= count_in(out.take(j), folder),
    decreases j - i,
{
    if i < j {
        assert(out.take(j).drop_last() =~= out.take(j - 1));
        lemma_count_in_grows(out, folder, i, j - 1);
    }
}

/// In a well-numbered plan the numbers begin at 1, and of two changes in
/// the same folder the later one bears the greater number.
pub proof fn lemma_numbers_increase(out: Seq<Rename>, i: int, j: int)
    requires
        well_numbered(out),
        0 <= i < j < out.len(),
        out[i].folder == out[j].folder,
    ensures
        1 <= out[i].number < out[j].number,
{
    let folder = out[i].folder as int;
    assert(out.take(i + 1).drop_last() =~= out.take(i));
    assert(out.take(i + 1).last() == out[i]);
    lemma_count_in_grows(out, folder, i + 1, j);
}

/// A plan that is well numbered stays so when a change with the next
/// number of its folder is added.
pub proof fn lemma_well_numbered_push(out: Seq<Rename>, r: Rename)
    requires
        well_numbered(out),
        r.number == 1 + count_in(out, r.folder as int),
    ensures
        well_numbered(out.push(r)),
{
    let out2 = out.push(r);
    assert forall|i: int| 0 <= i < out2.len() implies (#[trigger] out2[i]).number == 1 + count_in(
        out2.take(i),
        out2[i].folder as int,
    ) by {
        if i < out.len() {
            assert(out2.take(i) =~= out.take(i));
            assert(out2[i] == out[i]);
        } else {
            assert(out2.take(i) =~= out);
        }
    }
}

/// A walk begins in a state of which the invariant holds.
pub proof fn lemma_start_inv(
    layers: Seq<ClipLayer>,
    root: int,
    rename_root: bool,
    verdicts: Seq<bool>,
)
    requires
        0 <= root < layers.len(),
        layers.len() <= usize::MAX,
        layers[root].layer_folder != 0,
    ensures
        inv(layers, root, rename_root, verdicts, start(layers, root)),
{
    let w = start(layers, root);
    lemma_count_false_le(w.visited);
    assert(w.stack[0].folder == root);
    assert(count_in(w.out, root) == 0);
    assert forall|idx: int| 0 <= idx < layers.len() implies count_in(w.out, idx) == 0 by {}
}

/// Where a leaf is about to be renamed, its number fits.
pub proof fn lemma_count_fits(
    layers: Seq<ClipLayer>,
    root: int,
    rename_root: bool,
    verdicts: Seq<bool>,
    w: Walk,
    ci: int,
)
    requires
        inv(layers, root, rename_root, verdicts, w),
        w.stack.len() > 0,
        0 <= ci < w.visited.len(),
        !w.visited[ci],
    ensures
        w.stack.last().count + 1 <= usize::MAX,
        w.out.len() + 1 <= usize::MAX,
{
    let f = w.stack.last();
    assert(frame_ok(layers, w, w.stack[w.stack.len() - 1]));
    lemma_count_in_le(w.out, f.folder as int);
    lemma_count_false_update(w.visited, ci);
}

/// A step keeps the invariant.
pub proof fn lemma_step_inv(
    layers: Seq<ClipLayer>,
    root: int,
    rename_root: bool,
    verdicts: Seq<bool>,
    w: Walk,
)
    requires
        inv(layers, root, rename_root, verdicts, w),
    ensures
        match step(layers, root, rename_root, verdicts, w) {
            Step::Next(w2) => inv(layers, root, rename_root, verdicts, w2),
            _ => true,
        },
{
    if w.stack.len() > 0 {
    let f = w.stack.last();
    let rest = w.stack.drop_last();
    let top = w.stack.len() - 1;
    assert(frame_ok(layers, w, w.stack[top]));
    assert forall|k: int| 0 <= k < rest.len() implies rest[k] == w.stack[k] by {}
    if f.next == 0 {
        let w2 = Walk { stack: rest, visited: w.visited, out: w.out };
        assert forall|k: int| 0 <= k < w2.stack.len() implies frame_ok(
            layers,
            w2,
            #[trigger] w2.stack[k],
        ) by {
            assert(frame_ok(layers, w, w.stack[k]));
        }
    } else {
    match lookup(layers, f.next) {
        None => {},
        Some(ci) => {
            if 0 <= ci < w.visited.len() && !w.visited[ci] {
            let c = layers[ci];
            let visited = w.visited.update(ci, true);
            lemma_count_false_update(w.visited, ci);
            lemma_count_fits(layers, root, rename_root, verdicts, w, ci);
            let moved = Frame { folder: f.folder, next: c.layer_next_index, count: f.count };
            if c.layer_folder != 0 {
                let opened = Frame {
                    folder: ci as usize,
                    next: c.layer_first_child_index,
                    count: 0,
                };
                let w2 = Walk { stack: rest.push(moved).push(opened), visited, out: w.out };
                assert forall|k: int| 0 <= k < w2.stack.len() implies frame_ok(
                    layers,
                    w2,
                    #[trigger] w2.stack[k],
                ) by {
                    if k < top {
                        assert(frame_ok(layers, w, w.stack[k]));
                    }
                }
                assert forall|k1: int, k2: int| 0 <= k1 < k2 < w2.stack.len() implies (
                #[trigger] w2.stack[k1]).folder != (#[trigger] w2.stack[k2]).folder by {
                    assert(frame_ok(layers, w, w.stack[k1]));
                    if k2 <= top {
                        assert(w.stack[k1].folder != w.stack[k2].folder);
                    }
                }
            } else if (f.folder != root || rename_root) && verdicts[ci] {
                let number = (f.count + 1) as u64;
                let counted = Frame { folder: f.folder, next: c.layer_next_index, count: number };
                let change = Rename {
                    index: ci as usize,
                    main_id: c.main_id,
                    folder: f.folder,
                    number,
                };
                let w2 = Walk { stack: rest.push(counted), visited, out: w.out.push(change) };
                lemma_well_numbered_push(w.out, change);
                assert forall|k: int| 0 <= k < w2.stack.len() implies frame_ok(
                    layers,
                    w2,
                    #[trigger] w2.stack[k],
                ) by {
                    lemma_count_in_push(w.out, change, w2.stack[k].folder as int);
                    if k < top {
                        assert(frame_ok(layers, w, w.stack[k]));
                        assert(w.stack[k].folder != w.stack[top].folder);
                    }
                }
                assert forall|k1: int, k2: int| 0 <= k1 < k2 < w2.stack.len() implies (
                #[trigger] w2.stack[k1]).folder != (#[trigger] w2.stack[k2]).folder by {
                    assert(w.stack[k1].folder != w.stack[k2].folder);
                }
                assert forall|idx: int|
                    0 <= idx < layers.len() && !(#[trigger] w2.visited[idx]) implies count_in(
                    w2.out,
                    idx,
                ) == 0 by {
                    lemma_count_in_push(w.out, change, idx);
                    assert(!w.visited[idx]);
                }
                assert forall|i: int| 0 <= i < w2.out.len() implies sound_change(
                    layers,
                    root,
                    rename_root,
                    verdicts,
                    #[trigger] w2.out[i],
                ) by {
                    if i < w.out.len() {
                        assert(w2.out[i] == w.out[i]);
                    }
                }
                assert forall|i: int| 0 <= i < w2.out.len() implies w2.visited[(
                #[trigger] w2.out[i]).index as int] by {
                    if i < w.out.len() {
                        assert(w2.out[i] == w.out[i]);
                        assert(w.visited[w.out[i].index as int]);
                    }
                }
                assert forall|i: int, j: int| 0 <= i < j < w2.out.len() implies (
                #[trigger] w2.out[i]).index != (#[trigger] w2.out[j]).index by {
                    assert(w2.out[i] == w.out[i]);
                    assert(w.visited[w.out[i].index as int]);
                    if j < w.out.len() {
                        assert(w2.out[j] == w.out[j]);
                    }
                }
            } else {
                let w2 = Walk { stack: rest.push(moved), visited, out: w.out };
                assert forall|k: int| 0 <= k < w2.stack.len() implies frame_ok(
                    layers,
                    w2,
                    #[trigger] w2.stack[k],
                ) by {
                    if k < top {
                        assert(frame_ok(layers, w, w.stack[k]));
                    }
                }
                assert forall|k1: int, k2: int| 0 <= k1 < k2 < w2.stack.len() implies (
                #[trigger] w2.stack[k1]).folder != (#[trigger] w2.stack[k2]).folder by {
                    assert(w.stack[k1].folder != w.stack[k2].folder);
                }
            }
            }
        },
    }
    }
    }
}

/// What the invariant gives of a finished walk.
proof fn lemma_run_inv(
    layers: Seq<ClipLayer>,
    root: int,
    rename_root: bool,
    verdicts: Seq<bool>,
    w: Walk,
)
    requires
        inv(layers, root, rename_root, verdicts, w),
    ensures
        match run(layers, root, rename_root, verdicts, w) {
            Some(out) => {
                &&& well_numbered(out)
                &&& distinct_targets(out)
                &&& forall|i: int|
                    0 <= i < out.len() ==> sound_change(
                        layers,
                        root,
                        rename_root,
                        verdicts,
                        #[trigger] out[i],
                    )
            },
            None => true,
        },
    decreases measure(w),
{
    lemma_step_decreases(layers, root, rename_root, verdicts, w);
    lemma_step_inv(layers, root, rename_root, verdicts, w);
    match step(layers, root, rename_root, verdicts, w) {
        Step::Next(w2) => {
            lemma_run_inv(layers, root, rename_root, verdicts, w2);
        },
        _ => {},
    }
}

/// Within every folder the renamed leaves are numbered 1, 2, 3 and so
/// on in the order in which they are met: each change bears one more
/// than the count of the changes planned before it in its folder, so a
/// leaf that is not renamed uses up no number.
pub proof fn lemma_plan_numbering(
    layers: Seq<ClipLayer>,
    root: int,
    rename_root: bool,
    verdicts: Seq<bool>,
)
    requires
        0 <= root < layers.len() <= usize::MAX,
    ensures
        match plan(layers, root, rename_root, verdicts) {
            Some(out) => well_numbered(out),
            None => true,
        },
{
    if layers[root].layer_folder != 0 {
        lemma_start_inv(layers, root, rename_root, verdicts);
        lemma_run_inv(layers, root, rename_root, verdicts, start(layers, root));
    }
}

/// A plan renames no record twice.
pub proof fn lemma_plan_distinct(
    layers: Seq<ClipLayer>,
    root: int,
    rename_root: bool,
    verdicts: Seq<bool>,
)
    requires
        0 <= root < layers.len() <= usize::MAX,
    ensures
        match plan(layers, root, rename_root, verdicts) {
            Some(out) => distinct_targets(out),
            None => true,
        },
{
    if layers[root].layer_folder != 0 {
        lemma_start_inv(layers, root, rename_root, verdicts);
        lemma_run_inv(layers, root, rename_root, verdicts, start(layers, root));
    }
}

/// Every change of a plan renames a leaf whose verdict asked for it and
/// leaves folders alone; and where renaming under the root is not
/// allowed, no change lies in the root folder.
pub proof fn lemma_plan_sound(
    layers: Seq<ClipLayer>,
    root: int,
    rename_root: bool,
    verdicts: Seq<bool>,
)
    requires
        0 <= root < layers.len() <= usize::MAX,
    ensures
        match plan(layers, root, rename_root, verdicts) {
            Some(out) => forall|i: int|
                0 <= i < out.len() ==> {
                    &&& sound_change(layers, root, rename_root, verdicts, #[trigger] out[i])
                    &&& !rename_root ==> out[i].folder != root
                },
            None => true,
        },
{
    if layers[root].layer_folder != 0 {
        lemma_start_inv(layers, root, rename_root, verdicts);
        lemma_run_inv(layers, root, rename_root, verdicts, start(layers, root));
    }
}

/// Two sets of records differ in the names of their layers at most.
pub open spec fn same_shape(a: Seq<ClipLayer>, b: Seq<ClipLayer>) -> bool {
    &&& a.len() == b.len()
    &&& forall|i: int|
        0 <= i < a.len() ==> {
            &&& (#[trigger] a[i]).main_id == b[i].main_id
            &&& a[i].layer_folder == b[i].layer_folder
            &&& a[i].layer_next_index == b[i].layer_next_index
            &&& a[i].layer_first_child_index == b[i].layer_first_child_index
        }
}

proof fn lemma_lookup_same_shape(a: Seq<ClipLayer>, b: Seq<ClipLayer>, id: u64)
    requires
        same_shape(a, b),
    ensures
        lookup(a, id) == lookup(b, id),
{
    assert forall|i: int| first_with_id(a, id, i) == first_with_id(b, id, i) by {
        if 0 <= i < a.len() {
            assert(a[i].main_id == b[i].main_id);
            assert forall|j: int| 0 <= j < i implies (a[j].main_id != id) == (b[j].main_id
                != id) by {
                assert(a[j].main_id == b[j].main_id);
            }
        }
    }
}

proof fn lemma_run_same_shape(
    a: Seq<ClipLayer>,
    b: Seq<ClipLayer>,
    root: int,
    rename_root: bool,
    verdicts: Seq<bool>,
    w: Walk,
)
    requires
        same_shape(a, b),
    ensures
        run(a, root, rename_root, verdicts, w) == run(b, root, rename_root, verdicts, w),
    decreases measure(w),
{
    lemma_step_decreases(a, root, rename_root, verdicts, w);
    if w.stack.len() > 0 {
        lemma_lookup_same_shape(a, b, w.stack.last().next);
        match lookup(a, w.stack.last().next) {
            Some(ci) => {
                if 0 <= ci < a.len() {
                    assert(a[ci].main_id == b[ci].main_id);
                }
            },
            None => {},
        }
    }
    assert(step(a, root, rename_root, verdicts, w) == step(b, root, rename_root, verdicts, w));
    match step(a, root, rename_root, verdicts, w) {
        Step::Next(w2) => {
            lemma_run_same_shape(a, b, root, rename_root, verdicts, w2);
        },
        _ => {},
    }
}

/// A plan rests on the links, the folder flags and the verdicts alone,
/// not on the names: on records that were renamed, the same verdicts
/// give the same plan again, so a second run with a predicate that
/// accepts the new names renames the same leaves to the same numbers.
pub proof fn lemma_plan_ignores_names(
    a: Seq<ClipLayer>,
    b: Seq<ClipLayer>,
    root: int,
    rename_root: bool,
    verdicts: Seq<bool>,
)
    requires
        same_shape(a, b),
        0 <= root < a.len(),
    ensures
        plan(a, root, rename_root, verdicts) == plan(b, root, rename_root, verdicts),
{
    assert(a[root].layer_folder == b[root].layer_folder);
    assert(a[root].layer_first_child_index == b[root].layer_first_child_index);
    assert(start(a, root).visited =~= start(b, root).visited);
    assert(start(a, root) == start(b, root));
    lemma_run_same_shape(a, b, root, rename_root, verdicts, start(a, root));
}

/// The changes of a plan that lie outside the folder at `root`, in
/// their order.
pub open spec fn outside_root(out: Seq<Rename>, root: int) -> Seq<Rename>
    decreases out.len(),
{
    if out.len() == 0 {
        out
    } else if out.last().folder == root {
        outside_root(out.drop_last(), root)
    } else {
        outside_root(out.drop_last(), root).push(out.last())
    }
}

/// Two walks of the same records, one that may rename under the root and
/// one that may not, stand at the same place: they differ in the count
/// of the root folder and in the changes under the root alone.
pub open spec fn same_place(root: int, t: Walk, f: Walk) -> bool {
    &&& t.visited == f.visited
    &&& t.stack.len() == f.stack.len()
    &&& forall|k: int|
        0 <= k < t.stack.len() ==> {
            &&& (#[trigger] t.stack[k]).folder == f.stack[k].folder
            &&& t.stack[k].next == f.stack[k].next
            &&& t.stack[k].folder != root ==> t.stack[k].count == f.stack[k].count
        }
    &&& f.out == outside_root(t.out, root)
}

proof fn lemma_run_same_place(
    layers: Seq<ClipLayer>,
    root: int,
    verdicts: Seq<bool>,
    t: Walk,
    f: Walk,
)
    requires
        same_place(root, t, f),
    ensures
        match run(layers, root, true, verdicts, t) {
            Some(out) => run(layers, root, false, verdicts, f) == Some(outside_root(out, root)),
            None => run(layers, root, false, verdicts, f) is None,
        },
    decreases measure(t),
{
    lemma_step_decreases(layers, root, true, verdicts, t);
    lemma_step_decreases(layers, root, false, verdicts, f);
    if t.stack.len() > 0 {
        let top = t.stack.len() - 1;
        assert(t.stack[top].folder == f.stack[top].folder);
    }
    match step(layers, root, true, verdicts, t) {
        Step::Next(t2) => {
            let f2 = step(layers, root, false, verdicts, f)->Next_0;
            assert(step(layers, root, false, verdicts, f) is Next);
            assert(same_place(root, t2, f2)) by {
                let top = t.stack.len() - 1;
                assert forall|k: int| 0 <= k < top implies t.stack.drop_last()[k] == t.stack[k]
                    && f.stack.drop_last()[k] == f.stack[k] by {}
                assert forall|k: int| 0 <= k < t2.stack.len() implies {
                    &&& (#[trigger] t2.stack[k]).folder == f2.stack[k].folder
                    &&& t2.stack[k].next == f2.stack[k].next
                    &&& t2.stack[k].folder != root ==> t2.stack[k].count == f2.stack[k].count
                } by {
                    if k < top {
                        assert(t.stack[k].folder == f.stack[k].folder);
                        assert(t2.stack[k] == t.stack[k]);
                        assert(f2.stack[k] == f.stack[k]);
                    }
                }
                if t2.out.len() > t.out.len() {
                    assert(t2.out.drop_last() =~= t.out);
                }
            }
            lemma_run_same_place(layers, root, verdicts, t2, f2);
        },
        _ => {},
    }
}

/// Whether leaves right under the root may be renamed changes nothing
/// for the leaves of any other folder: the plan that leaves the root
/// alone is the other plan without its changes under the root, numbers
/// and order as they were, and one plan fails where the other does.
pub proof fn lemma_plan_outside_root(layers: Seq<ClipLayer>, root: int, verdicts: Seq<bool>)
    requires
        0 <= root < layers.len(),
    ensures
        match plan(layers, root, true, verdicts) {
            Some(out) => plan(layers, root, false, verdicts) == Some(outside_root(out, root)),
            None => plan(layers, root, false, verdicts) is None,
        },
{
    if layers[root].layer_folder != 0 {
        lemma_run_same_place(layers, root, verdicts, start(layers, root), start(layers, root));
    }
}

/// Walks the folder at `index` and plans the renaming of its leaves, in
/// the order in which they are met. `verdicts` says of each record
/// whether it asks for a new name; leaves right under the folder at
/// `index` are passed over where the base name is empty. Records whose
/// links lead nowhere or to a record met before are refused, and so is
/// an `index` that names no folder.
pub fn rename_layers_in_folder(
    v: &Vec<ClipLayer>,
    index: usize,
    root_layer_base_name: &str,
    verdicts: &Vec<bool>,
) -> (r: Result<Vec<Rename>, ClipError>)
    requires
        sorted_by_id(v@),
        index < v@.len(),
        verdicts@.len() == v@.len(),
    ensures
        match r {
            Ok(out) => plan(v@, index as int, root_layer_base_name@.len() != 0, verdicts@) == Some(
                out@,
            ),
            Err(e) => e == ClipError::UnknownFileStruct && plan(
                v@,
                index as int,
                root_layer_base_name@.len() != 0,
                verdicts@,
            ) is None,
        },
{
    let n: usize = v.len();
    if v[index].layer_folder == 0 {
        return Err(ClipError::UnknownFileStruct);
    }
    let rename_root: bool = !root_layer_base_name.is_empty();
    let mut visited: Vec<bool> = Vec::new();
    let mut i: usize = 0;
    while i < n
        invariant
            i <= n,
            index < n,
            visited@ =~= Seq::new(i as nat, |k: int| k == index),
        decreases n - i,
    {
        visited.push(i == index);
        i += 1;
    }
    let mut stack: Vec<Frame> = Vec::new();
    stack.push(Frame { folder: index, next: v[index].layer_first_child_index, count: 0 });
    let mut out: Vec<Rename> = Vec::new();
    proof {
        lemma_start_inv(v@, index as int, rename_root, verdicts@);
        assert(stack@ =~= start(v@, index as int).stack);
        assert(visited@ =~= start(v@, index as int).visited);
        assert(out@ =~= start(v@, index as int).out);
    }
    while stack.len() > 0
        invariant
            n == v@.len(),
            index < n,
            verdicts@.len() == n,
            sorted_by_id(v@),
            rename_root == (root_layer_base_name@.len() != 0),
            inv(
                v@,
                index as int,
                rename_root,
                verdicts@,
                Walk { stack: stack@, visited: visited@, out: out@ },
            ),
            run(
                v@,
                index as int,
                rename_root,
                verdicts@,
                Walk { stack: stack@, visited: visited@, out: out@ },
            ) == plan(v@, index as int, rename_root, verdicts@),
        decreases measure(Walk { stack: stack@, visited: visited@, out: out@ }),
    {
        let ghost w = Walk { stack: stack@, visited: visited@, out: out@ };
        proof {
            lemma_step_decreases(v@, index as int, rename_root, verdicts@, w);
            lemma_step_inv(v@, index as int, rename_root, verdicts@, w);
        }
        let top: usize = stack.len() - 1;
        let f: Frame = stack[top];
        if f.next == 0 {
            stack.pop();
            assert(stack@ =~= w.stack.drop_last());
        } else {
            match find_layer_index(v, f.next) {
                None => {
                    assert(step(v@, index as int, rename_root, verdicts@, w) == Step::Fail);
                    return Err(ClipError::UnknownFileStruct);
                },
                Some(ci) => {
                    if visited[ci] {
                        assert(step(v@, index as int, rename_root, verdicts@, w) == Step::Fail);
                        return Err(ClipError::UnknownFileStruct);
                    }
                    proof {
                        lemma_count_fits(v@, index as int, rename_root, verdicts@, w, ci as int);
                    }
                    visited.set(ci, true);
                    let next: u64 = v[ci].layer_next_index;
                    if v[ci].layer_folder != 0 {
                        stack.set(top, Frame { folder: f.folder, next, count: f.count });
                        stack.push(
                            Frame { folder: ci, next: v[ci].layer_first_child_index, count: 0 },
                        );
                        assert(stack@ =~= w.stack.drop_last().push(
                            Frame { folder: f.folder, next, count: f.count },
                        ).push(
                            Frame { folder: ci, next: v@[ci as int].layer_first_child_index, count: 0 },
                        ));
                    } else if (f.folder != index || rename_root) && verdicts[ci] {
                        let number: u64 = f.count + 1;
                        out.push(
                            Rename { index: ci, main_id: v[ci].main_id, folder: f.folder, number },
                        );
                        stack.set(top, Frame { folder: f.folder, next, count: number });
                        assert(stack@ =~= w.stack.drop_last().push(
                            Frame { folder: f.folder, next, count: number },
                        ));
                    } else {
                        stack.set(top, Frame { folder: f.folder, next, count: f.count });
                        assert(stack@ =~= w.stack.drop_last().push(
                            Frame { folder: f.folder, next, count: f.count },
                        ));
                    }
                },
            }
        }
        assert(step(v@, index as int, rename_root, verdicts@, w) == Step::Next(
            Walk { stack: stack@, visited: visited@, out: out@ },
        ));
    }
    Ok(out)
}

} // verus!
