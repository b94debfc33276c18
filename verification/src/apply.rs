use vstd::prelude::*;
use crate::error::ClipError;
use crate::layer::{
    count_roots, find_layer_index, get_layers, is_root_folder, lemma_lookup_some, lookup,
    sorted_by_id, ClipLayer,
};
use crate::naming::{make_name, numbered_name};
use crate::rename::{
    distinct_targets, lemma_plan_distinct, lemma_plan_ignores_names, lemma_plan_sound, plan,
    rename_layers_in_folder, same_shape, sound_change, Rename,
};

verus! {

/// A new name for the layer with identifier `main_id`.
#[derive(Debug, Clone)]
pub struct LayerChange {
    pub main_id: u64,
    pub name: String,
}

/// The name that a planned change gives: the base name right under the
/// root, else the name of the folder that holds the layer, then a space
/// and the layer's number.
pub open spec fn name_of_change(
    layers: Seq<ClipLayer>,
    root: int,
    base: Seq<char>,
    r: Rename,
) -> Seq<char> {
    numbered_name(
        if r.folder == root {
            base
        } else {
            layers[r.folder as int].layer_name@
        },
        r.number as nat,
    )
}

/// `changes` are the changes of `out`, one for one, with their names.
pub open spec fn names_plan(
    layers: Seq<ClipLayer>,
    root: int,
    base: Seq<char>,
    out: Seq<Rename>,
    changes: Seq<LayerChange>,
) -> bool {
    &&& changes.len() == out.len()
    &&& forall|i: int|
        0 <= i < out.len() ==> {
            &&& (#[trigger] changes[i]).main_id == out[i].main_id
            &&& changes[i].name@ == name_of_change(layers, root, base, out[i])
        }
}

/// Builds the new name of one planned change.
pub fn change_name(v: &Vec<ClipLayer>, root: usize, base: &str, r: &Rename) -> (name: String)
    requires
        r.folder < v@.len(),
    ensures
        name@ == name_of_change(v@, root as int, base@, *r),
{
    if r.folder == root {
        make_name(base, r.number)
    } else {
        make_name(v[r.folder].layer_name.as_str(), r.number)
    }
}

/// Gives each planned change its new name.
pub fn name_changes(v: &Vec<ClipLayer>, root: usize, base: &str, out: &Vec<Rename>) -> (changes:
    Vec<LayerChange>)
    requires
        forall|i: int| 0 <= i < out@.len() ==> (#[trigger] out@[i]).folder < v@.len(),
    ensures
        names_plan(v@, root as int, base@, out@, changes@),
{
    let mut changes: Vec<LayerChange> = Vec::new();
    let mut i: usize = 0;
    while i < out.len()
        invariant
            i <= out@.len(),
            forall|k: int| 0 <= k < out@.len() ==> (#[trigger] out@[k]).folder < v@.len(),
            names_plan(v@, root as int, base@, out@.take(i as int), changes@),
        decreases out@.len() - i,
    {
        let r: Rename = out[i];
        let name: String = change_name(v, root, base, &r);
        changes.push(LayerChange { main_id: r.main_id, name });
        i += 1;
    }
    assert(out@.take(out@.len() as int) =~= out@);
    changes
}

/// `b` is an answer that the predicate gave when asked about `name`.
pub open spec fn answered<F: Fn(&str) -> bool>(need_rename: F, name: Seq<char>, b: bool) -> bool {
    exists|s: &str| s@ == name && call_ensures(need_rename, (s,), b)
}

/// `verdicts` holds, for each record, an answer that the predicate gave
/// when asked about the record's name.
pub open spec fn answers<F: Fn(&str) -> bool>(
    need_rename: F,
    layers: Seq<ClipLayer>,
    verdicts: Seq<bool>,
) -> bool {
    &&& verdicts.len() == layers.len()
    &&& forall|i: int|
        0 <= i < layers.len() ==> answered(
            need_rename,
            (#[trigger] layers[i]).layer_name@,
            verdicts[i],
        )
}

/// Asks the predicate about the name of every record.
pub fn collect_verdicts<F: Fn(&str) -> bool>(v: &Vec<ClipLayer>, need_rename: F) -> (verdicts: Vec<
    bool,
>)
    requires
        forall|s: &str| call_requires(need_rename, (s,)),
    ensures
        answers(need_rename, v@, verdicts@),
{
    let mut verdicts: Vec<bool> = Vec::new();
    let mut i: usize = 0;
    while i < v.len()
        invariant
            i <= v@.len(),
            forall|s: &str| call_requires(need_rename, (s,)),
            answers(need_rename, v@.take(i as int), verdicts@),
        decreases v@.len() - i,
    {
        let name: &str = v[i].layer_name.as_str();
        let b: bool = need_rename(name);
        let ghost before = verdicts@;
        verdicts.push(b);
        proof {
            let layers = v@.take(i + 1);
            assert(answered(need_rename, v@[i as int].layer_name@, b)) by {
                assert(name@ == v@[i as int].layer_name@ && call_ensures(need_rename, (name,), b));
            }
            assert forall|k: int| 0 <= k < layers.len() implies answered(
                need_rename,
                (#[trigger] layers[k]).layer_name@,
                verdicts@[k],
            ) by {
                if k < i {
                    assert(v@.take(i as int)[k] == layers[k]);
                    assert(verdicts@[k] == before[k]);
                }
            }
        }
        i += 1;
    }
    assert(v@.take(v@.len() as int) =~= v@);
    verdicts
}

/// The names of the records once the changes of `out` are made.
pub open spec fn names_after(
    layers: Seq<ClipLayer>,
    root: int,
    base: Seq<char>,
    out: Seq<Rename>,
) -> Seq<Seq<char>>
    decreases out.len(),
{
    if out.len() == 0 {
        Seq::new(layers.len(), |i: int| layers[i].layer_name@)
    } else {
        names_after(layers, root, base, out.drop_last()).update(
            out.last().index as int,
            name_of_change(layers, root, base, out.last()),
        )
    }
}

/// After the first `k` changes of a plan that renames no record twice,
/// each record renamed bears its new name and every other its old one.
pub proof fn lemma_names_after_at(
    layers: Seq<ClipLayer>,
    root: int,
    base: Seq<char>,
    out: Seq<Rename>,
    k: int,
)
    requires
        0 <= k <= out.len(),
        distinct_targets(out),
        forall|i: int| 0 <= i < out.len() ==> (#[trigger] out[i]).index < layers.len(),
    ensures
        names_after(layers, root, base, out.take(k)).len() == layers.len(),
        forall|i: int|
            0 <= i < k ==> names_after(layers, root, base, out.take(k))[(
            #[trigger] out[i]).index as int] == name_of_change(layers, root, base, out[i]),
        forall|x: int|
            0 <= x < layers.len() && (forall|i: int| 0 <= i < k ==> (#[trigger] out[i]).index != x)
                ==> #[trigger] names_after(layers, root, base, out.take(k))[x]
                == layers[x].layer_name@,
    decreases k,
{
    if k > 0 {
        lemma_names_after_at(layers, root, base, out, k - 1);
        assert(out.take(k).drop_last() =~= out.take(k - 1));
        assert(out.take(k).last() == out[k - 1]);
        let before = names_after(layers, root, base, out.take(k - 1));
        let after = names_after(layers, root, base, out.take(k));
        assert(after == before.update(
            out[k - 1].index as int,
            name_of_change(layers, root, base, out[k - 1]),
        ));
        assert forall|i: int| 0 <= i < k implies after[(#[trigger] out[i]).index as int]
            == name_of_change(layers, root, base, out[i]) by {
            if i < k - 1 {
                assert(out[i].index != out[k - 1].index);
            }
        }
        assert forall|x: int|
            0 <= x < layers.len() && (forall|i: int|
                0 <= i < k ==> (#[trigger] out[i]).index != x) implies #[trigger] after[x]
            == layers[x].layer_name@ by {
            assert(out[k - 1].index != x);
            assert(forall|i: int| 0 <= i < k - 1 ==> (#[trigger] out[i]).index != x);
            assert(before[x] == layers[x].layer_name@);
        }
    }
}

/// Changes that write the names already borne change nothing.
proof fn lemma_names_kept(
    layers: Seq<ClipLayer>,
    root: int,
    base: Seq<char>,
    out: Seq<Rename>,
    k: int,
)
    requires
        0 <= k <= out.len(),
        forall|i: int|
            0 <= i < out.len() ==> (#[trigger] out[i]).index < layers.len() && layers[out[i].index as int].layer_name@
                == name_of_change(layers, root, base, out[i]),
    ensures
        names_after(layers, root, base, out.take(k)) =~= Seq::new(
            layers.len(),
            |i: int| layers[i].layer_name@,
        ),
    decreases k,
{
    if k > 0 {
        lemma_names_kept(layers, root, base, out, k - 1);
        assert(out.take(k).drop_last() =~= out.take(k - 1));
        assert(out.take(k).last() == out[k - 1]);
    }
}

/// A second run changes nothing. Let `out` be the plan for the records
/// `a`, and let the records `b` be those of `a` with the names that the
/// plan gives. Where the predicate gives the same verdicts on `b`, as
/// one that accepts the new names does, the plan for `b` is `out` again
/// and it writes the names that `b` already bears.
pub proof fn lemma_second_run_changes_nothing(
    a: Seq<ClipLayer>,
    b: Seq<ClipLayer>,
    root: int,
    base: Seq<char>,
    verdicts: Seq<bool>,
    out: Seq<Rename>,
)
    requires
        0 <= root < a.len() <= usize::MAX,
        plan(a, root, base.len() != 0, verdicts) == Some(out),
        same_shape(a, b),
        forall|x: int|
            0 <= x < a.len() ==> (#[trigger] b[x]).layer_name@ == names_after(a, root, base, out)[x],
    ensures
        plan(b, root, base.len() != 0, verdicts) == Some(out),
        names_after(b, root, base, out) == names_after(a, root, base, out),
        forall|x: int|
            0 <= x < b.len() ==> names_after(b, root, base, out)[x] == (#[trigger] b[x]).layer_name@,
{
    let rename_root = base.len() != 0;
    lemma_plan_ignores_names(a, b, root, rename_root, verdicts);
    lemma_plan_sound(a, root, rename_root, verdicts);
    lemma_plan_distinct(a, root, rename_root, verdicts);
    assert forall|i: int| 0 <= i < out.len() implies (#[trigger] out[i]).index < a.len() by {
        assert(sound_change(a, root, rename_root, verdicts, out[i]));
    }
    lemma_names_after_at(a, root, base, out, out.len() as int);
    assert(out.take(out.len() as int) =~= out);
    assert forall|i: int| 0 <= i < out.len() implies (#[trigger] out[i]).index < b.len()
        && b[out[i].index as int].layer_name@ == name_of_change(b, root, base, out[i]) by {
        let r = out[i];
        assert(sound_change(a, root, rename_root, verdicts, r));
        let g = r.folder as int;
        assert forall|j: int| 0 <= j < out.len() implies (#[trigger] out[j]).index != g by {
            assert(sound_change(a, root, rename_root, verdicts, out[j]));
        }
        assert(names_after(a, root, base, out)[g] == a[g].layer_name@);
        assert(b[g].layer_name@ == a[g].layer_name@);
        assert(name_of_change(b, root, base, r) == name_of_change(a, root, base, r));
        assert(b[r.index as int].layer_name@ == names_after(a, root, base, out)[r.index as int]);
    }
    lemma_names_kept(b, root, base, out, out.len() as int);
    assert(names_after(b, root, base, out) =~= names_after(a, root, base, out));
}

/// `root` is the place at which the identifier of a record marked as
/// the root folder is found.
pub open spec fn root_place(layers: Seq<ClipLayer>, root: int) -> bool {
    exists|i: int|
        0 <= i < layers.len() && is_root_folder(#[trigger] layers[i]) && lookup(
            layers,
            layers[i].main_id,
        ) == Some(root)
}

/// A walk of `layers` starts at `root` and goes by `verdicts`.
pub open spec fn walk_of<F: Fn(&str) -> bool>(
    need_rename: F,
    layers: Seq<ClipLayer>,
    root: int,
    verdicts: Seq<bool>,
) -> bool {
    root_place(layers, root) && answers(need_rename, layers, verdicts)
}

/// Plans the renaming of the layers of a store from its records: puts
/// the records in order, finds the root folder, asks the predicate about
/// every name, walks the folders and names the changes, which the caller
/// then writes to the store in this order. Records without exactly one
/// root folder, or with broken links, are refused.
pub fn rename_layers_in_sqlite<F: Fn(&str) -> bool>(
    v: &mut Vec<ClipLayer>,
    root_layer_base_name: &str,
    need_rename: F,
) -> (r: Result<Vec<LayerChange>, ClipError>)
    requires
        forall|s: &str| call_requires(need_rename, (s,)),
    ensures
        final(v)@.len() == old(v)@.len(),
        final(v)@.to_multiset() == old(v)@.to_multiset(),
        sorted_by_id(final(v)@),
        match r {
            Ok(changes) => count_roots(old(v)@) == 1 && exists|root: int, verdicts: Seq<bool>|
                {
                    &&& #[trigger] walk_of(need_rename, final(v)@, root, verdicts)
                    &&& match plan(
                        final(v)@,
                        root,
                        root_layer_base_name@.len() != 0,
                        verdicts,
                    ) {
                        Some(out) => names_plan(
                            final(v)@,
                            root,
                            root_layer_base_name@,
                            out,
                            changes@,
                        ),
                        None => false,
                    }
                },
            Err(e) => e == ClipError::UnknownFileStruct && (count_roots(old(v)@) != 1
                || exists|root: int, verdicts: Seq<bool>|
                {
                    &&& #[trigger] walk_of(need_rename, final(v)@, root, verdicts)
                    &&& plan(final(v)@, root, root_layer_base_name@.len() != 0, verdicts) is None
                }),
        },
{
    let root_main_id: u64 = match get_layers(v) {
        Ok(id) => id,
        Err(e) => {
            return Err(e);
        },
    };
    let n: usize = v.len();
    proof {
        let i = choose|i: int|
            0 <= i < v@.len() && is_root_folder(#[trigger] v@[i]) && v@[i].main_id == root_main_id;
        lemma_lookup_some(v@, root_main_id, i);
    }
    let root: usize = match find_layer_index(v, root_main_id) {
        Some(i) => i,
        None => {
            return Err(ClipError::UnknownFileStruct);
        },
    };
    assert(root_place(v@, root as int));
    let verdicts: Vec<bool> = collect_verdicts(v, need_rename);
    assert(walk_of(need_rename, v@, root as int, verdicts@));
    match rename_layers_in_folder(v, root, root_layer_base_name, &verdicts) {
        Ok(out) => {
            proof {
                let rename_root = root_layer_base_name@.len() != 0;
                let planned = plan(v@, root as int, rename_root, verdicts@);
                lemma_plan_sound(v@, root as int, rename_root, verdicts@);
                assert(planned == Some(out@));
                assert forall|i: int| 0 <= i < out@.len() implies (#[trigger] out@[i]).folder
                    < v@.len() by {
                    assert(sound_change(v@, root as int, rename_root, verdicts@, planned->Some_0[i]));
                }
            }
            Ok(name_changes(v, root, root_layer_base_name, &out))
        },
        Err(e) => Err(e),
    }
}

} // verus!
