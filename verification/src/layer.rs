use vstd::prelude::*;
use crate::error::ClipError;

verus! {

/// One record of the layer table.
#[derive(Debug, Clone)]
pub struct ClipLayer {
    /// Handle of the row in the store.
    pub pw_id: u64,
    /// Identifier by which records name one another.
    pub main_id: u64,
    /// Name shown for the layer.
    pub layer_name: String,
    /// Kind of the layer.
    pub layer_type: u64,
    /// Nonzero where the layer is a folder.
    pub layer_folder: u64,
    /// Identifier of the next layer of the same folder, or zero.
    pub layer_next_index: u64,
    /// Identifier of the first layer inside a folder, or zero.
    pub layer_first_child_index: u64,
}

/// Kind of the one folder that holds all other layers.
pub const ROOT_LAYER_TYPE: u64 = 256;

/// Folder flag of the one folder that holds all other layers.
pub const ROOT_FOLDER_FLAG: u64 = 1;

/// The record is marked as the folder that holds all other layers.
pub open spec fn is_root_folder(l: ClipLayer) -> bool {
    l.layer_type == 256 && l.layer_folder == 1
}

/// Number of records marked as the folder that holds all others.
pub open spec fn count_roots(s: Seq<ClipLayer>) -> nat
    decreases s.len(),
{
    if s.len() == 0 {
        0
    } else {
        count_roots(s.drop_last()) + if is_root_folder(s.last()) {
            1nat
        } else {
            0nat
        }
    }
}

/// The records stand in the order of their identifiers.
pub open spec fn sorted_by_id(s: Seq<ClipLayer>) -> bool {
    forall|i: int, j: int| 0 <= i < j < s.len() ==> s[i].main_id <= s[j].main_id
}

/// `i` is the first place of `s` that holds identifier `id`.
pub open spec fn first_with_id(s: Seq<ClipLayer>, id: u64, i: int) -> bool {
    &&& 0 <= i < s.len()
    &&& s[i].main_id == id
    &&& forall|j: int| 0 <= j < i ==> s[j].main_id != id
}

/// The first place of `s` that holds identifier `id`, if any does.
pub open spec fn lookup(s: Seq<ClipLayer>, id: u64) -> Option<int> {
    if exists|i: int| first_with_id(s, id, i) {
        Some(choose|i: int| first_with_id(s, id, i))
    } else {
        None
    }
}

/// There is one first place at most.
pub proof fn lemma_lookup_is(s: Seq<ClipLayer>, id: u64, i: int)
    requires
        first_with_id(s, id, i),
    ensures
        lookup(s, id) == Some(i),
{
    let c = choose|c: int| first_with_id(s, id, c);
    assert(first_with_id(s, id, c));
    if c < i {
        assert(s[c].main_id != id);
    }
    if i < c {
        assert(s[i].main_id != id);
    }
}

/// An identifier that some place holds is found.
pub proof fn lemma_lookup_some(s: Seq<ClipLayer>, id: u64, j: int)
    requires
        0 <= j < s.len(),
        s[j].main_id == id,
    ensures
        lookup(s, id) is Some,
    decreases j,
{
    if exists|k: int| 0 <= k < j && s[k].main_id == id {
        let k = choose|k: int| 0 <= k < j && s[k].main_id == id;
        lemma_lookup_some(s, id, k);
    } else {
        lemma_lookup_is(s, id, j);
    }
}

/// Without a place that holds the identifier there is nothing to find.
pub proof fn lemma_lookup_none(s: Seq<ClipLayer>, id: u64)
    requires
        forall|j: int| 0 <= j < s.len() ==> s[j].main_id != id,
    ensures
        lookup(s, id) is None,
{
}

/// Finds the record with identifier `main_id` by halving the sorted
/// records; the answer is its place.
pub fn find_layer_index(v: &Vec<ClipLayer>, main_id: u64) -> (r: Option<usize>)
    requires
        sorted_by_id(v@),
    ensures
        match r {
            Some(i) => lookup(v@, main_id) == Some(i as int),
            None => lookup(v@, main_id) is None,
        },
{
    let n: usize = v.len();
    let mut lo: usize = 0;
    let mut hi: usize = n;
    while lo < hi
        invariant
            lo <= hi <= n,
            n == v@.len(),
            sorted_by_id(v@),
            forall|j: int| 0 <= j < lo ==> v@[j].main_id < main_id,
            forall|j: int| hi <= j < n ==> v@[j].main_id >= main_id,
        decreases hi - lo,
    {
        let mid: usize = lo + (hi - lo) / 2;
        if v[mid].main_id < main_id {
            lo = mid + 1;
        } else {
            hi = mid;
        }
    }
    if lo < n && v[lo].main_id == main_id {
        proof {
            lemma_lookup_is(v@, main_id, lo as int);
        }
        Some(lo)
    } else {
        proof {
            assert forall|j: int| 0 <= j < n implies v@[j].main_id != main_id by {
                if j > lo {
                    assert(v@[lo as int].main_id <= v@[j].main_id);
                }
            }
            lemma_lookup_none(v@, main_id);
        }
        None
    }
}

/// Puts the records in the order of their identifiers.
///
/// Calls `sort_by_key` of the standard library's slices with the
/// identifier as the key. Trusted of it: the records that come out are
/// those that went in, each as often as before, and their identifiers
/// never fall from one place to the next.
#[verifier::external_body]
fn sort_by_main_id(v: &mut Vec<ClipLayer>)
    ensures
        final(v)@.len() == old(v)@.len(),
        final(v)@.to_multiset() == old(v)@.to_multiset(),
        sorted_by_id(final(v)@),
{
    v.sort_by_key(|l| l.main_id);
}

/// Sorts the records by identifier and finds the one folder that holds
/// all others. The answer is its identifier; records with no such folder,
/// or with several, are refused.
pub fn get_layers(v: &mut Vec<ClipLayer>) -> (r: Result<u64, ClipError>)
    ensures
        final(v)@.len() == old(v)@.len(),
        final(v)@.to_multiset() == old(v)@.to_multiset(),
        sorted_by_id(final(v)@),
        match r {
            Ok(id) => {
                &&& count_roots(old(v)@) == 1
                &&& exists|i: int|
                    {
                        &&& 0 <= i < final(v)@.len()
                        &&& is_root_folder(#[trigger] final(v)@[i])
                        &&& final(v)@[i].main_id == id
                    }
            },
            Err(e) => count_roots(old(v)@) != 1 && e == ClipError::UnknownFileStruct,
        },
{
    let n: usize = v.len();
    let mut roots: usize = 0;
    let mut root_main_id: u64 = 0;
    let ghost mut at: int = 0;
    let mut i: usize = 0;
    while i < n
        invariant
            i <= n,
            n == v@.len(),
            v@ == old(v)@,
            roots == count_roots(v@.subrange(0, i as int)),
            roots <= i,
            roots > 0 ==> 0 <= at < i && is_root_folder(v@[at]) && v@[at].main_id == root_main_id,
        decreases n - i,
    {
        proof {
            assert(v@.subrange(0, i + 1).drop_last() =~= v@.subrange(0, i as int));
        }
        if v[i].layer_type == ROOT_LAYER_TYPE && v[i].layer_folder == ROOT_FOLDER_FLAG {
            roots += 1;
            root_main_id = v[i].main_id;
            proof {
                at = i as int;
            }
        }
        i += 1;
    }
    proof {
        assert(v@.subrange(0, n as int) =~= v@);
    }
    sort_by_main_id(v);
    if roots == 1 {
        proof {
            let root_layer = old(v)@[at];
            old(v)@.to_multiset_ensures();
            v@.to_multiset_ensures();
            assert(old(v)@.contains(root_layer));
            assert(old(v)@.to_multiset().count(root_layer) > 0);
            assert(v@.to_multiset().count(root_layer) > 0);
            assert(v@.contains(root_layer));
            let j = choose|j: int| 0 <= j < v@.len() && v@[j] == root_layer;
            assert(is_root_folder(v@[j]));
        }
        Ok(root_main_id)
    } else {
        Err(ClipError::UnknownFileStruct)
    }
}

} // verus!
