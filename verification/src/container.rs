use vstd::prelude::*;
use crate::bytes::{be_bytes, be_u64, lemma_be_bytes_of_value, lemma_be_round_trip, push_be_u64};
use crate::error::ClipError;
use crate::scan::{find_sqlite, first_match, matches_at};

verus! {

/// The chunk that closes a container: its signature and eight zero bytes.
pub open spec fn foot_chunk() -> Seq<u8> {
    seq![
        0x43u8, 0x48u8, 0x4Eu8, 0x4Bu8, 0x46u8, 0x6Fu8, 0x6Fu8, 0x74u8,
        0u8, 0u8, 0u8, 0u8, 0u8, 0u8, 0u8, 0u8,
    ]
}

/// The container that holds `sql` as its store, `index` being the offset
/// of the store in `src`: the bytes of `src` before the length field, the
/// length of `sql`, `sql` itself and the closing chunk.
pub open spec fn assembled(src: Seq<u8>, sql: Seq<u8>, index: int) -> Seq<u8> {
    src.subrange(0, index - 8) + be_bytes(sql.len() as u64) + sql + foot_chunk()
}

/// `src` is a container whose store of `size` bytes begins at `index` and
/// is followed by the closing chunk alone.
pub open spec fn closed_container(src: Seq<u8>, size: u64, index: int) -> bool {
    &&& 8 <= index
    &&& index + size + 16 == src.len()
    &&& be_u64(src.subrange(index - 8, index)) == size
    &&& src.subrange(index + size, src.len() as int) =~= foot_chunk()
}

fn foot_byte(i: usize) -> (b: u8)
    requires
        i < 16,
    ensures
        b == foot_chunk()[i as int],
{
    if i == 0 {
        0x43
    } else if i == 1 {
        0x48
    } else if i == 2 {
        0x4E
    } else if i == 3 {
        0x4B
    } else if i == 4 {
        0x46
    } else if i == 5 || i == 6 {
        0x6F
    } else if i == 7 {
        0x74
    } else {
        0
    }
}

/// Appends `data[from..to]` to `out`.
fn push_range(out: &mut Vec<u8>, data: &[u8], from: usize, to: usize)
    requires
        from <= to <= data@.len(),
    ensures
        final(out)@ == old(out)@ + data@.subrange(from as int, to as int),
{
    let mut i: usize = from;
    while i < to
        invariant
            from <= i <= to,
            to <= data@.len(),
            out@ =~= old(out)@ + data@.subrange(from as int, i as int),
        decreases to - i,
    {
        out.push(data[i]);
        i += 1;
    }
}

/// Cuts the store out of a container: the `size` bytes from `index` on.
/// A container too short to hold them is refused.
pub fn save_sql_only(clip: &[u8], size: u64, index: usize) -> (r: Result<Vec<u8>, ClipError>)
    ensures
        match r {
            Ok(sql) => index + size <= clip@.len() && sql@ == clip@.subrange(
                index as int,
                index + size,
            ),
            Err(e) => index + size > clip@.len() && e == ClipError::FileReadError,
        },
{
    let n: usize = clip.len();
    if index > n || size > (n - index) as u64 {
        return Err(ClipError::FileReadError);
    }
    let mut sql: Vec<u8> = Vec::new();
    push_range(&mut sql, clip, index, index + size as usize);
    Ok(sql)
}

/// The length that the field right before offset `index` declares.
pub open spec fn declared_size(s: Seq<u8>, index: int) -> u64 {
    be_u64(s.subrange(index - 8, index))
}

/// The store of `s` begins at `index` and lies within `s` whole.
pub open spec fn store_at(s: Seq<u8>, index: int) -> bool {
    &&& first_match(s, index - 16)
    &&& index + declared_size(s, index) <= s.len()
}

/// The store of `s` begins at `index` and `s` ends before the store does.
pub open spec fn store_cut_short(s: Seq<u8>, index: int) -> bool {
    &&& first_match(s, index - 16)
    &&& index + declared_size(s, index) > s.len()
}

/// Finds the store in a container and cuts it out. The answer holds the
/// store and its offset. A container without the pattern is told apart
/// from one whose store is cut short.
pub fn extract_store(clip: &[u8]) -> (r: Result<(Vec<u8>, usize), ClipError>)
    ensures
        match r {
            Ok((sql, index)) => store_at(clip@, index as int) && sql@ == clip@.subrange(
                index as int,
                index + declared_size(clip@, index as int),
            ),
            Err(e) => {
                ||| e == ClipError::NotClipFile && forall|q: int| !matches_at(clip@, q)
                ||| e == ClipError::FileReadError && exists|index: int| store_cut_short(clip@, index)
            },
        },
{
    match find_sqlite(clip) {
        None => Err(ClipError::NotClipFile),
        Some((size, index)) => {
            match save_sql_only(clip, size, index) {
                Ok(sql) => Ok((sql, index)),
                Err(e) => {
                    assert(store_cut_short(clip@, index as int));
                    Err(e)
                },
            }
        },
    }
}

/// One stretch of a container that is put together.
#[derive(Debug, Clone, PartialEq, Eq)]
pub enum Part {
    /// The bytes of the source from its start up to this length.
    SourcePrefix(usize),
    /// These bytes.
    Bytes(Vec<u8>),
    /// The whole new store.
    Store,
}

/// The bytes that a part stands for.
pub open spec fn part_bytes(p: Part, src: Seq<u8>, sql: Seq<u8>) -> Seq<u8> {
    match p {
        Part::SourcePrefix(n) => src.subrange(0, n as int),
        Part::Bytes(b) => b@,
        Part::Store => sql,
    }
}

/// The bytes that parts stand for, one after the other.
pub open spec fn rendered(parts: Seq<Part>, src: Seq<u8>, sql: Seq<u8>) -> Seq<u8>
    decreases parts.len(),
{
    if parts.len() == 0 {
        Seq::empty()
    } else {
        rendered(parts.drop_last(), src, sql) + part_bytes(parts.last(), src, sql)
    }
}

/// `parts` lay a container out: the source up to the length field, the
/// length of the new store, the store, the closing chunk.
pub open spec fn is_layout(parts: Seq<Part>, index: int, store_len: u64) -> bool {
    &&& parts.len() == 4
    &&& parts[0] == Part::SourcePrefix((index - 8) as usize)
    &&& parts[1] matches Part::Bytes(b) && b@ == be_bytes(store_len)
    &&& parts[2] == Part::Store
    &&& parts[3] matches Part::Bytes(b) && b@ == foot_chunk()
}

/// Lays out the container that holds a new store of `store_len` bytes
/// at offset `index`, for a caller that copies the parts from files.
/// An offset that leaves no room for the length field is refused.
pub fn layout(index: usize, store_len: u64) -> (r: Result<Vec<Part>, ClipError>)
    ensures
        match r {
            Ok(parts) => index >= 8 && is_layout(parts@, index as int, store_len),
            Err(e) => index < 8 && e == ClipError::FileReadError,
        },
{
    if index < 8 {
        return Err(ClipError::FileReadError);
    }
    let mut length: Vec<u8> = Vec::new();
    push_be_u64(&mut length, store_len);
    let mut foot: Vec<u8> = Vec::new();
    let mut i: usize = 0;
    while i < 16
        invariant
            i <= 16,
            foot@ =~= foot_chunk().subrange(0, i as int),
        decreases 16 - i,
    {
        foot.push(foot_byte(i));
        i += 1;
    }
    assert(foot_chunk().subrange(0, 16) =~= foot_chunk());
    let mut parts: Vec<Part> = Vec::new();
    parts.push(Part::SourcePrefix(index - 8));
    parts.push(Part::Bytes(length));
    parts.push(Part::Store);
    parts.push(Part::Bytes(foot));
    Ok(parts)
}

/// The parts of a layout, copied one after the other, give the
/// container put together.
pub proof fn lemma_layout_renders(parts: Seq<Part>, src: Seq<u8>, sql: Seq<u8>, index: int)
    requires
        8 <= index <= src.len() + 8,
        index <= usize::MAX,
        sql.len() <= u64::MAX,
        is_layout(parts, index, sql.len() as u64),
    ensures
        rendered(parts, src, sql) == assembled(src, sql, index),
{
    let p3 = parts.drop_last();
    let p2 = p3.drop_last();
    let p1 = p2.drop_last();
    let head = src.subrange(0, index - 8);
    let field = be_bytes(sql.len() as u64);
    assert(p1.drop_last().len() == 0);
    assert(p1.last() == parts[0]);
    assert(p2.last() == parts[1]);
    assert(p3.last() == parts[2]);
    assert(rendered(p1.drop_last(), src, sql) =~= Seq::<u8>::empty());
    assert(rendered(p1, src, sql) =~= head);
    assert(rendered(p2, src, sql) =~= head + field);
    assert(rendered(p3, src, sql) =~= head + field + sql);
    assert(rendered(parts, src, sql) =~= head + field + sql + foot_chunk());
}

/// Every part lies within the source.
pub open spec fn parts_fit(parts: Seq<Part>, src: Seq<u8>) -> bool {
    forall|i: int|
        0 <= i < parts.len() ==> match #[trigger] parts[i] {
            Part::SourcePrefix(n) => n <= src.len(),
            _ => true,
        }
}

/// Copies the parts one after the other, in memory.
pub fn render(parts: &Vec<Part>, src: &[u8], sql: &[u8]) -> (out: Vec<u8>)
    requires
        parts_fit(parts@, src@),
    ensures
        out@ == rendered(parts@, src@, sql@),
{
    let mut out: Vec<u8> = Vec::new();
    let mut i: usize = 0;
    while i < parts.len()
        invariant
            i <= parts@.len(),
            parts_fit(parts@, src@),
            out@ == rendered(parts@.take(i as int), src@, sql@),
        decreases parts@.len() - i,
    {
        proof {
            assert(parts@.take(i + 1).drop_last() =~= parts@.take(i as int));
            assert(parts@.take(i + 1).last() == parts@[i as int]);
        }
        match &parts[i] {
            Part::SourcePrefix(n) => {
                push_range(&mut out, src, 0, *n);
            },
            Part::Bytes(b) => {
                push_range(&mut out, b.as_slice(), 0, b.len());
                assert(b@.subrange(0, b@.len() as int) =~= b@);
            },
            Part::Store => {
                push_range(&mut out, sql, 0, sql.len());
                assert(sql@.subrange(0, sql@.len() as int) =~= sql@);
            },
        }
        i += 1;
    }
    assert(parts@.take(parts@.len() as int) =~= parts@);
    out
}

/// Puts a container together from a source container and a new store.
/// `index` is the offset of the store in the source; a source that
/// ends before its length field is refused.
pub fn concat_sql(srcclip: &[u8], srcsql: &[u8], index: usize) -> (r: Result<Vec<u8>, ClipError>)
    ensures
        match r {
            Ok(out) => 8 <= index <= srcclip@.len() + 8 && out@ == assembled(
                srcclip@,
                srcsql@,
                index as int,
            ),
            Err(e) => !(8 <= index <= srcclip@.len() + 8) && e == ClipError::FileReadError,
        },
{
    let n: usize = srcclip.len();
    let m: usize = srcsql.len();
    if index < 8 || index - 8 > n {
        return Err(ClipError::FileReadError);
    }
    match layout(index, m as u64) {
        Ok(parts) => {
            proof {
                lemma_layout_renders(parts@, srcclip@, srcsql@, index as int);
            }
            Ok(render(&parts, srcclip, srcsql))
        },
        Err(e) => Err(e),
    }
}

/// In every container put together, the length field right before the
/// store spells the exact length of the store, the store stands behind
/// it unchanged, and the closing chunk ends the container.
pub proof fn lemma_length_field(src: Seq<u8>, sql: Seq<u8>, index: int)
    requires
        8 <= index <= src.len() + 8,
        sql.len() <= u64::MAX,
    ensures
        assembled(src, sql, index).len() == index + sql.len() + 16,
        be_u64(assembled(src, sql, index).subrange(index - 8, index)) == sql.len(),
        assembled(src, sql, index).subrange(index, index + sql.len()) == sql,
        assembled(src, sql, index).subrange(index + sql.len(), index + sql.len() + 16)
            == foot_chunk(),
{
    let out = assembled(src, sql, index);
    lemma_be_round_trip(sql.len() as u64);
    assert(out.subrange(index - 8, index) =~= be_bytes(sql.len() as u64));
    assert(out.subrange(index, index + sql.len()) =~= sql);
    assert(out.subrange(index + sql.len(), index + sql.len() + 16) =~= foot_chunk());
}

/// The bytes of the source before the length field stand unchanged
/// in the container put together, whatever the new store holds.
pub proof fn lemma_prefix_kept(src: Seq<u8>, sql: Seq<u8>, index: int)
    requires
        8 <= index <= src.len() + 8,
    ensures
        assembled(src, sql, index).subrange(0, index - 8) == src.subrange(0, index - 8),
{
    assert(assembled(src, sql, index).subrange(0, index - 8) =~= src.subrange(0, index - 8));
}

/// A container whose store is cut out and put back unchanged is the
/// same container, byte for byte.
pub proof fn lemma_round_trip(src: Seq<u8>, size: u64, index: int)
    requires
        closed_container(src, size, index),
    ensures
        assembled(src, src.subrange(index, index + size), index) == src,
{
    let sql = src.subrange(index, index + size);
    lemma_be_bytes_of_value(src.subrange(index - 8, index));
    assert(assembled(src, sql, index) =~= src);
}

/// In a container whose store is followed by the closing chunk alone,
/// every byte outside the store and its length field is kept when
/// another store is put in.
pub proof fn lemma_outside_kept(src: Seq<u8>, size: u64, index: int, sql: Seq<u8>)
    requires
        closed_container(src, size, index),
    ensures
        assembled(src, sql, index).subrange(0, index - 8) == src.subrange(0, index - 8),
        assembled(src, sql, index).subrange(
            index + sql.len(),
            assembled(src, sql, index).len() as int,
        ) == src.subrange(index + size, src.len() as int),
{
    let out = assembled(src, sql, index);
    assert(out.subrange(0, index - 8) =~= src.subrange(0, index - 8));
    assert(out.subrange(index + sql.len(), out.len() as int) =~= foot_chunk());
}

} // verus!
