use vstd::prelude::*;
use crate::bytes::{be_u64, read_be_u64};

verus! {

/// The eight bytes that open the chunk of the embedded store.
pub open spec fn chunk_signature() -> Seq<u8> {
    seq![0x43u8, 0x48u8, 0x4Eu8, 0x4Bu8, 0x53u8, 0x51u8, 0x4Cu8, 0x69u8]
}

/// The sixteen bytes with which every store begins.
pub open spec fn store_header() -> Seq<u8> {
    seq![
        0x53u8, 0x51u8, 0x4Cu8, 0x69u8, 0x74u8, 0x65u8, 0x20u8, 0x66u8,
        0x6Fu8, 0x72u8, 0x6Du8, 0x61u8, 0x74u8, 0x20u8, 0x33u8, 0x00u8,
    ]
}

/// The pattern stands at offset `p` of `s`: signature, eight bytes of
/// length, then the store's header.
pub open spec fn matches_at(s: Seq<u8>, p: int) -> bool {
    &&& 0 <= p
    &&& p + 32 <= s.len()
    &&& s.subrange(p, p + 8) =~= chunk_signature()
    &&& s.subrange(p + 16, p + 32) =~= store_header()
}

/// `p` is the first offset of `s` at which the pattern stands.
pub open spec fn first_match(s: Seq<u8>, p: int) -> bool {
    &&& matches_at(s, p)
    &&& forall|q: int| 0 <= q < p ==> !matches_at(s, q)
}

/// What a search of `s` has to report: the declared length and the offset
/// of the store behind the first pattern, or nothing where no pattern is.
pub open spec fn located(s: Seq<u8>, r: Option<(u64, usize)>) -> bool {
    match r {
        Some((size, index)) => {
            &&& first_match(s, index - 16)
            &&& size == be_u64(s.subrange(index - 8, index as int))
        },
        None => forall|q: int| !matches_at(s, q),
    }
}

/// A search has one right answer: two that fit the same bytes are equal.
/// So a search block by block and a search of the whole agree.
pub proof fn lemma_located_unique(s: Seq<u8>, a: Option<(u64, usize)>, b: Option<(u64, usize)>)
    requires
        located(s, a),
        located(s, b),
    ensures
        a == b,
{
    match (a, b) {
        (Some((_, i)), Some((_, j))) => {
            if i < j {
                assert(!matches_at(s, i - 16));
            }
            if j < i {
                assert(!matches_at(s, j - 16));
            }
        },
        (Some((_, i)), None) => {
            assert(!matches_at(s, i - 16));
        },
        (None, Some((_, j))) => {
            assert(!matches_at(s, j - 16));
        },
        (None, None) => {},
    }
}

fn signature_byte(i: usize) -> (b: u8)
    requires
        i < 8,
    ensures
        b == chunk_signature()[i as int],
{
    if i == 0 {
        0x43
    } else if i == 1 {
        0x48
    } else if i == 2 {
        0x4E
    } else if i == 3 {
        0x4B
    } else if i == 4 {
        0x53
    } else if i == 5 {
        0x51
    } else if i == 6 {
        0x4C
    } else {
        0x69
    }
}

fn header_byte(i: usize) -> (b: u8)
    requires
        i < 16,
    ensures
        b == store_header()[i as int],
{
    if i == 0 {
        0x53
    } else if i == 1 {
        0x51
    } else if i == 2 {
        0x4C
    } else if i == 3 {
        0x69
    } else if i == 4 {
        0x74
    } else if i == 5 {
        0x65
    } else if i == 6 {
        0x20
    } else if i == 7 {
        0x66
    } else if i == 8 {
        0x6F
    } else if i == 9 {
        0x72
    } else if i == 10 {
        0x6D
    } else if i == 11 {
        0x61
    } else if i == 12 {
        0x74
    } else if i == 13 {
        0x20
    } else if i == 14 {
        0x33
    } else {
        0x00
    }
}

/// Tells whether the pattern stands at offset `p`.
pub fn pattern_at(data: &[u8], p: usize) -> (b: bool)
    requires
        p + 32 <= data@.len(),
    ensures
        b == matches_at(data@, p as int),
{
    let n: usize = data.len();
    let mut i: usize = 0;
    while i < 8
        invariant
            i <= 8,
            n == data@.len(),
            p + 32 <= data@.len(),
            forall|k: int| 0 <= k < i ==> data@[p + k] == chunk_signature()[k],
        decreases 8 - i,
    {
        if data[p + i] != signature_byte(i) {
            assert(data@.subrange(p as int, p + 8)[i as int] != chunk_signature()[i as int]);
            return false;
        }
        i += 1;
    }
    let mut j: usize = 0;
    while j < 16
        invariant
            j <= 16,
            n == data@.len(),
            p + 32 <= data@.len(),
            forall|k: int| 0 <= k < j ==> data@[p + 16 + k] == store_header()[k],
        decreases 16 - j,
    {
        if data[p + 16 + j] != header_byte(j) {
            assert(data@.subrange(p + 16, p + 32)[j as int] != store_header()[j as int]);
            return false;
        }
        j += 1;
    }
    true
}

/// Offset of the first pattern in `data`, if there is one.
pub fn find_pattern(data: &[u8]) -> (r: Option<usize>)
    ensures
        match r {
            Some(p) => first_match(data@, p as int),
            None => forall|q: int| !matches_at(data@, q),
        },
{
    let n: usize = data.len();
    if n < 32 {
        return None;
    }
    let mut p: usize = 0;
    while p <= n - 32
        invariant
            n == data@.len(),
            n >= 32,
            p <= n - 31,
            forall|q: int| 0 <= q < p ==> !matches_at(data@, q),
        decreases n - p,
    {
        if pattern_at(data, p) {
            return Some(p);
        }
        p += 1;
    }
    None
}

/// Searches a whole container held in memory for the embedded store:
/// its declared length and the offset at which it begins.
pub fn find_sqlite(data: &[u8]) -> (r: Option<(u64, usize)>)
    ensures
        located(data@, r),
{
    let n: usize = data.len();
    match find_pattern(data) {
        Some(p) => {
            let size: u64 = read_be_u64(data, p + 8);
            Some((size, p + 16))
        },
        None => None,
    }
}

/// The pattern at an offset of a stream stays where it is when the
/// stream grows.
pub proof fn lemma_match_in_prefix(s: Seq<u8>, t: Seq<u8>, q: int)
    requires
        0 <= q,
        q + 32 <= s.len(),
    ensures
        matches_at(s + t, q) == matches_at(s, q),
        be_u64((s + t).subrange(q + 8, q + 16)) == be_u64(s.subrange(q + 8, q + 16)),
{
    assert((s + t).subrange(q, q + 8) =~= s.subrange(q, q + 8));
    assert((s + t).subrange(q + 16, q + 32) =~= s.subrange(q + 16, q + 32));
    assert((s + t).subrange(q + 8, q + 16) =~= s.subrange(q + 8, q + 16));
}

/// The pattern stands at an offset of a stream exactly where it stands
/// in the tail of the stream, counted from the tail's start.
pub proof fn lemma_match_in_tail(s: Seq<u8>, from: int, q: int)
    requires
        0 <= from <= q,
        from <= s.len(),
    ensures
        matches_at(s, q) == matches_at(s.subrange(from, s.len() as int), q - from),
        q + 32 <= s.len() ==> be_u64(s.subrange(q + 8, q + 16)) == be_u64(
            s.subrange(from, s.len() as int).subrange(q - from + 8, q - from + 16),
        ),
{
    let tail = s.subrange(from, s.len() as int);
    if q + 32 <= s.len() {
        assert(tail.subrange(q - from, q - from + 8) =~= s.subrange(q, q + 8));
        assert(tail.subrange(q - from + 16, q - from + 32) =~= s.subrange(q + 16, q + 32));
        assert(tail.subrange(q - from + 8, q - from + 16) =~= s.subrange(q + 8, q + 16));
    }
}

/// A search that takes the container block by block and keeps only the
/// last bytes of what it has seen.
pub struct Scanner {
    carry: Vec<u8>,
    pos: usize,
    found: Option<(u64, usize)>,
    seen: Ghost<Seq<u8>>,
}

impl View for Scanner {
    type V = Seq<u8>;

    /// All the bytes handed to the scanner so far.
    closed spec fn view(&self) -> Seq<u8> {
        self.seen@
    }
}

impl Scanner {
    /// The scanner's record agrees with the bytes it has seen.
    pub closed spec fn wf(&self) -> bool {
        &&& located(self.seen@, self.found)
        &&& self.found is None ==> {
            &&& self.pos + self.carry@.len() == self.seen@.len()
            &&& self.carry@ =~= self.seen@.subrange(self.pos as int, self.seen@.len() as int)
            &&& self.carry@.len() <= 31
            &&& (self.pos == 0 || self.carry@.len() == 31)
        }
    }

    /// What the scanner has found so far.
    pub closed spec fn spec_result(&self) -> Option<(u64, usize)> {
        self.found
    }

    /// A scanner that has seen nothing.
    pub fn new() -> (s: Scanner)
        ensures
            s.wf(),
            s@ == Seq::<u8>::empty(),
            s.spec_result() is None,
    {
        Scanner { carry: Vec::new(), pos: 0, found: None, seen: Ghost(Seq::empty()) }
    }

    /// The declared length and the offset of the store, once found.
    pub fn result(&self) -> (r: Option<(u64, usize)>)
        requires
            self.wf(),
        ensures
            r == self.spec_result(),
            located(self@, r),
    {
        self.found
    }

    /// Takes the next block of the container. The answer is that of a
    /// search of everything seen so far, this block included.
    pub fn feed(&mut self, block: &[u8]) -> (r: Option<(u64, usize)>)
        requires
            old(self).wf(),
            old(self)@.len() + block@.len() <= usize::MAX,
        ensures
            final(self).wf(),
            final(self)@ == old(self)@ + block@,
            r == final(self).spec_result(),
            located(final(self)@, r),
    {
        let ghost before = self.seen@;
        let ghost after = self.seen@ + block@;
        if let Some((size, index)) = self.found {
            proof {
                lemma_match_in_prefix(before, block@, index - 16);
                assert forall|q: int| 0 <= q < index - 16 implies !matches_at(after, q) by {
                    lemma_match_in_prefix(before, block@, q);
                }
            }
            self.seen = Ghost(after);
            return self.found;
        }
        let blen: usize = block.len();
        let mut buf: Vec<u8> = Vec::new();
        let mut i: usize = 0;
        while i < self.carry.len()
            invariant
                i <= self.carry@.len(),
                buf@ =~= self.carry@.subrange(0, i as int),
            decreases self.carry@.len() - i,
        {
            buf.push(self.carry[i]);
            i += 1;
        }
        let mut j: usize = 0;
        while j < blen
            invariant
                j <= blen,
                blen == block@.len(),
                buf@ =~= self.carry@ + block@.subrange(0, j as int),
            decreases blen - j,
        {
            buf.push(block[j]);
            j += 1;
        }
        assert(buf@ =~= after.subrange(self.pos as int, after.len() as int));
        let total: usize = buf.len();
        proof {
            assert forall|q: int| 0 <= q < self.pos implies !matches_at(after, q) by {
                lemma_match_in_prefix(before, block@, q);
            }
            assert forall|q: int| self.pos <= q implies matches_at(after, q) == matches_at(
                buf@,
                q - self.pos,
            ) by {
                lemma_match_in_tail(after, self.pos as int, q);
            }
        }
        match find_pattern(buf.as_slice()) {
            Some(p) => {
                let size: u64 = read_be_u64(buf.as_slice(), p + 8);
                proof {
                    lemma_match_in_tail(after, self.pos as int, self.pos + p);
                }
                self.found = Some((size, self.pos + p + 16));
                self.seen = Ghost(after);
            },
            None => {
                let keep: usize = if total < 31 {
                    total
                } else {
                    31
                };
                let start: usize = total - keep;
                let mut tail: Vec<u8> = Vec::new();
                let mut k: usize = start;
                while k < total
                    invariant
                        start <= k <= total,
                        total == buf@.len(),
                        tail@ =~= buf@.subrange(start as int, k as int),
                    decreases total - k,
                {
                    tail.push(buf[k]);
                    k += 1;
                }
                self.carry = tail;
                self.pos = self.pos + start;
                self.seen = Ghost(after);
            },
        }
        self.found
    }
}

} // verus!
