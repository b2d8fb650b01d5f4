//! Reconstruction helpers for erasure-coded block data: locating the overlap
//! between a cell's payload and decoded application data, and mapping data
//! back to the matrix positions it came from.

use vstd::prelude::*;

verus! {

/// True when the first `n` bytes of `right` are exactly the last `n` bytes of
/// `left`.
pub open spec fn is_overlap(left: Seq<u8>, right: Seq<u8>, n: nat) -> bool {
    &&& n <= left.len()
    &&& n <= right.len()
    &&& left.subrange(left.len() - n, left.len() as int) == right.subrange(0, n as int)
}

/// The largest `m <= n` for which `is_overlap(left, right, m)` holds.
pub open spec fn overlap_below(left: Seq<u8>, right: Seq<u8>, n: nat) -> nat
    decreases n,
{
    if is_overlap(left, right, n) {
        n
    } else if n == 0 {
        0
    } else {
        overlap_below(left, right, (n - 1) as nat)
    }
}

/// Length of the longest prefix of `right` that is also a suffix of `left`.
pub open spec fn overlap_len(left: Seq<u8>, right: Seq<u8>) -> nat {
    overlap_below(left, right, right.len())
}

/// Whether `tail` is a suffix of `left`.
fn ends_with(left: &[u8], tail: &[u8]) -> (r: bool)
    ensures
        r == is_overlap(left@, tail@, tail@.len()),
{
    if tail.len() > left.len() {
        return false;
    }
    let offset: usize = left.len() - tail.len();
    let mut i: usize = 0;
    while i < tail.len()
        invariant
            0 <= i <= tail@.len(),
            offset == left@.len() - tail@.len(),
            tail@.len() <= left@.len(),
            left@.len() <= usize::MAX,
            forall|j: int| 0 <= j < i ==> left@[offset + j] == tail@[j],
        decreases tail@.len() - i,
    {
        assert(offset + i < left@.len());
        if left[offset + i] != tail[i] {
            assert(left@.subrange(left@.len() - tail@.len(), left@.len() as int)[i as int]
                != tail@.subrange(0, tail@.len() as int)[i as int]);
            return false;
        }
        i += 1;
    }
    assert(left@.subrange(left@.len() - tail@.len(), left@.len() as int) =~= tail@.subrange(
        0,
        tail@.len() as int,
    ));
    true
}

/// The longest prefix of `right` that the tail of `left` already holds;
/// used to stitch decoded data back onto the cell it starts in.
pub fn find_overlap<'a>(left: &'a [u8], right: &'a [u8]) -> (r: &'a [u8])
    ensures
        r@ == right@.subrange(0, overlap_len(left@, right@) as int),
        r@.len() == overlap_len(left@, right@),
        is_overlap(left@, right@, overlap_len(left@, right@)),
{
    let mut n: usize = right.len();
    loop
        invariant
            0 <= n <= right@.len(),
            overlap_len(left@, right@) == overlap_below(left@, right@, n as nat),
        decreases n,
    {
        if ends_with(left, &right[0..n]) {
            assert(right@.subrange(0, n as int).len() == n as int);
            assert(is_overlap(left@, right@, n as nat)) by {
                assert(right@.subrange(0, n as int).subrange(0, n as int) =~= right@.subrange(
                    0,
                    n as int,
                ));
                assert(left@.subrange(left@.len() - n, left@.len() as int) == right@.subrange(
                    0,
                    n as int,
                ));
            }
            return &right[0..n];
        }
        assert(!is_overlap(left@, right@, n as nat)) by {
            if is_overlap(left@, right@, n as nat) {
                assert(right@.subrange(0, n as int).subrange(0, n as int) =~= right@.subrange(
                    0,
                    n as int,
                ));
            }
        }
        if n == 0 {
            assert(overlap_len(left@, right@) == 0);
            assert(left@.subrange(left@.len() - 0, left@.len() as int) =~= right@.subrange(0, 0));
            return &right[0..0];
        }
        n = n - 1;
    }
}

} // verus!

verus! {

/// A cell's coordinates in the extended data matrix.
#[derive(Clone, Copy, Debug, PartialEq, Eq, Structural)]
pub struct Position {
    pub row: u32,
    pub col: u16,
}

/// A matrix cell's payload, stripped of its proof: its position and data
/// bytes (at least the 31 usable bytes of a field element).
#[derive(Clone, Debug, PartialEq)]
pub struct DataCell {
    pub position: Position,
    pub data: Vec<u8>,
}

/// Spec view of a data cell.
pub ghost struct DataCellV {
    pub position: Position,
    pub data: Seq<u8>,
}

impl View for DataCell {
    type V = DataCellV;

    open spec fn view(&self) -> DataCellV {
        DataCellV { position: self.position, data: self.data@ }
    }
}

impl DeepView for DataCell {
    type V = DataCellV;

    open spec fn deep_view(&self) -> DataCellV {
        self@
    }
}

/// `data` cut into 31-byte chunks, the last one shorter when the length is
/// no multiple of 31.
pub open spec fn chunks31(s: Seq<u8>) -> Seq<Seq<u8>>
    decreases s.len(),
{
    if s.len() == 0 {
        Seq::empty()
    } else if s.len() <= 31 {
        seq![s]
    } else {
        seq![s.take(31)] + chunks31(s.skip(31))
    }
}

/// The chunks decoded data splits into against its first cell: the part the
/// cell's payload already ends with, then 31-byte chunks of the rest.
pub open spec fn data_chunks_spec(first31: Seq<u8>, data: Seq<u8>) -> Seq<Seq<u8>> {
    seq![data.take(overlap_len(first31, data) as int)] + chunks31(
        data.skip(overlap_len(first31, data) as int),
    )
}

/// Copies a byte range of a slice.
fn copy_range(s: &[u8], from: usize, to: usize) -> (r: Vec<u8>)
    requires
        from <= to <= s@.len(),
    ensures
        r@ == s@.subrange(from as int, to as int),
{
    let mut r: Vec<u8> = Vec::new();
    let mut i: usize = from;
    while i < to
        invariant
            from <= i <= to <= s@.len(),
            r@ =~= s@.subrange(from as int, i as int),
        decreases to - i,
    {
        r.push(s[i]);
        assert(r@ =~= s@.subrange(from as int, i + 1));
        i += 1;
    }
    proof {
        assert(r@ =~= s@.subrange(from as int, to as int));
    }
    r
}

/// Splits decoded data into the chunk its first cell already holds and
/// 31-byte chunks of the remainder.
pub fn data_chunks(first_cell: &DataCell, data: Vec<u8>) -> (r: Vec<Vec<u8>>)
    requires
        first_cell.data@.len() >= 31,
    ensures
        r.deep_view() == data_chunks_spec(first_cell.data@.take(31), data@),
{
    let first31: &[u8] = &first_cell.data[0..31];
    let overlap = find_overlap(first31, data.as_slice());
    let ghost ov = overlap_len(first31@, data@);
    assert(first31@ == first_cell.data@.take(31)) by {
        assert(first31@ =~= first_cell.data@.take(31));
    }
    let mut out: Vec<Vec<u8>> = Vec::new();
    let first: Vec<u8> = copy_range(overlap, 0, overlap.len());
    assert(first@ == data@.take(ov as int)) by {
        assert(overlap@.subrange(0, overlap@.len() as int) =~= overlap@);
        assert(data@.subrange(0, ov as int) =~= data@.take(ov as int));
    }
    let start: usize = first.len();
    out.push(first);
    let ghost rest = data@.skip(ov as int);
    let mut i: usize = start;
    while i < data.len()
        invariant
            start <= i <= data@.len() || (i == start && start >= data@.len()),
            start == ov,
            ov <= data@.len(),
            rest == data@.skip(ov as int),
            out.deep_view().len() >= 1,
            out.deep_view()[0] == data@.take(ov as int),
            chunks31(rest) =~= out.deep_view().skip(1) + chunks31(data@.skip(i as int)),
            (i - start) % 31 == 0 || i == data@.len(),
            i < data@.len() ==> (i - start) % 31 == 0,
        decreases data@.len() - i,
    {
        let end: usize = if data.len() - i < 31 {
            data.len()
        } else {
            i + 31
        };
        let chunk = copy_range(data.as_slice(), i, end);
        let ghost prevdv = out.deep_view();
        let ghost prev = out@;
        out.push(chunk);
        assert(out@ == prev.push(out@[prev.len() as int]));
        assert forall|j: int| 0 <= j < prevdv.len() implies out.deep_view()[j] == prevdv[j] by {
            assert(out.deep_view()[j] == out@[j].deep_view());
            assert(out@[j] == prev[j]);
            assert(prevdv[j] == prev[j].deep_view());
        }
        assert(out.deep_view()[prevdv.len() as int] == chunk@);
        proof {
            let tail = data@.skip(i as int);
            assert(tail.len() == data@.len() - i);
            if data@.len() - i <= 31 {
                assert(chunk@ =~= tail);
                assert(chunks31(tail) == seq![tail]);
                assert(data@.skip(end as int).len() == 0);
                assert(chunks31(data@.skip(end as int)) == Seq::<Seq<u8>>::empty());
                assert(out.deep_view().skip(1) =~= prevdv.skip(1) + seq![chunk@]);
                assert(chunks31(rest) =~= out.deep_view().skip(1) + chunks31(
                    data@.skip(end as int),
                ));
            } else {
                assert(chunk@ =~= tail.take(31));
                assert(chunks31(tail) == seq![tail.take(31)] + chunks31(tail.skip(31)));
                assert(tail.skip(31) =~= data@.skip(i + 31));
                assert(out.deep_view().skip(1) =~= prevdv.skip(1) + seq![chunk@]);
                assert(chunks31(rest) =~= out.deep_view().skip(1) + chunks31(data@.skip(end as int)));
            }
        }
        i = end;
    }
    proof {
        if i >= data@.len() {
            assert(data@.skip(i as int).len() == 0);
            assert(chunks31(data@.skip(i as int)) == Seq::<Seq<u8>>::empty());
        }
        assert(chunks31(rest) =~= out.deep_view().skip(1));
        assert(out.deep_view() =~= seq![data@.take(ov as int)] + chunks31(rest));
    }
    out
}

} // verus!

verus! {

/// Whether `t` is a prefix of `s`.
pub open spec fn starts_with_spec(s: Seq<u8>, t: Seq<u8>) -> bool {
    t.len() <= s.len() && s.subrange(0, t.len() as int) == t
}

/// Whether chunk `i` of `n` belongs to a cell: the first chunk ends the
/// cell's usable bytes, the last one starts them, and a middle chunk is
/// exactly them.
pub open spec fn chunk_matches(cell31: Seq<u8>, chunk: Seq<u8>, i: int, n: int) -> bool {
    if i == 0 {
        is_overlap(cell31, chunk, chunk.len())
    } else if i == n - 1 {
        starts_with_spec(cell31, chunk)
    } else {
        cell31 == chunk
    }
}

/// The positions of the first `i` cells whose chunk matches them.
pub open spec fn matched_upto(
    cells: Seq<DataCellV>,
    chunks: Seq<Seq<u8>>,
    n: int,
    i: int,
) -> Seq<Position>
    decreases i,
{
    if i <= 0 {
        Seq::empty()
    } else {
        matched_upto(cells, chunks, n, i - 1) + if chunk_matches(
            cells[i - 1].data.take(31),
            chunks[i - 1],
            i - 1,
            n,
        ) {
            seq![cells[i - 1].position]
        } else {
            Seq::empty()
        }
    }
}

/// Whether `t` is a prefix of `s`.
fn starts_with(s: &[u8], t: &[u8]) -> (r: bool)
    ensures
        r == starts_with_spec(s@, t@),
{
    if t.len() > s.len() {
        return false;
    }
    let mut i: usize = 0;
    while i < t.len()
        invariant
            0 <= i <= t@.len(),
            t@.len() <= s@.len(),
            forall|j: int| 0 <= j < i ==> s@[j] == t@[j],
        decreases t@.len() - i,
    {
        if s[i] != t[i] {
            assert(s@.subrange(0, t@.len() as int)[i as int] != t@[i as int]);
            return false;
        }
        i += 1;
    }
    assert(s@.subrange(0, t@.len() as int) =~= t@);
    true
}

/// Whether two byte slices hold the same bytes.
fn slices_eq(a: &[u8], b: &[u8]) -> (r: bool)
    ensures
        r == (a@ == b@),
{
    if a.len() != b.len() {
        proof {
            if a@ == b@ {
                assert(false);
            }
        }
        return false;
    }
    let mut i: usize = 0;
    while i < a.len()
        invariant
            0 <= i <= a@.len(),
            a@.len() == b@.len(),
            forall|j: int| 0 <= j < i ==> a@[j] == b@[j],
        decreases a@.len() - i,
    {
        if a[i] != b[i] {
            proof {
                if a@ == b@ {
                    assert(false);
                }
            }
            return false;
        }
        i += 1;
    }
    assert(a@ =~= b@);
    true
}

/// Maps decoded data back to the positions of the cells it came from: each
/// chunk must match its cell in order, and the result is `Some` exactly
/// when every chunk found its cell.
pub fn data_positions(cells: Vec<DataCell>, data: Vec<u8>) -> (r: Option<Vec<Position>>)
    requires
        cells@.len() > 0,
        forall|i: int| 0 <= i < cells@.len() ==> (#[trigger] cells@[i])@.data.len() >= 31,
    ensures
        ({
            let chunks = data_chunks_spec(cells@[0]@.data.take(31), data@);
            let m = if chunks.len() <= cells@.len() {
                chunks.len() as int
            } else {
                cells@.len() as int
            };
            let ps = matched_upto(cells.deep_view(), chunks, chunks.len() as int, m);
            if ps.len() == chunks.len() {
                r matches Some(v) && v@ == ps
            } else {
                r is None
            }
        }),
{
    proof {
        lemma_deep_view_pointwise_cells(cells);
    }
    let chunks = data_chunks(&cells[0], data);
    let ghost chs = chunks.deep_view();
    let ghost cs = cells.deep_view();
    let ghost n = chs.len() as int;
    let m: usize = if chunks.len() <= cells.len() {
        chunks.len()
    } else {
        cells.len()
    };
    let mut out: Vec<Position> = Vec::new();
    let mut i: usize = 0;
    while i < m
        invariant
            0 <= i <= m,
            m <= cells@.len(),
            m <= chs.len(),
            n == chs.len(),
            chs == chunks.deep_view(),
            cs == cells.deep_view(),
            chs.len() == chunks@.len(),
            cs.len() == cells@.len(),
            forall|j: int| 0 <= j < chunks@.len() ==> chs[j] == (#[trigger] chunks@[j])@,
            forall|j: int| 0 <= j < cells@.len() ==> cs[j] == (#[trigger] cells@[j])@,
            forall|j: int| 0 <= j < cells@.len() ==> (#[trigger] cells@[j])@.data.len() >= 31,
            out@ == matched_upto(cs, chs, n, i as int),
        decreases m - i,
    {
        let cell31: &[u8] = &cells[i].data[0..31];
        assert(cell31@ == cs[i as int].data.take(31)) by {
            assert(cell31@ =~= cells@[i as int]@.data.take(31));
        }
        let chunk: &[u8] = chunks[i].as_slice();
        assert(chunk@ == chs[i as int]);
        let matches_here: bool = if i == 0 {
            ends_with(cell31, chunk)
        } else if i == chunks.len() - 1 {
            starts_with(cell31, chunk)
        } else {
            slices_eq(cell31, chunk)
        };
        assert(matches_here == chunk_matches(cs[i as int].data.take(31), chs[i as int], i as int, n));
        if matches_here {
            out.push(cells[i].position);
            assert(cells@[i as int].position == cs[i as int].position);
        }
        assert(out@ =~= matched_upto(cs, chs, n, i + 1));
        i += 1;
    }
    let ghost ps = matched_upto(cs, chs, n, m as int);
    if out.len() == chunks.len() {
        Some(out)
    } else {
        proof {
            assert(out@.len() != chs.len());
        }
        None
    }
}

/// A cell vector's deep view is its view, element by element.
proof fn lemma_deep_view_pointwise_cells(v: Vec<DataCell>)
    ensures
        v.deep_view().len() == v@.len(),
        forall|i: int| 0 <= i < v@.len() ==> v.deep_view()[i] == (#[trigger] v@[i])@,
{
}

/// The positions among proof-check results that verified, and those that
/// did not, in order.
pub open spec fn verified_positions(s: Seq<(Position, bool)>) -> Seq<Position>
    decreases s.len(),
{
    if s.len() == 0 {
        Seq::empty()
    } else {
        verified_positions(s.drop_last()) + if s.last().1 {
            seq![s.last().0]
        } else {
            Seq::empty()
        }
    }
}

/// The positions among proof-check results that failed, in order.
pub open spec fn unverified_positions(s: Seq<(Position, bool)>) -> Seq<Position>
    decreases s.len(),
{
    if s.len() == 0 {
        Seq::empty()
    } else {
        unverified_positions(s.drop_last()) + if s.last().1 {
            Seq::empty()
        } else {
            seq![s.last().0]
        }
    }
}

/// Splits per-cell proof-check outcomes into the verified and unverified
/// positions, keeping each side's order of arrival.
pub fn partition_verified(results: &Vec<(Position, bool)>) -> (r: (Vec<Position>, Vec<Position>))
    ensures
        r.0@ == verified_positions(results@),
        r.1@ == unverified_positions(results@),
{
    let mut ok: Vec<Position> = Vec::new();
    let mut bad: Vec<Position> = Vec::new();
    let mut i: usize = 0;
    while i < results.len()
        invariant
            0 <= i <= results@.len(),
            ok@ == verified_positions(results@.take(i as int)),
            bad@ == unverified_positions(results@.take(i as int)),
        decreases results@.len() - i,
    {
        let (pos, good) = results[i];
        if good {
            ok.push(pos);
        } else {
            bad.push(pos);
        }
        proof {
            assert(results@.take(i + 1).drop_last() =~= results@.take(i as int));
            assert(results@.take(i + 1).last() == results@[i as int]);
        }
        assert(ok@ =~= verified_positions(results@.take(i + 1)));
        assert(bad@ =~= unverified_positions(results@.take(i + 1)));
        i += 1;
    }
    proof {
        assert(results@.take(results@.len() as int) =~= results@);
    }
    (ok, bad)
}

} // verus!
