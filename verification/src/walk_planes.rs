//! The column planes of a walk: committed columns and the two endpoint states
//! of every slot, assembled from the columns of the families that share it.
use crate::field::F128;
use vstd::prelude::*;

verus! {

/// The tracks of one walk, or of one family of it: every track is one column
/// over the slots. A track that a family does not write is empty.
#[derive(Clone, Debug, PartialEq, Eq)]
pub struct WalkColumns {
    pub tracks: Vec<Vec<F128>>,
}

/// One run of slots that is copied from a family's columns: `slots` slots of
/// source `source`, from its slot `from` on, to slot `base` of the walk.
#[derive(Clone, Copy, Debug, PartialEq, Eq, Structural)]
pub struct Piece {
    pub base: usize,
    pub from: usize,
    pub slots: usize,
    pub source: usize,
}

impl Piece {
    pub open spec fn covers_slot(self, slot: int) -> bool {
        self.base <= slot < self.base + self.slots
    }

    /// The piece reads inside its source and writes inside a walk of `len`
    /// slots.
    pub open spec fn fits(self, sources: Seq<WalkColumns>, tracks: nat, len: nat) -> bool {
        &&& self.base + self.slots <= len
        &&& self.source < sources.len()
        &&& sources[self.source as int].tracks@.len() == tracks
        &&& forall|t: int|
            0 <= t < tracks ==> {
                let column = #[trigger] sources[self.source as int].tracks@[t]@;
                column.len() == 0 || self.from + self.slots <= column.len()
            }
    }
}

/// Whether a piece writes the cell at `slot` of track `t`.
pub open spec fn writes(piece: Piece, sources: Seq<WalkColumns>, t: int, slot: int) -> bool {
    piece.covers_slot(slot) && sources[piece.source as int].tracks@[t]@.len() > 0
}

/// The cell at `slot` of track `t` after the first `n` pieces are copied over
/// a cell that held `before`: the last piece that writes it decides.
pub open spec fn placed_cell(
    pieces: Seq<Piece>,
    n: nat,
    sources: Seq<WalkColumns>,
    t: int,
    slot: int,
    before: F128,
) -> F128
    decreases n,
{
    if n == 0 {
        before
    } else if writes(pieces[n - 1], sources, t, slot) {
        sources[pieces[n - 1].source as int].tracks@[t]@[pieces[n - 1].from + (slot - pieces[n
            - 1].base)]
    } else {
        placed_cell(pieces, (n - 1) as nat, sources, t, slot, before)
    }
}

/// All tracks have the same length.
pub open spec fn rectangular(plane: WalkColumns, tracks: nat, len: nat) -> bool {
    &&& plane.tracks@.len() == tracks
    &&& forall|t: int| 0 <= t < tracks ==> (#[trigger] plane.tracks@[t])@.len() == len
}

/// Copies one run of a source column into a column.
pub fn copy_run(column: &mut Vec<F128>, source: &Vec<F128>, piece: Piece)
    requires
        piece.base + piece.slots <= old(column)@.len(),
        piece.from + piece.slots <= source@.len(),
    ensures
        final(column)@.len() == old(column)@.len(),
        forall|slot: int|
            0 <= slot < old(column)@.len() ==> #[trigger] final(column)@[slot] == if piece.covers_slot(
                slot,
            ) {
                source@[piece.from + (slot - piece.base)]
            } else {
                old(column)@[slot]
            },
{
    let ghost before = column@;
    let len = column.len();
    let source_len = source.len();
    let mut o: usize = 0;
    while o < piece.slots
        invariant
            o <= piece.slots,
            len == before.len(),
            source_len == source@.len(),
            column@.len() == before.len(),
            piece.base + piece.slots <= before.len(),
            piece.from + piece.slots <= source@.len(),
            forall|slot: int|
                0 <= slot < before.len() ==> #[trigger] column@[slot] == if piece.base <= slot
                    < piece.base + o {
                    source@[piece.from + (slot - piece.base)]
                } else {
                    before[slot]
                },
        decreases piece.slots - o,
    {
        let at: usize = piece.base + o;
        let value = source[piece.from + o];
        column.set(at, value);
        o = o + 1;
    }
}

fn copy_column(column: &Vec<F128>) -> (r: Vec<F128>)
    ensures
        r@ == column@,
{
    let mut r: Vec<F128> = Vec::with_capacity(column.len());
    let mut i: usize = 0;
    while i < column.len()
        invariant
            i <= column@.len(),
            r@ == column@.take(i as int),
        decreases column@.len() - i,
    {
        r.push(column[i]);
        i = i + 1;
        assert(r@ =~= column@.take(i as int));
    }
    assert(r@ =~= column@);
    r
}

/// Copies pieces over a plane, in order.
pub fn place_pieces(plane: &WalkColumns, pieces: &Vec<Piece>, sources: &Vec<WalkColumns>, len: usize) -> (r:
    WalkColumns)
    requires
        rectangular(*plane, plane.tracks@.len(), len as nat),
        forall|p: int|
            0 <= p < pieces@.len() ==> (#[trigger] pieces@[p]).fits(
                sources@,
                plane.tracks@.len(),
                len as nat,
            ),
    ensures
        rectangular(r, plane.tracks@.len(), len as nat),
        forall|t: int, slot: int|
            0 <= t < r.tracks@.len() && 0 <= slot < len ==> #[trigger] r.tracks@[t]@[slot]
                == placed_cell(pieces@, pieces@.len(), sources@, t, slot, plane.tracks@[t]@[slot]),
{
    let mut tracks: Vec<Vec<F128>> = Vec::new();
    let mut t: usize = 0;
    while t < plane.tracks.len()
        invariant
            t <= plane.tracks@.len(),
            tracks@.len() == t,
            rectangular(*plane, plane.tracks@.len(), len as nat),
            forall|p: int|
                0 <= p < pieces@.len() ==> (#[trigger] pieces@[p]).fits(
                    sources@,
                    plane.tracks@.len(),
                    len as nat,
                ),
            forall|u: int| 0 <= u < t ==> (#[trigger] tracks@[u])@.len() == len,
            forall|u: int, slot: int|
                0 <= u < t && 0 <= slot < len ==> #[trigger] tracks@[u]@[slot] == placed_cell(
                    pieces@,
                    pieces@.len(),
                    sources@,
                    u,
                    slot,
                    plane.tracks@[u]@[slot],
                ),
        decreases plane.tracks@.len() - t,
    {
        assert(plane.tracks@[t as int]@.len() == len);
        let mut column = copy_column(&plane.tracks[t]);
        let mut p: usize = 0;
        while p < pieces.len()
            invariant
                t < plane.tracks@.len(),
                p <= pieces@.len(),
                column@.len() == len,
                forall|q: int|
                    0 <= q < pieces@.len() ==> (#[trigger] pieces@[q]).fits(
                        sources@,
                        plane.tracks@.len(),
                        len as nat,
                    ),
                forall|slot: int|
                    0 <= slot < len ==> #[trigger] column@[slot] == placed_cell(
                        pieces@,
                        p as nat,
                        sources@,
                        t as int,
                        slot,
                        plane.tracks@[t as int]@[slot],
                    ),
            decreases pieces@.len() - p,
        {
            let piece = pieces[p];
            assert(piece.fits(sources@, plane.tracks@.len(), len as nat));
            let source = &sources[piece.source].tracks[t];
            let ghost column0 = column@;
            assert(sources@[piece.source as int].tracks@[t as int]@ == source@);
            if source.len() > 0 {
                copy_run(&mut column, source, piece);
            }
            proof {
                assert forall|slot: int| 0 <= slot < len implies #[trigger] column@[slot]
                    == placed_cell(
                    pieces@,
                    (p + 1) as nat,
                    sources@,
                    t as int,
                    slot,
                    plane.tracks@[t as int]@[slot],
                ) by {
                    assert(column0[slot] == placed_cell(
                        pieces@,
                        p as nat,
                        sources@,
                        t as int,
                        slot,
                        plane.tracks@[t as int]@[slot],
                    ));
                }
            }
            p = p + 1;
        }
        tracks.push(column);
        t = t + 1;
    }
    WalkColumns { tracks }
}

/// Where no two pieces overlap, every piece keeps what it wrote, and the
/// cells outside all of them keep what they held.
pub proof fn lemma_disjoint_pieces(
    pieces: Seq<Piece>,
    n: nat,
    sources: Seq<WalkColumns>,
    t: int,
    slot: int,
    before: F128,
)
    requires
        n <= pieces.len(),
        forall|p: int, q: int|
            0 <= p < q < n ==> !((#[trigger] pieces[p]).covers_slot(slot) && (
            #[trigger] pieces[q]).covers_slot(slot)),
    ensures
        forall|p: int|
            0 <= p < n && writes(#[trigger] pieces[p], sources, t, slot) ==> placed_cell(
                pieces,
                n,
                sources,
                t,
                slot,
                before,
            ) == sources[pieces[p].source as int].tracks@[t]@[pieces[p].from + (slot
                - pieces[p].base)],
        (forall|p: int| 0 <= p < n ==> !writes(#[trigger] pieces[p], sources, t, slot))
            ==> placed_cell(pieces, n, sources, t, slot, before) == before,
    decreases n,
{
    if n > 0 {
        lemma_disjoint_pieces(pieces, (n - 1) as nat, sources, t, slot, before);
        assert forall|p: int| 0 <= p < n && writes(#[trigger] pieces[p], sources, t, slot) implies placed_cell(
            pieces,
            n,
            sources,
            t,
            slot,
            before,
        ) == sources[pieces[p].source as int].tracks@[t]@[pieces[p].from + (slot
            - pieces[p].base)] by {
            if p < n - 1 {
                assert(!(pieces[p].covers_slot(slot) && pieces[n - 1].covers_slot(slot)));
            }
        }
    }
}

/// A plane of `len` slots in which every slot holds the same cells.
pub fn uniform_plane(cells: &Vec<F128>, len: usize) -> (r: WalkColumns)
    ensures
        rectangular(r, cells@.len(), len as nat),
        forall|t: int, slot: int|
            0 <= t < cells@.len() && 0 <= slot < len ==> #[trigger] r.tracks@[t]@[slot]
                == cells@[t],
{
    let mut tracks: Vec<Vec<F128>> = Vec::new();
    let mut t: usize = 0;
    while t < cells.len()
        invariant
            t <= cells@.len(),
            tracks@.len() == t,
            forall|u: int| 0 <= u < t ==> (#[trigger] tracks@[u])@.len() == len,
            forall|u: int, slot: int|
                0 <= u < t && 0 <= slot < len ==> #[trigger] tracks@[u]@[slot] == cells@[u],
        decreases cells@.len() - t,
    {
        let mut column: Vec<F128> = Vec::with_capacity(len);
        let mut i: usize = 0;
        while i < len
            invariant
                t < cells@.len(),
                i <= len,
                column@.len() == i,
                forall|slot: int| 0 <= slot < i ==> #[trigger] column@[slot] == cells@[t as int],
            decreases len - i,
        {
            column.push(cells[t]);
            i = i + 1;
        }
        tracks.push(column);
        t = t + 1;
    }
    WalkColumns { tracks }
}

} // verus!
