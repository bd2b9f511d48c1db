//! The raw result of a read: the bytes of the kept fields and where each
//! field ends, stored row by row or column by column.

use vstd::prelude::*;
use crate::reader::line_model::Cell;

verus! {

/// The most values that room is made for ahead of a read. Beyond it the
/// buffers grow as they are filled.
pub const ROOM_MAX: usize = usize::MAX / 16;

/// One buffer of a raw result as a list of fields: those that have ended, and
/// the bytes of the one that has not.
pub struct Lane {
    pub closed: Seq<Seq<u8>>,
    pub open: Seq<u8>,
}

/// Where field `i` of a buffer starts: where the field before it ends.
pub open spec fn start_of(index: Seq<usize>, i: int) -> int {
    if i <= 0 {
        0
    } else {
        index[i - 1] as int
    }
}

/// Whether `index` lists field ends of a buffer of `len` bytes: in rising
/// order and within the buffer.
pub open spec fn ends_in_order(index: Seq<usize>, len: int) -> bool {
    &&& forall|i: int, j: int| 0 <= i <= j < index.len() ==> index[i] <= index[j]
    &&& forall|i: int| 0 <= i < index.len() ==> index[i] <= len
}

/// The fields of a buffer that have ended.
pub open spec fn fields_of(results: Seq<u8>, index: Seq<usize>) -> Seq<Seq<u8>> {
    Seq::new(index.len(), |i: int| results.subrange(start_of(index, i), index[i] as int))
}

/// The bytes of a buffer behind its last field end.
pub open spec fn tail_of(results: Seq<u8>, index: Seq<usize>) -> Seq<u8> {
    results.subrange(start_of(index, index.len() as int), results.len() as int)
}

/// A buffer as a lane.
pub open spec fn lane_view(results: Seq<u8>, index: Seq<usize>) -> Lane {
    Lane { closed: fields_of(results, index), open: tail_of(results, index) }
}

/// `n` lanes with nothing in them.
pub open spec fn fresh_lanes(n: int) -> Seq<Lane> {
    Seq::new(n as nat, |l: int| Lane { closed: Seq::empty(), open: Seq::empty() })
}

/// The lanes after one more byte of the open field of lane `l`.
pub open spec fn lanes_push(lanes: Seq<Lane>, l: int, value: u8) -> Seq<Lane> {
    lanes.update(l, Lane { closed: lanes[l].closed, open: lanes[l].open.push(value) })
}

/// The lanes after the open field of lane `l` has ended.
pub open spec fn lanes_close(lanes: Seq<Lane>, l: int) -> Seq<Lane> {
    lanes.update(l, Lane { closed: lanes[l].closed.push(lanes[l].open), open: Seq::empty() })
}

/// A store for the raw result of a read. The tokenizer hands it the bytes of
/// each kept field with the field's slot, says when a field ends, and counts
/// the lines in it.
pub trait RawReaderParse: Sized {
    /// The buffers are consistent with their field ends.
    spec fn wf(&self) -> bool;

    /// The number of kept fields per line.
    spec fn field_total(&self) -> int;

    /// The number of lines counted.
    spec fn line_total(&self) -> int;

    /// The buffers as lanes.
    spec fn lanes(&self) -> Seq<Lane>;

    /// The lane that the fields of a slot go to.
    spec fn lane_of(slot: int) -> int;

    /// The number of lanes of a store for `fields` kept fields per line.
    spec fn lane_total(fields: int) -> int;

    /// A well-formed store has a lane for each slot.
    proof fn lane_in_range(&self, slot: int)
        requires
            self.wf(),
            1 <= slot <= self.field_total(),
        ensures
            0 <= Self::lane_of(slot) < self.lanes().len(),
            self.lanes().len() == Self::lane_total(self.field_total()),
    ;

    /// An empty store for `field` kept fields per line. `num_lines` is the
    /// number of lines to make room for.
    fn new(field: usize, num_lines: usize) -> (s: Self)
        ensures
            s.wf(),
            s.field_total() == field,
            s.line_total() == 0,
            s.lanes() == fresh_lanes(Self::lane_total(field as int)),
    ;

    /// The number of lines counted.
    fn get_num_lines(&self) -> (n: usize)
        ensures
            n == self.line_total(),
    ;

    /// Counts one more line.
    fn incr_num_lines(&mut self)
        requires
            old(self).wf(),
            old(self).line_total() < usize::MAX,
        ensures
            final(self).wf(),
            final(self).line_total() == old(self).line_total() + 1,
            final(self).field_total() == old(self).field_total(),
            final(self).lanes() == old(self).lanes(),
    ;

    /// Sets the number of lines counted.
    fn set_num_lines(&mut self, num_lines: usize)
        requires
            old(self).wf(),
        ensures
            final(self).wf(),
            final(self).line_total() == num_lines,
            final(self).field_total() == old(self).field_total(),
            final(self).lanes() == old(self).lanes(),
    ;

    /// Adds one byte to the open field of the slot `field` (1-based).
    fn set_results(&mut self, value: u8, field: usize)
        requires
            old(self).wf(),
            1 <= field <= old(self).field_total(),
        ensures
            final(self).wf(),
            final(self).line_total() == old(self).line_total(),
            final(self).field_total() == old(self).field_total(),
            final(self).lanes() == lanes_push(old(self).lanes(), Self::lane_of(field as int), value),
    ;

    /// Ends the open field of the slot `field` (1-based).
    fn set_index(&mut self, field: usize)
        requires
            old(self).wf(),
            1 <= field <= old(self).field_total(),
        ensures
            final(self).wf(),
            final(self).line_total() == old(self).line_total(),
            final(self).field_total() == old(self).field_total(),
            final(self).lanes() == lanes_close(old(self).lanes(), Self::lane_of(field as int)),
    ;
}

/// The fields that lane `l` of a store of kind `S` holds once `cells` have
/// gone into the store, in their order.
pub open spec fn lane_fields<S: RawReaderParse>(cells: Seq<Cell>, l: int) -> Seq<Seq<u8>>
    decreases cells.len(),
{
    if cells.len() == 0 {
        Seq::empty()
    } else if S::lane_of(cells.last().slot) == l {
        lane_fields::<S>(cells.drop_last(), l).push(cells.last().bytes)
    } else {
        lane_fields::<S>(cells.drop_last(), l)
    }
}

/// The `n` lanes of a store of kind `S` once `cells` have gone into it,
/// followed by the bytes `open` for the slot `slot`.
pub open spec fn route<S: RawReaderParse>(cells: Seq<Cell>, slot: int, open: Seq<u8>, n: int) -> Seq<
    Lane,
> {
    Seq::new(
        n as nat,
        |l: int|
            Lane {
                closed: lane_fields::<S>(cells, l),
                open: if S::lane_of(slot) == l {
                    open
                } else {
                    Seq::empty()
                },
            },
    )
}

/// Without open bytes the slot makes no difference.
pub proof fn lemma_route_idle<S: RawReaderParse>(cells: Seq<Cell>, slot: int, other: int, n: int)
    ensures
        route::<S>(cells, slot, Seq::empty(), n) == route::<S>(cells, other, Seq::empty(), n),
{
    assert(route::<S>(cells, slot, Seq::empty(), n) =~= route::<S>(cells, other, Seq::empty(), n));
}

/// A first byte for a slot, where no bytes are open.
pub proof fn lemma_route_open<S: RawReaderParse>(
    cells: Seq<Cell>,
    before: int,
    slot: int,
    b: u8,
    n: int,
)
    requires
        0 <= S::lane_of(slot) < n,
    ensures
        lanes_push(route::<S>(cells, before, Seq::empty(), n), S::lane_of(slot), b) == route::<S>(
            cells,
            slot,
            seq![b],
            n,
        ),
{
    let l = S::lane_of(slot);
    assert(Seq::<u8>::empty().push(b) =~= seq![b]);
    assert(lanes_push(route::<S>(cells, before, Seq::empty(), n), l, b) =~= route::<S>(
        cells,
        slot,
        seq![b],
        n,
    ));
}

/// One more byte for the slot whose bytes are open.
pub proof fn lemma_route_push<S: RawReaderParse>(
    cells: Seq<Cell>,
    slot: int,
    open: Seq<u8>,
    b: u8,
    n: int,
)
    requires
        0 <= S::lane_of(slot) < n,
    ensures
        lanes_push(route::<S>(cells, slot, open, n), S::lane_of(slot), b) == route::<S>(
            cells,
            slot,
            open.push(b),
            n,
        ),
{
    assert(lanes_push(route::<S>(cells, slot, open, n), S::lane_of(slot), b) =~= route::<S>(
        cells,
        slot,
        open.push(b),
        n,
    ));
}

/// The end of the open field: it becomes the last of the cells.
pub proof fn lemma_route_close<S: RawReaderParse>(
    cells: Seq<Cell>,
    slot: int,
    open: Seq<u8>,
    after: int,
    n: int,
)
    requires
        0 <= S::lane_of(slot) < n,
    ensures
        lanes_close(route::<S>(cells, slot, open, n), S::lane_of(slot)) == route::<S>(
            cells.push(Cell { slot: slot, bytes: open }),
            after,
            Seq::empty(),
            n,
        ),
{
    let longer = cells.push(Cell { slot: slot, bytes: open });
    assert(longer.drop_last() =~= cells);
    assert(lanes_close(route::<S>(cells, slot, open, n), S::lane_of(slot)) =~= route::<S>(
        longer,
        after,
        Seq::empty(),
        n,
    ));
}

/// A raw result stored row by row: one buffer with the bytes of all kept
/// fields in the order in which they were read, and the end of each field in
/// it.
#[derive(Clone, Debug)]
pub struct RawReaderResultsRows {
    pub num_fields: usize,
    pub num_lines: usize,
    pub results: Vec<u8>,
    pub index: Vec<usize>,
}

/// A raw result stored column by column: for each kept column one buffer with
/// the bytes of its fields in the order of the lines, and the end of each
/// field in it.
#[derive(Clone, Debug)]
pub struct RawReaderResultsCols {
    pub num_fields: usize,
    pub num_lines: usize,
    pub results: Vec<Vec<u8>>,
    pub index: Vec<Vec<usize>>,
}

/// One more byte in a buffer leaves its ended fields as they are and
/// lengthens its open field.
pub proof fn lemma_push_byte(results: Seq<u8>, index: Seq<usize>, value: u8)
    requires
        ends_in_order(index, results.len() as int),
    ensures
        ends_in_order(index, results.len() as int + 1),
        fields_of(results.push(value), index) == fields_of(results, index),
        tail_of(results.push(value), index) == tail_of(results, index).push(value),
{
    assert(fields_of(results.push(value), index) =~= fields_of(results, index)) by {
        assert forall|i: int| 0 <= i < index.len() implies #[trigger] fields_of(
            results.push(value),
            index,
        )[i] =~= fields_of(results, index)[i] by {
            assert(start_of(index, i) <= index[i]);
        }
    }
    assert(start_of(index, index.len() as int) <= results.len());
    assert(tail_of(results.push(value), index) =~= tail_of(results, index).push(value));
}

/// A field end at the end of a buffer turns its open field into its last
/// ended one.
pub proof fn lemma_push_end(results: Seq<u8>, index: Seq<usize>)
    requires
        ends_in_order(index, results.len() as int),
        results.len() <= usize::MAX,
    ensures
        ends_in_order(index.push(results.len() as usize), results.len() as int),
        fields_of(results, index.push(results.len() as usize)) == fields_of(results, index).push(
            tail_of(results, index),
        ),
        tail_of(results, index.push(results.len() as usize)) == Seq::<u8>::empty(),
{
    let longer = index.push(results.len() as usize);
    assert(fields_of(results, longer) =~= fields_of(results, index).push(tail_of(results, index)))
        by {
        assert forall|i: int| 0 <= i < longer.len() implies #[trigger] fields_of(results, longer)[i]
            =~= fields_of(results, index).push(tail_of(results, index))[i] by {
            assert(start_of(longer, i) == start_of(index, i));
        }
    }
    assert(tail_of(results, longer) =~= Seq::<u8>::empty());
}

impl RawReaderParse for RawReaderResultsRows {
    open spec fn wf(&self) -> bool {
        ends_in_order(self.index@, self.results@.len() as int)
    }

    open spec fn field_total(&self) -> int {
        self.num_fields as int
    }

    open spec fn line_total(&self) -> int {
        self.num_lines as int
    }

    open spec fn lanes(&self) -> Seq<Lane> {
        seq![lane_view(self.results@, self.index@)]
    }

    open spec fn lane_of(slot: int) -> int {
        0
    }

    open spec fn lane_total(fields: int) -> int {
        1
    }

    proof fn lane_in_range(&self, slot: int) {
    }

    fn new(field: usize, num_lines: usize) -> (s: Self) {
        let mut rr = RawReaderResultsRows {
            num_fields: field,
            num_lines: 0,
            results: Vec::<u8>::new(),
            index: Vec::<usize>::new(),
        };
        if field == 0 || num_lines <= ROOM_MAX / field {
            assert(num_lines * field <= ROOM_MAX) by (nonlinear_arith)
                requires
                    field == 0 || num_lines <= ROOM_MAX / field,
            ;
            rr.results.reserve(num_lines * field);
        }
        if num_lines <= ROOM_MAX {
            rr.index.reserve(num_lines);
        }
        assert(rr.lanes() =~= fresh_lanes(1)) by {
            assert(rr.lanes()[0].closed =~= Seq::<Seq<u8>>::empty());
            assert(rr.lanes()[0].open =~= Seq::<u8>::empty());
        }
        rr
    }

    fn get_num_lines(&self) -> (n: usize) {
        self.num_lines
    }

    fn incr_num_lines(&mut self) {
        self.num_lines += 1;
    }

    fn set_num_lines(&mut self, num_lines: usize) {
        self.num_lines = num_lines;
    }

    fn set_results(&mut self, value: u8, _field: usize) {
        proof {
            lemma_push_byte(self.results@, self.index@, value);
        }
        self.results.push(value);
        assert(self.lanes() =~= lanes_push(old(self).lanes(), 0, value));
    }

    fn set_index(&mut self, _field: usize) {
        let end = self.results.len();
        proof {
            lemma_push_end(self.results@, self.index@);
        }
        self.index.push(end);
        assert(self.lanes() =~= lanes_close(old(self).lanes(), 0));
    }
}

impl RawReaderParse for RawReaderResultsCols {
    open spec fn wf(&self) -> bool {
        &&& self.results@.len() == self.num_fields
        &&& self.index@.len() == self.num_fields
        &&& forall|l: int|
            0 <= l < self.num_fields ==> ends_in_order(
                #[trigger] self.index@[l]@,
                self.results@[l]@.len() as int,
            )
    }

    open spec fn field_total(&self) -> int {
        self.num_fields as int
    }

    open spec fn line_total(&self) -> int {
        self.num_lines as int
    }

    open spec fn lanes(&self) -> Seq<Lane> {
        Seq::new(
            self.num_fields as nat,
            |l: int| lane_view(self.results@[l]@, self.index@[l]@),
        )
    }

    open spec fn lane_of(slot: int) -> int {
        slot - 1
    }

    open spec fn lane_total(fields: int) -> int {
        fields
    }

    proof fn lane_in_range(&self, slot: int) {
    }

    fn new(field: usize, num_lines: usize) -> (s: Self) {
        let mut rr = RawReaderResultsCols {
            num_fields: field,
            num_lines: 0,
            results: Vec::<Vec<u8>>::new(),
            index: Vec::<Vec<usize>>::new(),
        };
        let mut icol: usize = 0;
        while icol < field
            invariant
                icol <= field,
                rr.num_fields == field,
                rr.num_lines == 0,
                rr.results@.len() == icol,
                rr.index@.len() == icol,
                forall|l: int| 0 <= l < icol ==> (#[trigger] rr.results@[l])@.len() == 0,
                forall|l: int| 0 <= l < icol ==> (#[trigger] rr.index@[l])@.len() == 0,
            decreases field - icol,
        {
            let mut bytes = Vec::<u8>::new();
            let mut ends = Vec::<usize>::new();
            if num_lines <= ROOM_MAX {
                bytes.reserve(num_lines);
                ends.reserve(num_lines);
            }
            rr.results.push(bytes);
            rr.index.push(ends);
            icol += 1;
        }
        assert(rr.lanes() =~= fresh_lanes(field as int)) by {
            assert forall|l: int| 0 <= l < field implies #[trigger] rr.lanes()[l] == (Lane {
                closed: Seq::empty(),
                open: Seq::empty(),
            }) by {
                assert(rr.results@[l]@.len() == 0);
                assert(rr.index@[l]@.len() == 0);
                assert(rr.lanes()[l].closed =~= Seq::<Seq<u8>>::empty());
                assert(rr.lanes()[l].open =~= Seq::<u8>::empty());
            }
        }
        rr
    }

    fn get_num_lines(&self) -> (n: usize) {
        self.num_lines
    }

    fn incr_num_lines(&mut self) {
        self.num_lines += 1;
        assert(self.lanes() =~= old(self).lanes());
    }

    fn set_num_lines(&mut self, num_lines: usize) {
        self.num_lines = num_lines;
        assert(self.lanes() =~= old(self).lanes());
    }

    fn set_results(&mut self, value: u8, field: usize) {
        let lane = field - 1;
        proof {
            lemma_push_byte(self.results@[lane as int]@, self.index@[lane as int]@, value);
        }
        self.results[lane].push(value);
        assert(self.lanes() =~= lanes_push(old(self).lanes(), lane as int, value));
    }

    fn set_index(&mut self, field: usize) {
        let lane = field - 1;
        let end = self.results[lane].len();
        proof {
            lemma_push_end(self.results@[lane as int]@, self.index@[lane as int]@);
        }
        self.index[lane].push(end);
        assert(self.lanes() =~= lanes_close(old(self).lanes(), lane as int));
    }
}

} // verus!
