//! Typed tables: the result of a read, stored row by row or column by
//! column, with access by value, by row, by column and by lane.

use vstd::prelude::*;
use vstd::slice::slice_subrange;

verus! {

/// A table stored row by row: the value of row `r` and column `c` is at
/// `r * num_fields + c` of `results`.
#[derive(Clone, Debug)]
pub struct ReaderResultsRow<T> {
    pub num_fields: usize,
    pub num_lines: usize,
    pub results: Vec<T>,
}

/// A table stored column by column: the value of row `r` and column `c` is at
/// `c * num_lines + r` of `results`.
#[derive(Clone, Debug)]
pub struct ReaderResultsCol<T> {
    pub num_fields: usize,
    pub num_lines: usize,
    pub results: Vec<T>,
}

/// Row `r` and column `c` of a table of `lines` rows and `fields` columns
/// have a place in either order of storage.
pub proof fn lemma_cell_index(r: int, c: int, lines: int, fields: int)
    requires
        0 <= r < lines,
        0 <= c < fields,
    ensures
        0 <= r * fields + c < lines * fields,
        0 <= c * lines + r < lines * fields,
        0 <= r * fields,
        0 <= c * lines,
{
    assert(0 <= r * fields + c < lines * fields && 0 <= r * fields) by (nonlinear_arith)
        requires
            0 <= r < lines,
            0 <= c < fields,
    ;
    assert(0 <= c * lines + r < lines * fields && 0 <= c * lines) by (nonlinear_arith)
        requires
            0 <= r < lines,
            0 <= c < fields,
    ;
}

/// Lane `i` of `count` lanes of `len` values each lies within the storage.
pub proof fn lemma_lane_index(i: int, count: int, len: int)
    requires
        0 <= i < count,
        0 <= len,
    ensures
        0 <= i * len,
        i * len + len <= count * len,
{
    assert(0 <= i * len && i * len + len <= count * len) by (nonlinear_arith)
        requires
            0 <= i < count,
            0 <= len,
    ;
}

/// A table of values of one type, with access by row and column. Rows and
/// columns are numbered from 0. A lane is a row of a table stored row by row
/// and a column of one stored column by column: what lies together in
/// storage.
pub trait ReaderResults<T: Clone>: Sized {
    /// The storage holds a value for every row and column.
    spec fn wf(&self) -> bool;

    /// The number of columns.
    spec fn fields(&self) -> int;

    /// The number of rows.
    spec fn lines(&self) -> int;

    /// The stored values.
    spec fn values(&self) -> Seq<T>;

    /// The value of row `r` and column `c`.
    spec fn value(&self, r: int, c: int) -> T;

    /// The number of lanes.
    spec fn lane_total(&self) -> int;

    /// The number of values of a lane.
    spec fn lane_len(&self) -> int;

    /// The number of columns.
    fn get_num_fields(&self) -> (n: usize)
        ensures
            n == self.fields(),
    ;

    /// The number of rows.
    fn get_num_lines(&self) -> (n: usize)
        ensures
            n == self.lines(),
    ;

    /// The stored values.
    fn get_results(&self) -> (v: &Vec<T>)
        ensures
            v@ == self.values(),
    ;

    /// The stored values, to change them.
    fn get_mut_results(&mut self) -> (v: &mut Vec<T>)
        ensures
            v@ == old(self).values(),
            final(self).values() == final(v)@,
            final(self).fields() == old(self).fields(),
            final(self).lines() == old(self).lines(),
    ;

    /// The values of lane `lane_index`.
    fn get_inner_lanes(&self, lane_index: usize) -> (lane: &[T])
        requires
            self.wf(),
            lane_index < self.lane_total(),
        ensures
            lane@ == self.values().subrange(
                lane_index * self.lane_len(),
                lane_index * self.lane_len() + self.lane_len(),
            ),
    ;

    /// The values of lane `lane_index`, to change them. The values of the
    /// other lanes stay.
    fn get_mut_inner_lane(&mut self, lane_index: usize) -> (lane: &mut [T])
        requires
            old(self).wf(),
            lane_index < old(self).lane_total(),
        ensures
            lane@ == old(self).values().subrange(
                lane_index * old(self).lane_len(),
                lane_index * old(self).lane_len() + old(self).lane_len(),
            ),
            final(self).values() == old(self).values().subrange(
                0,
                lane_index * old(self).lane_len(),
            ) + final(lane)@ + old(self).values().subrange(
                lane_index * old(self).lane_len() + old(self).lane_len(),
                old(self).values().len() as int,
            ),
            final(self).fields() == old(self).fields(),
            final(self).lines() == old(self).lines(),
    ;

    /// A copy of the value of row `row_index` and column `col_index`.
    fn get_value(&self, row_index: usize, col_index: usize) -> (v: T)
        requires
            self.wf(),
            row_index < self.lines(),
            col_index < self.fields(),
        ensures
            cloned(self.value(row_index as int, col_index as int), v),
    ;

    /// A copy of row `row_index`.
    fn get_row(&self, row_index: usize) -> (row: Vec<T>)
        requires
            self.wf(),
            row_index < self.lines(),
        ensures
            row@.len() == self.fields(),
            forall|c: int|
                0 <= c < self.fields() ==> cloned(
                    self.value(row_index as int, c),
                    #[trigger] row@[c],
                ),
    ;

    /// Copies of the rows `row_indices`, in that order.
    fn get_rows(&self, row_indices: Vec<usize>) -> (rows: Vec<Vec<T>>)
        requires
            self.wf(),
            forall|i: int| 0 <= i < row_indices@.len() ==> #[trigger] row_indices@[i] < self.lines(),
        ensures
            rows@.len() == row_indices@.len(),
            forall|i: int|
                0 <= i < rows@.len() ==> (#[trigger] rows@[i])@.len() == self.fields(),
            forall|i: int, c: int|
                0 <= i < rows@.len() && 0 <= c < self.fields() ==> cloned(
                    self.value(row_indices@[i] as int, c),
                    #[trigger] rows@[i]@[c],
                ),
    ;

    /// A copy of column `col_index`.
    fn get_col(&self, col_index: usize) -> (col: Vec<T>)
        requires
            self.wf(),
            col_index < self.fields(),
        ensures
            col@.len() == self.lines(),
            forall|r: int|
                0 <= r < self.lines() ==> cloned(
                    self.value(r, col_index as int),
                    #[trigger] col@[r],
                ),
    ;

    /// Copies of the columns `col_indices`, in that order.
    fn get_cols(&self, col_indices: Vec<usize>) -> (cols: Vec<Vec<T>>)
        requires
            self.wf(),
            forall|i: int|
                0 <= i < col_indices@.len() ==> #[trigger] col_indices@[i] < self.fields(),
        ensures
            cols@.len() == col_indices@.len(),
            forall|i: int| 0 <= i < cols@.len() ==> (#[trigger] cols@[i])@.len() == self.lines(),
            forall|i: int, r: int|
                0 <= i < cols@.len() && 0 <= r < self.lines() ==> cloned(
                    self.value(r, col_indices@[i] as int),
                    #[trigger] cols@[i]@[r],
                ),
    ;
}

impl<T: Clone> ReaderResults<T> for ReaderResultsRow<T> {
    open spec fn wf(&self) -> bool {
        self.results@.len() == self.num_lines * self.num_fields
    }

    open spec fn fields(&self) -> int {
        self.num_fields as int
    }

    open spec fn lines(&self) -> int {
        self.num_lines as int
    }

    open spec fn values(&self) -> Seq<T> {
        self.results@
    }

    open spec fn value(&self, r: int, c: int) -> T {
        self.results@[r * self.num_fields + c]
    }

    open spec fn lane_total(&self) -> int {
        self.num_lines as int
    }

    open spec fn lane_len(&self) -> int {
        self.num_fields as int
    }

    fn get_num_fields(&self) -> (n: usize) {
        self.num_fields
    }

    fn get_num_lines(&self) -> (n: usize) {
        self.num_lines
    }

    fn get_results(&self) -> (v: &Vec<T>) {
        &self.results
    }

    fn get_mut_results(&mut self) -> (v: &mut Vec<T>) {
        &mut self.results
    }

    fn get_inner_lanes(&self, lane_index: usize) -> (lane: &[T]) {
        let _total = self.results.len();
        proof {
            lemma_lane_index(lane_index as int, self.num_lines as int, self.num_fields as int);
        }
        let start_index = lane_index * self.num_fields;
        let end_index = start_index + self.num_fields;
        slice_subrange(self.results.as_slice(), start_index, end_index)
    }

    fn get_mut_inner_lane(&mut self, lane_index: usize) -> (lane: &mut [T]) {
        let _total = self.results.len();
        proof {
            lemma_lane_index(lane_index as int, self.num_lines as int, self.num_fields as int);
        }
        let len = self.num_fields;
        let start_index = lane_index * len;
        let whole = self.results.as_mut_slice();
        let (_head, rest) = whole.split_at_mut(start_index);
        let (lane, _tail) = rest.split_at_mut(len);
        lane
    }

    fn get_value(&self, row_index: usize, col_index: usize) -> (v: T) {
        let _total = self.results.len();
        proof {
            lemma_cell_index(
                row_index as int,
                col_index as int,
                self.num_lines as int,
                self.num_fields as int,
            );
        }
        self.results[row_index * self.num_fields + col_index].clone()
    }

    fn get_row(&self, row_index: usize) -> (row: Vec<T>) {
        let mut out: Vec<T> = Vec::new();
        let mut c: usize = 0;
        while c < self.num_fields
            invariant
                self.wf(),
                row_index < self.num_lines,
                c <= self.num_fields,
                out@.len() == c,
                forall|k: int|
                    0 <= k < c ==> cloned(self.value(row_index as int, k), #[trigger] out@[k]),
            decreases self.num_fields - c,
        {
            let _total = self.results.len();
            proof {
                lemma_cell_index(
                    row_index as int,
                    c as int,
                    self.num_lines as int,
                    self.num_fields as int,
                );
            }
            out.push(self.results[row_index * self.num_fields + c].clone());
            c += 1;
        }
        out
    }

    fn get_rows(&self, row_indices: Vec<usize>) -> (rows: Vec<Vec<T>>) {
        let mut out: Vec<Vec<T>> = Vec::new();
        let mut i: usize = 0;
        while i < row_indices.len()
            invariant
                self.wf(),
                forall|k: int|
                    0 <= k < row_indices@.len() ==> #[trigger] row_indices@[k] < self.lines(),
                i <= row_indices@.len(),
                out@.len() == i,
                forall|k: int| 0 <= k < i ==> (#[trigger] out@[k])@.len() == self.fields(),
                forall|k: int, c: int|
                    0 <= k < i && 0 <= c < self.fields() ==> cloned(
                        self.value(row_indices@[k] as int, c),
                        #[trigger] out@[k]@[c],
                    ),
            decreases row_indices@.len() - i,
        {
            out.push(self.get_row(row_indices[i]));
            i += 1;
        }
        out
    }

    fn get_col(&self, col_index: usize) -> (col: Vec<T>) {
        let mut out: Vec<T> = Vec::new();
        let mut r: usize = 0;
        while r < self.num_lines
            invariant
                self.wf(),
                col_index < self.num_fields,
                r <= self.num_lines,
                out@.len() == r,
                forall|k: int|
                    0 <= k < r ==> cloned(self.value(k, col_index as int), #[trigger] out@[k]),
            decreases self.num_lines - r,
        {
            let _total = self.results.len();
            proof {
                lemma_cell_index(
                    r as int,
                    col_index as int,
                    self.num_lines as int,
                    self.num_fields as int,
                );
            }
            out.push(self.results[r * self.num_fields + col_index].clone());
            r += 1;
        }
        out
    }

    fn get_cols(&self, col_indices: Vec<usize>) -> (cols: Vec<Vec<T>>) {
        let mut out: Vec<Vec<T>> = Vec::new();
        let mut i: usize = 0;
        while i < col_indices.len()
            invariant
                self.wf(),
                forall|k: int|
                    0 <= k < col_indices@.len() ==> #[trigger] col_indices@[k] < self.fields(),
                i <= col_indices@.len(),
                out@.len() == i,
                forall|k: int| 0 <= k < i ==> (#[trigger] out@[k])@.len() == self.lines(),
                forall|k: int, r: int|
                    0 <= k < i && 0 <= r < self.lines() ==> cloned(
                        self.value(r, col_indices@[k] as int),
                        #[trigger] out@[k]@[r],
                    ),
            decreases col_indices@.len() - i,
        {
            out.push(self.get_col(col_indices[i]));
            i += 1;
        }
        out
    }
}

impl<T: Clone> ReaderResults<T> for ReaderResultsCol<T> {
    open spec fn wf(&self) -> bool {
        self.results@.len() == self.num_lines * self.num_fields
    }

    open spec fn fields(&self) -> int {
        self.num_fields as int
    }

    open spec fn lines(&self) -> int {
        self.num_lines as int
    }

    open spec fn values(&self) -> Seq<T> {
        self.results@
    }

    open spec fn value(&self, r: int, c: int) -> T {
        self.results@[c * self.num_lines + r]
    }

    open spec fn lane_total(&self) -> int {
        self.num_fields as int
    }

    open spec fn lane_len(&self) -> int {
        self.num_lines as int
    }

    fn get_num_fields(&self) -> (n: usize) {
        self.num_fields
    }

    fn get_num_lines(&self) -> (n: usize) {
        self.num_lines
    }

    fn get_results(&self) -> (v: &Vec<T>) {
        &self.results
    }

    fn get_mut_results(&mut self) -> (v: &mut Vec<T>) {
        &mut self.results
    }

    fn get_inner_lanes(&self, lane_index: usize) -> (lane: &[T]) {
        let _total = self.results.len();
        proof {
            lemma_lane_index(lane_index as int, self.num_fields as int, self.num_lines as int);
            assert(self.num_fields * self.num_lines == self.num_lines * self.num_fields)
                by (nonlinear_arith);
        }
        let start_index = lane_index * self.num_lines;
        let end_index = start_index + self.num_lines;
        slice_subrange(self.results.as_slice(), start_index, end_index)
    }

    fn get_mut_inner_lane(&mut self, lane_index: usize) -> (lane: &mut [T]) {
        let _total = self.results.len();
        proof {
            lemma_lane_index(lane_index as int, self.num_fields as int, self.num_lines as int);
            assert(self.num_fields * self.num_lines == self.num_lines * self.num_fields)
                by (nonlinear_arith);
        }
        let len = self.num_lines;
        let start_index = lane_index * len;
        let whole = self.results.as_mut_slice();
        let (_head, rest) = whole.split_at_mut(start_index);
        let (lane, _tail) = rest.split_at_mut(len);
        lane
    }

    fn get_value(&self, row_index: usize, col_index: usize) -> (v: T) {
        let _total = self.results.len();
        proof {
            lemma_cell_index(
                row_index as int,
                col_index as int,
                self.num_lines as int,
                self.num_fields as int,
            );
        }
        self.results[col_index * self.num_lines + row_index].clone()
    }

    fn get_row(&self, row_index: usize) -> (row: Vec<T>) {
        let mut out: Vec<T> = Vec::new();
        let mut c: usize = 0;
        while c < self.num_fields
            invariant
                self.wf(),
                row_index < self.num_lines,
                c <= self.num_fields,
                out@.len() == c,
                forall|k: int|
                    0 <= k < c ==> cloned(self.value(row_index as int, k), #[trigger] out@[k]),
            decreases self.num_fields - c,
        {
            let _total = self.results.len();
            proof {
                lemma_cell_index(
                    row_index as int,
                    c as int,
                    self.num_lines as int,
                    self.num_fields as int,
                );
            }
            out.push(self.results[c * self.num_lines + row_index].clone());
            c += 1;
        }
        out
    }

    fn get_rows(&self, row_indices: Vec<usize>) -> (rows: Vec<Vec<T>>) {
        let mut out: Vec<Vec<T>> = Vec::new();
        let mut i: usize = 0;
        while i < row_indices.len()
            invariant
                self.wf(),
                forall|k: int|
                    0 <= k < row_indices@.len() ==> #[trigger] row_indices@[k] < self.lines(),
                i <= row_indices@.len(),
                out@.len() == i,
                forall|k: int| 0 <= k < i ==> (#[trigger] out@[k])@.len() == self.fields(),
                forall|k: int, c: int|
                    0 <= k < i && 0 <= c < self.fields() ==> cloned(
                        self.value(row_indices@[k] as int, c),
                        #[trigger] out@[k]@[c],
                    ),
            decreases row_indices@.len() - i,
        {
            out.push(self.get_row(row_indices[i]));
            i += 1;
        }
        out
    }

    fn get_col(&self, col_index: usize) -> (col: Vec<T>) {
        let mut out: Vec<T> = Vec::new();
        let mut r: usize = 0;
        while r < self.num_lines
            invariant
                self.wf(),
                col_index < self.num_fields,
                r <= self.num_lines,
                out@.len() == r,
                forall|k: int|
                    0 <= k < r ==> cloned(self.value(k, col_index as int), #[trigger] out@[k]),
            decreases self.num_lines - r,
        {
            let _total = self.results.len();
            proof {
                lemma_cell_index(
                    r as int,
                    col_index as int,
                    self.num_lines as int,
                    self.num_fields as int,
                );
            }
            out.push(self.results[col_index * self.num_lines + r].clone());
            r += 1;
        }
        out
    }

    fn get_cols(&self, col_indices: Vec<usize>) -> (cols: Vec<Vec<T>>) {
        let mut out: Vec<Vec<T>> = Vec::new();
        let mut i: usize = 0;
        while i < col_indices.len()
            invariant
                self.wf(),
                forall|k: int|
                    0 <= k < col_indices@.len() ==> #[trigger] col_indices@[k] < self.fields(),
                i <= col_indices@.len(),
                out@.len() == i,
                forall|k: int| 0 <= k < i ==> (#[trigger] out@[k])@.len() == self.lines(),
                forall|k: int, r: int|
                    0 <= k < i && 0 <= r < self.lines() ==> cloned(
                        self.value(r, col_indices@[k] as int),
                        #[trigger] out@[k]@[r],
                    ),
            decreases col_indices@.len() - i,
        {
            out.push(self.get_col(col_indices[i]));
            i += 1;
        }
        out
    }
}

/// A table in either order of storage.
#[derive(Clone, Debug)]
pub enum ReaderTable<T> {
    /// Stored row by row.
    Row(ReaderResultsRow<T>),
    /// Stored column by column.
    Col(ReaderResultsCol<T>),
}

impl<T: Clone> ReaderResults<T> for ReaderTable<T> {
    open spec fn wf(&self) -> bool {
        match self {
            ReaderTable::Row(t) => t.wf(),
            ReaderTable::Col(t) => t.wf(),
        }
    }

    open spec fn fields(&self) -> int {
        match self {
            ReaderTable::Row(t) => t.fields(),
            ReaderTable::Col(t) => t.fields(),
        }
    }

    open spec fn lines(&self) -> int {
        match self {
            ReaderTable::Row(t) => t.lines(),
            ReaderTable::Col(t) => t.lines(),
        }
    }

    open spec fn values(&self) -> Seq<T> {
        match self {
            ReaderTable::Row(t) => t.values(),
            ReaderTable::Col(t) => t.values(),
        }
    }

    open spec fn value(&self, r: int, c: int) -> T {
        match self {
            ReaderTable::Row(t) => t.value(r, c),
            ReaderTable::Col(t) => t.value(r, c),
        }
    }

    open spec fn lane_total(&self) -> int {
        match self {
            ReaderTable::Row(t) => t.lane_total(),
            ReaderTable::Col(t) => t.lane_total(),
        }
    }

    open spec fn lane_len(&self) -> int {
        match self {
            ReaderTable::Row(t) => t.lane_len(),
            ReaderTable::Col(t) => t.lane_len(),
        }
    }

    fn get_num_fields(&self) -> (n: usize) {
        match self {
            ReaderTable::Row(t) => t.get_num_fields(),
            ReaderTable::Col(t) => t.get_num_fields(),
        }
    }

    fn get_num_lines(&self) -> (n: usize) {
        match self {
            ReaderTable::Row(t) => t.get_num_lines(),
            ReaderTable::Col(t) => t.get_num_lines(),
        }
    }

    fn get_results(&self) -> (v: &Vec<T>) {
        match self {
            ReaderTable::Row(t) => t.get_results(),
            ReaderTable::Col(t) => t.get_results(),
        }
    }

    fn get_mut_results(&mut self) -> (v: &mut Vec<T>) {
        match self {
            ReaderTable::Row(t) => t.get_mut_results(),
            ReaderTable::Col(t) => t.get_mut_results(),
        }
    }

    fn get_inner_lanes(&self, lane_index: usize) -> (lane: &[T]) {
        match self {
            ReaderTable::Row(t) => t.get_inner_lanes(lane_index),
            ReaderTable::Col(t) => t.get_inner_lanes(lane_index),
        }
    }

    fn get_mut_inner_lane(&mut self, lane_index: usize) -> (lane: &mut [T]) {
        match self {
            ReaderTable::Row(t) => t.get_mut_inner_lane(lane_index),
            ReaderTable::Col(t) => t.get_mut_inner_lane(lane_index),
        }
    }

    fn get_value(&self, row_index: usize, col_index: usize) -> (v: T) {
        match self {
            ReaderTable::Row(t) => t.get_value(row_index, col_index),
            ReaderTable::Col(t) => t.get_value(row_index, col_index),
        }
    }

    fn get_row(&self, row_index: usize) -> (row: Vec<T>) {
        match self {
            ReaderTable::Row(t) => t.get_row(row_index),
            ReaderTable::Col(t) => t.get_row(row_index),
        }
    }

    fn get_rows(&self, row_indices: Vec<usize>) -> (rows: Vec<Vec<T>>) {
        match self {
            ReaderTable::Row(t) => t.get_rows(row_indices),
            ReaderTable::Col(t) => t.get_rows(row_indices),
        }
    }

    fn get_col(&self, col_index: usize) -> (col: Vec<T>) {
        match self {
            ReaderTable::Row(t) => t.get_col(col_index),
            ReaderTable::Col(t) => t.get_col(col_index),
        }
    }

    fn get_cols(&self, col_indices: Vec<usize>) -> (cols: Vec<Vec<T>>) {
        match self {
            ReaderTable::Row(t) => t.get_cols(col_indices),
            ReaderTable::Col(t) => t.get_cols(col_indices),
        }
    }
}

} // verus!
