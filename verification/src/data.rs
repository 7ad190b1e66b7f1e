//! Tables of numbers and texts: building them, reading them from text, and taking them apart.
use vstd::prelude::*;
use crate::blas;
use crate::blas::Mat;
use crate::cache;
use crate::format::Textual;
use crate::json;
use crate::json::parse_object;
use crate::number;
use crate::random;
use crate::random::{normal_number, random_units};
use crate::number::{Number, Real};
use crate::optim;
use crate::optim::fraction;
use crate::table;
use crate::table::Table;
use crate::tensor;
use crate::tensor::{copy_slice, Tensor};
use crate::text;
use crate::text::{
    chars_of, contains, ends_with, find_char, is_text, join, lines, owned, parse_number, part,
    push_decimal, push_text, rfind_char, split, string_of, trim,
};

verus! {

// ---- Columns

/// A column: numbers or texts.
#[derive(Debug, Clone)]
pub enum Column<S> {
    Float(Vec<S>),
    Text(Vec<String>),
}

/// What a column holds.
#[verifier::ext_equal]
pub enum Cells<S> {
    Float(Seq<S>),
    Text(Seq<Seq<char>>),
}

impl<S> Cells<S> {
    pub open spec fn len(self) -> nat {
        match self {
            Cells::Float(v) => v.len(),
            Cells::Text(v) => v.len(),
        }
    }

    /// The cells from one row up to another.
    pub open spec fn between(self, i: int, j: int) -> Self {
        match self {
            Cells::Float(v) => Cells::Float(v.subrange(i, j)),
            Cells::Text(v) => Cells::Text(v.subrange(i, j)),
        }
    }
}

impl<S> View for Column<S> {
    type V = Cells<S>;

    open spec fn view(&self) -> Cells<S> {
        match *self {
            Column::Float(v) => Cells::Float(v@),
            Column::Text(v) => Cells::Text(text::texts(v@)),
        }
    }
}

impl<S: Number> Column<S> {
    pub fn len(&self) -> (r: usize)
        ensures
            r == self@.len(),
    {
        match self {
            Column::Float(v) => v.len(),
            Column::Text(v) => v.len(),
        }
    }

    pub fn is_numeric(&self) -> (r: bool)
        ensures
            r == (self@ is Float),
    {
        match self {
            Column::Float(_) => true,
            Column::Text(_) => false,
        }
    }

    pub fn is_empty(&self) -> (r: bool)
        ensures
            r == (self@.len() == 0),
    {
        self.len() == 0
    }

    /// The cells from one row up to another.
    fn between(&self, i: usize, j: usize) -> (r: Self)
        requires
            i <= j <= self@.len(),
        ensures
            r@ == self@.between(i as int, j as int),
    {
        match self {
            Column::Float(v) => {
                let mut out: Vec<S> = Vec::new();
                for k in i..j
                    invariant
                        j <= v@.len(),
                        out@ =~= v@.subrange(i as int, k as int),
                {
                    out.push(v[k]);
                }
                Column::Float(out)
            },
            Column::Text(v) => {
                let mut out: Vec<String> = Vec::new();
                for k in i..j
                    invariant
                        j <= v@.len(),
                        text::texts(out@) =~= text::texts(v@).subrange(i as int, k as int),
                {
                    let ghost before = text::texts(out@);
                    let s = owned(v[k].as_str());
                    out.push(s);
                    assert(text::texts(out@) =~= before.push(s@));
                }
                Column::Text(out)
            },
        }
    }
}

/// Copies of the texts.
pub fn copy_texts(v: &[String]) -> (r: Vec<String>)
    ensures
        text::texts(r@) == text::texts(v@),
{
    let mut out: Vec<String> = Vec::new();
    for k in 0..v.len()
        invariant
            text::texts(out@) =~= text::texts(v@).take(k as int),
    {
        let ghost before = text::texts(out@);
        let s = owned(v[k].as_str());
        out.push(s);
        assert(text::texts(out@) =~= before.push(s@));
    }
    assert(text::texts(v@).take(v@.len() as int) =~= text::texts(v@));
    out
}

/// The text of a cell as it is read for a number.
pub open spec fn number_text(s: Seq<char>, trims: bool) -> Seq<char> {
    if trims {
        text::trimmed(s)
    } else {
        s
    }
}

/// Whether all texts can be read as numbers.
pub open spec fn all_numbers<S: Textual>(v: Seq<Seq<char>>, trims: bool) -> bool {
    forall|i: int|
        0 <= i < v.len() ==> S::spec_read(#[trigger] number_text(v[i], trims)) is Some
}

/// The column that texts make: one of numbers if all of them can be read as numbers.
pub open spec fn inferred<S: Textual>(v: Seq<Seq<char>>, trims: bool) -> Cells<S> {
    if all_numbers::<S>(v, trims) {
        Cells::Float(Seq::new(v.len(), |i: int| S::spec_read(number_text(v[i], trims)).unwrap()))
    } else {
        Cells::Text(v)
    }
}

/// The column that texts make.
fn infer<S: Textual>(values: &[String], trims: bool) -> (r: Column<S>)
    ensures
        r@ == inferred::<S>(text::texts(values@), trims),
{
    let ghost all = text::texts(values@);
    let mut floats: Vec<S> = Vec::new();
    for i in 0..values.len()
        invariant
            all == text::texts(values@),
            floats@.len() == i,
            forall|j: int|
                0 <= j < i ==> S::spec_read(#[trigger] number_text(all[j], trims)) is Some,
            forall|j: int|
                0 <= j < i ==> #[trigger] floats@[j] == S::spec_read(
                    number_text(all[j], trims),
                ).unwrap(),
    {
        let cell = chars_of(values[i].as_str());
        let cell = if trims {
            trim(&cell)
        } else {
            cell
        };
        assert(cell@ == number_text(all[i as int], trims));
        match S::read(&cell) {
            Some(x) => floats.push(x),
            None => {
                assert(!all_numbers::<S>(all, trims));
                return Column::Text(copy_texts(values));
            },
        }
    }
    assert(all_numbers::<S>(all, trims));
    let r = Column::Float(floats);
    assert(r@ =~= inferred::<S>(all, trims));
    r
}

// ---- Datasets

/// Named columns.
#[derive(Debug, Clone)]
pub struct Dataset<S> {
    pub columns: Table<Column<S>>,
    /// The length of the longest column.
    pub num_rows: usize,
    /// Where the data come from.
    pub source: String,
}

/// What the columns hold.
pub open spec fn cells_of<S>(t: Table<Column<S>>) -> Map<Seq<char>, Cells<S>> {
    t@.map_values(|c: Column<S>| c@)
}

proof fn lemma_cells_insert<S>(before: Table<Column<S>>, after: Table<Column<S>>, name: Seq<char>, c: Column<S>)
    requires
        after@ == before@.insert(name, c),
    ensures
        cells_of(after) == cells_of(before).insert(name, c@),
{
    assert(cells_of(after) =~= cells_of(before).insert(name, c@));
}

pub open spec fn max_of(a: nat, b: nat) -> nat {
    if a < b {
        b
    } else {
        a
    }
}

impl<S> Dataset<S> {
    /// No column name occurs twice.
    pub open spec fn wf(&self) -> bool {
        self.columns.wf()
    }

    /// What the columns hold.
    pub open spec fn cells(&self) -> Map<Seq<char>, Cells<S>> {
        cells_of(self.columns)
    }

    /// The dataset after a column was added.
    pub open spec fn with_column(&self, new: &Self, name: Seq<char>, c: Cells<S>) -> bool {
        &&& new.wf()
        &&& new.cells() == self.cells().insert(name, c)
        &&& new.num_rows == max_of(self.num_rows as nat, c.len())
        &&& new.source == self.source
        &&& new.columns.names() == (if self.cells().dom().contains(name) {
            self.columns.names()
        } else {
            self.columns.names().push(name)
        })
    }
}

/// The number in a row of a column, or zero where there is none.
pub open spec fn cell_value<S: Number>(
    cells: Map<Seq<char>, Cells<S>>,
    name: Seq<char>,
    row: int,
) -> S {
    if cells.dom().contains(name) {
        match cells[name] {
            Cells::Float(v) => if row < v.len() {
                v[row]
            } else {
                S::spec_zero()
            },
            Cells::Text(_) => S::spec_zero(),
        }
    } else {
        S::spec_zero()
    }
}

/// The numbers of some columns, as a matrix.
pub open spec fn cell_matrix<S: Number>(
    cells: Map<Seq<char>, Cells<S>>,
    names: Seq<Seq<char>>,
) -> Mat<S> {
    |row: int, col: int| cell_value(cells, names[col], row)
}

/// The names of columns of numbers, in the order that is given.
pub open spec fn numeric_names<S>(
    cells: Map<Seq<char>, Cells<S>>,
    names: Seq<Seq<char>>,
) -> Seq<Seq<char>>
    decreases names.len(),
{
    if names.len() == 0 {
        Seq::empty()
    } else {
        let rest = numeric_names(cells, names.drop_last());
        if cells.dom().contains(names.last()) && cells[names.last()] is Float {
            rest.push(names.last())
        } else {
            rest
        }
    }
}

/// The token numbers of texts, as a matrix.
pub open spec fn token_matrix<S: Real>(encoded: Seq<Vec<usize>>) -> Mat<S> {
    |row: int, i: int| token_value::<S>(encoded[row]@, i)
}

/// Each column, in the given rows.
pub open spec fn part_of<S>(cells: Map<Seq<char>, Cells<S>>, i: int, j: int) -> Map<
    Seq<char>,
    Cells<S>,
> {
    cells.map_values(|c: Cells<S>| c.between(i, j))
}

/// Every column is at least so long.
pub open spec fn reaches<S>(cells: Map<Seq<char>, Cells<S>>, n: int) -> bool {
    forall|k: Seq<char>| #[trigger] cells.dom().contains(k) ==> cells[k].len() >= n
}

/// The row at which a dataset is split: the ratio of the rows, rounded down.
pub open spec fn split_row<S: Real>(num_rows: usize, ratio: S) -> int {
    let w = S::spec_count(num_rows).spec_times(ratio).spec_whole();
    if w < 0 {
        0
    } else {
        w as int
    }
}

/// The row at which a dataset is split, no further than its end.
pub fn split_at<S: Real>(num_rows: usize, ratio: S) -> (r: usize)
    ensures
        r == (if split_row(num_rows, ratio) < num_rows {
            split_row(num_rows, ratio)
        } else {
            num_rows as int
        }),
{
    let w: i64 = S::count(num_rows).times(ratio).whole();
    if w < 0 {
        0
    } else if (w as u64) < num_rows as u64 {
        w as usize
    } else {
        num_rows
    }
}

/// What is said of a column.
pub open spec fn column_line<S>(name: Seq<char>, c: Cells<S>) -> Seq<char> {
    "  "@ + name + ": "@ + (if c is Float {
        "f32"@
    } else {
        "str"@
    }) + "["@ + text::digits(c.len()) + "]"@
}

/// The lines on the columns, in the order of their names.
pub open spec fn column_lines<S>(t: Table<Column<S>>, n: int) -> Seq<Seq<char>> {
    Seq::new(
        n as nat,
        |i: int|
            column_line(
                table::ordered(t.names())[i],
                cells_of(t)[table::ordered(t.names())[i]],
            ),
    )
}

impl<S: Real> Dataset<S> {
    /// A dataset without columns.
    pub fn new(source: &str) -> (r: Self)
        ensures
            r.wf(),
            r.cells() == Map::<Seq<char>, Cells<S>>::empty(),
            r.num_rows == 0,
            r.source@ == source@,
            r.columns.names() == Seq::<Seq<char>>::empty(),
    {
        let r = Dataset { columns: Table::new(), num_rows: 0, source: owned(source) };
        assert(r.cells() =~= Map::<Seq<char>, Cells<S>>::empty());
        r
    }

    fn add_column(&mut self, name: &str, c: Column<S>)
        requires
            old(self).wf(),
        ensures
            old(self).with_column(final(self), name@, c@),
    {
        let len: usize = c.len();
        if self.num_rows < len {
            self.num_rows = len;
        }
        let ghost before = self.columns;
        let ghost cc = c;
        self.columns.insert(name, c);
        proof {
            lemma_cells_insert(before, self.columns, name@, cc);
        }
    }

    /// Adds a column of numbers, in place of one with the same name.
    pub fn add_float_column(&mut self, name: &str, data: Vec<S>)
        requires
            old(self).wf(),
        ensures
            old(self).with_column(final(self), name@, Cells::Float(data@)),
    {
        self.add_column(name, Column::Float(data));
    }

    /// Adds a column of texts, in place of one with the same name.
    pub fn add_text_column(&mut self, name: &str, data: Vec<String>)
        requires
            old(self).wf(),
        ensures
            old(self).with_column(final(self), name@, Cells::Text(text::texts(data@))),
    {
        self.add_column(name, Column::Text(data));
    }

    /// A column of numbers.
    pub fn get_float(&self, name: &str) -> (r: Option<&Vec<S>>)
        requires
            self.wf(),
        ensures
            match r {
                Some(v) => self.cells().dom().contains(name@) && self.cells()[name@]
                    == Cells::Float(v@),
                None => self.cells().dom().contains(name@) ==> self.cells()[name@] is Text,
            },
    {
        match self.columns.get(name) {
            Some(Column::Float(v)) => Some(v),
            _ => None,
        }
    }

    /// A column of texts.
    pub fn get_text(&self, name: &str) -> (r: Option<&Vec<String>>)
        requires
            self.wf(),
        ensures
            match r {
                Some(v) => self.cells().dom().contains(name@) && self.cells()[name@]
                    == Cells::<S>::Text(text::texts(v@)),
                None => self.cells().dom().contains(name@) ==> self.cells()[name@] is Float,
            },
    {
        match self.columns.get(name) {
            Some(Column::Text(v)) => Some(v),
            _ => None,
        }
    }

    /// The numbers of the columns of numbers among some columns, row by row; a row past the end
    /// of a column has a zero there.
    #[verifier::loop_isolation(false)]
    pub fn to_tensor(&self, column_names: &[&str]) -> (r: Tensor<S>)
        requires
            self.wf(),
            self.num_rows * column_names@.len() <= usize::MAX,
        ensures
            r.wf(),
            ({
                let names = numeric_names(self.cells(), text::str_texts(column_names@));
                &&& r.shape@ == seq![self.num_rows, names.len() as usize]
                &&& names.len() <= column_names@.len()
                &&& blas::holds(
                    r.data@,
                    cell_matrix(self.cells(), names),
                    self.num_rows as int,
                    names.len() as int,
                )
            }),
    {
        let nrows: usize = self.num_rows;
        let asked: usize = column_names.len();
        let ghost given = text::str_texts(column_names@);
        let mut columns: Vec<&Vec<S>> = Vec::new();
        let ghost mut names: Seq<Seq<char>> = Seq::empty();
        assert(given.take(0) =~= Seq::<Seq<char>>::empty());
        for i in 0..asked
            invariant
                names == numeric_names(self.cells(), given.take(i as int)),
                names.len() == columns@.len(),
                columns@.len() <= i,
                forall|k: int|
                    0 <= k < names.len() ==> self.cells().dom().contains(#[trigger] names[k])
                        && self.cells()[names[k]] == Cells::Float(columns@[k]@),
        {
            proof {
                assert(given.take(i + 1).drop_last() =~= given.take(i as int));
                assert(given.take(i + 1).last() == column_names@[i as int]@);
            }
            if let Some(c) = self.get_float(column_names[i]) {
                columns.push(c);
                proof {
                    names = names.push(given[i as int]);
                }
            }
        }
        assert(given.take(asked as int) =~= given);
        let ncols: usize = columns.len();
        let ghost nc = ncols as int;
        let ghost want = cell_matrix(self.cells(), names);
        assert(nrows * nc <= nrows * asked) by (nonlinear_arith)
            requires
                nc <= asked,
                0 <= nrows,
        ;
        let mut data: Vec<S> = Vec::new();
        assert(0 * nc == 0) by (nonlinear_arith);
        for row in 0..nrows
            invariant
                data@.len() == row * nc,
                forall|x: int|
                    0 <= x < row * nc ==> #[trigger] data@[x] == want(
                        blas::row_of(x, nc),
                        blas::col_of(x, nc),
                    ),
        {
            for col in 0..ncols
                invariant
                    data@.len() == row * nc + col,
                    forall|x: int|
                        0 <= x < row * nc + col ==> #[trigger] data@[x] == want(
                            blas::row_of(x, nc),
                            blas::col_of(x, nc),
                        ),
            {
                proof {
                    blas::lemma_cell(row as int, col as int, nc);
                }
                assert(self.cells()[names[col as int]] == Cells::Float(columns@[col as int]@));
                let c = columns[col];
                let val = if row < c.len() {
                    c[row]
                } else {
                    S::zero()
                };
                data.push(val);
            }
            assert(row * nc + nc == (row + 1) * nc) by (nonlinear_arith);
        }
        let shape: Vec<usize> = vec![nrows, ncols];
        proof {
            assert(shape@ =~= seq![nrows, ncols]);
            tensor::lemma_volume_two(nrows, ncols);
            blas::lemma_holds_from(data@, want, nrows as int, nc);
        }
        Tensor::from_vec(data, shape)
    }

    /// The token numbers of a column of texts, each row cut or filled up with zeros to
    /// `max_len`. The token numbers of each text are given.
    #[verifier::loop_isolation(false)]
    pub fn to_token_tensor(
        &self,
        column_name: &str,
        encoded: &[Vec<usize>],
        max_len: usize,
    ) -> (r: Tensor<S>)
        requires
            self.wf(),
            encoded@.len() == text_rows(self.cells(), column_name@),
            encoded@.len() * max_len <= usize::MAX,
        ensures
            r.wf(),
            r.shape@ == seq![encoded@.len() as usize, max_len],
            blas::holds(
                r.data@,
                token_matrix::<S>(encoded@),
                encoded@.len() as int,
                max_len as int,
            ),
    {
        let nrows: usize = encoded.len();
        let ghost nc = max_len as int;
        let ghost want = token_matrix::<S>(encoded@);
        let mut data: Vec<S> = Vec::new();
        assert(0 * nc == 0) by (nonlinear_arith);
        for row in 0..nrows
            invariant
                data@.len() == row * nc,
                forall|x: int|
                    0 <= x < row * nc ==> #[trigger] data@[x] == want(
                        blas::row_of(x, nc),
                        blas::col_of(x, nc),
                    ),
        {
            let ids = &encoded[row];
            for col in 0..max_len
                invariant
                    data@.len() == row * nc + col,
                    forall|x: int|
                        0 <= x < row * nc + col ==> #[trigger] data@[x] == want(
                            blas::row_of(x, nc),
                            blas::col_of(x, nc),
                        ),
            {
                proof {
                    blas::lemma_cell(row as int, col as int, nc);
                }
                let id: usize = if col < ids.len() {
                    ids[col]
                } else {
                    0
                };
                data.push(S::count(id));
            }
            assert(row * nc + nc == (row + 1) * nc) by (nonlinear_arith);
        }
        let shape: Vec<usize> = vec![nrows, max_len];
        proof {
            assert(shape@ =~= seq![nrows, max_len]);
            tensor::lemma_volume_two(nrows, max_len);
            blas::lemma_holds_from(data@, want, nrows as int, nc);
        }
        Tensor::from_vec(data, shape)
    }

    /// A description: the source, the number of rows, and each column with its type and length.
    pub fn summary(&self) -> (r: String)
        requires
            self.wf(),
        ensures
            r@ == "Dataset (source: "@ + self.source@ + ")\n  rows: "@ + text::digits(
                self.num_rows as nat,
            ) + "\n  columns ("@ + text::digits(self.columns.names().len()) + "):\n"@
                + text::joined(
                column_lines(self.columns, self.columns.names().len() as int),
                "\n"@,
            ),
    {
        let names = self.columns.sorted_names();
        let ghost sorted = table::ordered(self.columns.names());
        proof {
            table::lemma_ordered_len(self.columns.names());
        }
        let mut infos: Vec<Vec<char>> = Vec::new();
        let n: usize = names.len();
        assert(text::views(names@).len() == n);
        for i in 0..n
            invariant
                self.wf(),
                n == names@.len(),
                sorted == table::ordered(self.columns.names()),
                text::views(names@) == sorted,
                text::views(infos@) =~= column_lines(self.columns, i as int),
        {
            let key = string_of(&names[i]);
            assert(key@ == sorted[i as int]) by {
                assert(text::views(names@)[i as int] == names@[i as int]@);
            }
            proof {
                table::lemma_ordered_has(self.columns, i as int);
            }
            let col = self.columns.get(key.as_str()).unwrap();
            let mut line: Vec<char> = Vec::new();
            push_text(&mut line, "  ");
            push_text(&mut line, key.as_str());
            push_text(&mut line, ": ");
            if col.is_numeric() {
                push_text(&mut line, "f32");
            } else {
                push_text(&mut line, "str");
            }
            push_text(&mut line, "[");
            push_decimal(&mut line, col.len() as u64);
            push_text(&mut line, "]");
            proof {
                assert(self.columns@[sorted[i as int]]@ == self.cells()[sorted[i as int]]);
                assert(line@ =~= column_line(sorted[i as int], self.cells()[sorted[i as int]]));
            }
            let ghost before = text::views(infos@);
            let ghost ll = line@;
            infos.push(line);
            assert(text::views(infos@) =~= before.push(ll));
        }
        let mut out: Vec<char> = Vec::new();
        push_text(&mut out, "Dataset (source: ");
        push_text(&mut out, self.source.as_str());
        push_text(&mut out, ")\n  rows: ");
        push_decimal(&mut out, self.num_rows as u64);
        push_text(&mut out, "\n  columns (");
        push_decimal(&mut out, n as u64);
        push_text(&mut out, "):\n");
        let body = join(&infos, "\n");
        text::push_chars(&mut out, &body);
        string_of(&out)
    }

    /// The columns between two rows, under another source.
    fn rows_between(&self, source: &str, i: usize, j: usize, rows: usize) -> (r: Self)
        requires
            self.wf(),
            i <= j,
            reaches(self.cells(), j as int),
            j - i <= rows,
        ensures
            r.wf(),
            r.source@ == source@,
            r.num_rows == rows,
            r.cells() == part_of(self.cells(), i as int, j as int),
            r.columns.names() == self.columns.names(),
    {
        let mut sub: Dataset<S> = Dataset::new(source);
        sub.num_rows = rows;
        let n: usize = self.columns.entries.len();
        assert(self.columns.names().take(0) =~= Seq::<Seq<char>>::empty());
        for k in 0..n
            invariant
                n == self.columns.entries@.len(),
                self.wf(),
                i <= j,
                j - i <= rows,
                reaches(self.cells(), j as int),
                sub.wf(),
                sub.source@ == source@,
                sub.num_rows == rows,
                sub.columns.names() =~= self.columns.names().take(k as int),
                forall|name: Seq<char>|
                    sub.cells().dom().contains(name) <==> exists|e: int|
                        e < k && table::at_name(self.columns.entries@, name, e),
                forall|e: int|
                    0 <= e < k ==> sub.cells()[(#[trigger] self.columns.entries@[e]).0@]
                        == self.columns.entries@[e].1@.between(i as int, j as int),
        {
            let ghost before = sub;
            let ghost name = self.columns.entries@[k as int].0@;
            proof {
                self.columns.lemma_at(k as int);
                assert(self.cells().dom().contains(name));
                assert(self.cells()[name] == self.columns.entries@[k as int].1@);
                if before.cells().dom().contains(name) {
                    let e = choose|e: int|
                        e < k && table::at_name(self.columns.entries@, name, e);
                    assert(self.columns.entries@[e].0@ != self.columns.entries@[k as int].0@);
                }
            }
            let c = self.columns.entries[k].1.between(i, j);
            sub.add_column(self.columns.entries[k].0.as_str(), c);
            proof {
                assert forall|nm: Seq<char>| sub.cells().dom().contains(nm) <==> exists|e: int|
                    e < k + 1 && table::at_name(self.columns.entries@, nm, e) by {
                    if sub.cells().dom().contains(nm) {
                        if nm == name {
                            assert(table::at_name(self.columns.entries@, nm, k as int));
                        } else {
                            let e = choose|e: int|
                                e < k && table::at_name(self.columns.entries@, nm, e);
                            assert(e < k + 1 && table::at_name(self.columns.entries@, nm, e));
                        }
                    }
                    if exists|e: int| e < k + 1 && table::at_name(self.columns.entries@, nm, e) {
                        let e = choose|e: int|
                            e < k + 1 && table::at_name(self.columns.entries@, nm, e);
                        if e < k {
                            assert(e < k && table::at_name(self.columns.entries@, nm, e));
                        }
                    }
                }
                assert forall|e: int| 0 <= e < k + 1 implies sub.cells()[(
                #[trigger] self.columns.entries@[e]).0@] == self.columns.entries@[e].1@.between(
                    i as int,
                    j as int,
                ) by {
                    if e < k {
                        assert(self.columns.entries@[e].0@ != self.columns.entries@[k as int].0@);
                    }
                }
                assert(self.columns.names().take(k + 1) =~= self.columns.names().take(
                    k as int,
                ).push(name));
            }
        }
        proof {
            assert(self.columns.names().take(n as int) =~= self.columns.names());
            let want = part_of(self.cells(), i as int, j as int);
            assert forall|nm: Seq<char>| sub.cells().dom().contains(nm) <==> want.dom().contains(
                nm,
            ) by {
                if sub.cells().dom().contains(nm) {
                    let e = choose|e: int| e < n && table::at_name(self.columns.entries@, nm, e);
                    self.columns.lemma_at(e);
                }
                if want.dom().contains(nm) {
                    let e = self.columns.lemma_has(nm);
                    assert(e < n && table::at_name(self.columns.entries@, nm, e));
                }
            }
            assert forall|nm: Seq<char>| sub.cells().dom().contains(nm) implies sub.cells()[nm]
                == want[nm] by {
                let e = choose|e: int| e < n && table::at_name(self.columns.entries@, nm, e);
                self.columns.lemma_at(e);
                assert(sub.cells()[self.columns.entries@[e].0@]
                    == self.columns.entries@[e].1@.between(i as int, j as int));
            }
            assert(sub.cells() =~= want);
        }
        sub
    }

    /// The first `n` rows.
    pub fn head(&self, n: usize) -> (r: Self)
        requires
            self.wf(),
            reaches(
                self.cells(),
                if n < self.num_rows {
                    n as int
                } else {
                    self.num_rows as int
                },
            ),
        ensures
            r.wf(),
            r.source@ == self.source@,
            r.num_rows == (if n < self.num_rows {
                n
            } else {
                self.num_rows
            }),
            r.cells() == part_of(self.cells(), 0, r.num_rows as int),
            r.columns.names() == self.columns.names(),
    {
        let rows: usize = if n < self.num_rows {
            n
        } else {
            self.num_rows
        };
        self.rows_between(self.source.as_str(), 0, rows, rows)
    }

    /// The rows up to a ratio of them, and the rest.
    pub fn train_test_split(&self, ratio: S) -> (r: (Self, Self))
        requires
            self.wf(),
            split_row(self.num_rows, ratio) <= self.num_rows,
            forall|k: Seq<char>| #[trigger]
                self.cells().dom().contains(k) ==> split_row(self.num_rows, ratio)
                    <= self.cells()[k].len() <= self.num_rows,
        ensures
            r.0.wf() && r.1.wf(),
            r.0.source@ == self.source@ + " (train)"@,
            r.1.source@ == self.source@ + " (test)"@,
            r.0.num_rows == split_row(self.num_rows, ratio),
            r.1.num_rows == self.num_rows - split_row(self.num_rows, ratio),
            r.0.cells() == part_of(self.cells(), 0, split_row(self.num_rows, ratio)),
            r.1.cells() == rest_of(self.cells(), split_row(self.num_rows, ratio)),
            r.0.columns.names() == self.columns.names(),
            r.1.columns.names() == self.columns.names(),
    {
        let w: i64 = S::count(self.num_rows).times(ratio).whole();
        let at: usize = if w < 0 {
            0
        } else {
            w as usize
        };
        let mut name: Vec<char> = chars_of(self.source.as_str());
        push_text(&mut name, " (train)");
        let train_name = string_of(&name);
        let mut name: Vec<char> = chars_of(self.source.as_str());
        push_text(&mut name, " (test)");
        let test_name = string_of(&name);
        let train = self.rows_between(train_name.as_str(), 0, at, at);
        let test = self.rows_from(test_name.as_str(), at, self.num_rows - at);
        (train, test)
    }

    /// The columns from a row on, under another source.
    fn rows_from(&self, source: &str, at: usize, rows: usize) -> (r: Self)
        requires
            self.wf(),
            forall|k: Seq<char>| #[trigger]
                self.cells().dom().contains(k) ==> at <= self.cells()[k].len() <= at + rows,
        ensures
            r.wf(),
            r.source@ == source@,
            r.num_rows == rows,
            r.cells() == rest_of(self.cells(), at as int),
            r.columns.names() == self.columns.names(),
    {
        let mut sub: Dataset<S> = Dataset::new(source);
        sub.num_rows = rows;
        let n: usize = self.columns.entries.len();
        assert(self.columns.names().take(0) =~= Seq::<Seq<char>>::empty());
        for k in 0..n
            invariant
                n == self.columns.entries@.len(),
                self.wf(),
                forall|nm: Seq<char>| #[trigger]
                    self.cells().dom().contains(nm) ==> at <= self.cells()[nm].len() <= at + rows,
                sub.wf(),
                sub.source@ == source@,
                sub.num_rows == rows,
                sub.columns.names() =~= self.columns.names().take(k as int),
                forall|name: Seq<char>|
                    sub.cells().dom().contains(name) <==> exists|e: int|
                        e < k && table::at_name(self.columns.entries@, name, e),
                forall|e: int|
                    0 <= e < k ==> sub.cells()[(#[trigger] self.columns.entries@[e]).0@]
                        == self.columns.entries@[e].1@.between(
                        at as int,
                        self.columns.entries@[e].1@.len() as int,
                    ),
        {
            let ghost before = sub;
            let ghost name = self.columns.entries@[k as int].0@;
            proof {
                self.columns.lemma_at(k as int);
                assert(self.cells().dom().contains(name));
                assert(self.cells()[name] == self.columns.entries@[k as int].1@);
                if before.cells().dom().contains(name) {
                    let e = choose|e: int|
                        e < k && table::at_name(self.columns.entries@, name, e);
                    assert(self.columns.entries@[e].0@ != self.columns.entries@[k as int].0@);
                }
            }
            let len: usize = self.columns.entries[k].1.len();
            let c = self.columns.entries[k].1.between(at, len);
            sub.add_column(self.columns.entries[k].0.as_str(), c);
            proof {
                assert forall|nm: Seq<char>| sub.cells().dom().contains(nm) <==> exists|e: int|
                    e < k + 1 && table::at_name(self.columns.entries@, nm, e) by {
                    if sub.cells().dom().contains(nm) {
                        if nm == name {
                            assert(table::at_name(self.columns.entries@, nm, k as int));
                        } else {
                            let e = choose|e: int|
                                e < k && table::at_name(self.columns.entries@, nm, e);
                            assert(e < k + 1 && table::at_name(self.columns.entries@, nm, e));
                        }
                    }
                    if exists|e: int| e < k + 1 && table::at_name(self.columns.entries@, nm, e) {
                        let e = choose|e: int|
                            e < k + 1 && table::at_name(self.columns.entries@, nm, e);
                        if e < k {
                            assert(e < k && table::at_name(self.columns.entries@, nm, e));
                        }
                    }
                }
                assert forall|e: int| 0 <= e < k + 1 implies sub.cells()[(
                #[trigger] self.columns.entries@[e]).0@] == self.columns.entries@[e].1@.between(
                    at as int,
                    self.columns.entries@[e].1@.len() as int,
                ) by {
                    if e < k {
                        assert(self.columns.entries@[e].0@ != self.columns.entries@[k as int].0@);
                    }
                }
                assert(self.columns.names().take(k + 1) =~= self.columns.names().take(
                    k as int,
                ).push(name));
            }
        }
        proof {
            assert(self.columns.names().take(n as int) =~= self.columns.names());
            let want = rest_of(self.cells(), at as int);
            assert forall|nm: Seq<char>| sub.cells().dom().contains(nm) <==> want.dom().contains(
                nm,
            ) by {
                if sub.cells().dom().contains(nm) {
                    let e = choose|e: int| e < n && table::at_name(self.columns.entries@, nm, e);
                    self.columns.lemma_at(e);
                }
                if want.dom().contains(nm) {
                    let e = self.columns.lemma_has(nm);
                    assert(e < n && table::at_name(self.columns.entries@, nm, e));
                }
            }
            assert forall|nm: Seq<char>| sub.cells().dom().contains(nm) implies sub.cells()[nm]
                == want[nm] by {
                let e = choose|e: int| e < n && table::at_name(self.columns.entries@, nm, e);
                self.columns.lemma_at(e);
                assert(sub.cells()[self.columns.entries@[e].0@]
                    == self.columns.entries@[e].1@.between(
                    at as int,
                    self.columns.entries@[e].1@.len() as int,
                ));
            }
            assert(sub.cells() =~= want);
        }
        sub
    }
}

/// Each column from a row on.
pub open spec fn rest_of<S>(cells: Map<Seq<char>, Cells<S>>, at: int) -> Map<
    Seq<char>,
    Cells<S>,
> {
    cells.map_values(|c: Cells<S>| c.between(at, c.len() as int))
}

/// How many texts a column has; a column of numbers has none.
pub open spec fn text_rows<S>(cells: Map<Seq<char>, Cells<S>>, name: Seq<char>) -> nat {
    if cells.dom().contains(name) {
        match cells[name] {
            Cells::Text(v) => v.len(),
            Cells::Float(_) => 0,
        }
    } else {
        0
    }
}

/// The token number at a position, or zero beyond the last.
pub open spec fn token_value<S: Real>(ids: Seq<usize>, i: int) -> S {
    S::spec_count(
        if i < ids.len() {
            ids[i]
        } else {
            0
        },
    )
}

/// The parts of a split, one after the other, are the whole.
pub proof fn lemma_split_is_whole<S>(cells: Map<Seq<char>, Cells<S>>, at: int, k: Seq<char>)
    requires
        cells.dom().contains(k),
        0 <= at <= cells[k].len(),
    ensures
        match (part_of(cells, 0, at)[k], rest_of(cells, at)[k], cells[k]) {
            (Cells::Float(a), Cells::Float(b), Cells::Float(c)) => a + b == c,
            (Cells::Text(a), Cells::Text(b), Cells::Text(c)) => a + b == c,
            _ => false,
        },
{
    match cells[k] {
        Cells::Float(c) => {
            assert(c.subrange(0, at) + c.subrange(at, c.len() as int) =~= c);
        },
        Cells::Text(c) => {
            assert(c.subrange(0, at) + c.subrange(at, c.len() as int) =~= c);
        },
    }
}

// ---- Delimited text

/// How far the reading of a line has come.
#[verifier::ext_equal]
pub struct LineState {
    pub fields: Seq<Seq<char>>,
    pub current: Seq<char>,
    pub quoted: bool,
}

/// The state after one more character: quotes are dropped, and a delimiter outside quotes ends
/// a field.
pub open spec fn line_step(st: LineState, c: char, delimiter: char) -> LineState {
    if c == '"' {
        LineState { quoted: !st.quoted, ..st }
    } else if c == delimiter && !st.quoted {
        LineState { fields: st.fields.push(st.current), current: Seq::empty(), ..st }
    } else {
        LineState { current: st.current.push(c), ..st }
    }
}

pub open spec fn line_run(s: Seq<char>, delimiter: char) -> LineState
    decreases s.len(),
{
    if s.len() == 0 {
        LineState { fields: Seq::empty(), current: Seq::empty(), quoted: false }
    } else {
        line_step(line_run(s.drop_last(), delimiter), s.last(), delimiter)
    }
}

/// The fields of a line.
pub open spec fn line_fields(s: Seq<char>, delimiter: char) -> Seq<Seq<char>> {
    let st = line_run(s, delimiter);
    st.fields.push(st.current)
}

fn parse_line(s: &[char], delimiter: char) -> (r: Vec<String>)
    ensures
        text::texts(r@) == line_fields(s@, delimiter),
{
    let mut fields: Vec<String> = Vec::new();
    let mut current: Vec<char> = Vec::new();
    let mut quoted = false;
    assert(s@.take(0) =~= Seq::<char>::empty());
    assert(text::texts(fields@) =~= Seq::<Seq<char>>::empty());
    for i in 0..s.len()
        invariant
            line_run(s@.take(i as int), delimiter) =~= (LineState {
                fields: text::texts(fields@),
                current: current@,
                quoted,
            }),
    {
        let c = s[i];
        proof {
            assert(s@.take(i + 1).drop_last() =~= s@.take(i as int));
            assert(s@.take(i + 1).last() == c);
        }
        if c == '"' {
            quoted = !quoted;
        } else if c == delimiter && !quoted {
            let ghost before = text::texts(fields@);
            let f = string_of(&current);
            fields.push(f);
            assert(text::texts(fields@) =~= before.push(f@));
            current = Vec::new();
            assert(current@ =~= Seq::<char>::empty());
        } else {
            current.push(c);
        }
    }
    assert(s@.take(s@.len() as int) =~= s@);
    let ghost before = text::texts(fields@);
    let f = string_of(&current);
    fields.push(f);
    assert(text::texts(fields@) =~= before.push(f@));
    fields
}

/// The fields of a line; a delimiter within quotes does not end a field.
pub fn parse_csv_line(line: &str, delimiter: char) -> (r: Vec<String>)
    ensures
        text::texts(r@) == line_fields(line@, delimiter),
{
    let v = chars_of(line);
    parse_line(&v, delimiter)
}

/// The lines that are not blank.
pub open spec fn kept(v: Seq<Seq<char>>) -> Seq<Seq<char>>
    decreases v.len(),
{
    if v.len() == 0 {
        Seq::empty()
    } else {
        let rest = kept(v.drop_last());
        if text::trimmed(v.last()).len() > 0 {
            rest.push(v.last())
        } else {
            rest
        }
    }
}

fn kept_lines(content: &str) -> (r: Vec<Vec<char>>)
    ensures
        text::views(r@) == kept(text::lines_of(content@)),
{
    let s = chars_of(content);
    let all = lines(&s);
    let ghost lv = text::views(all@);
    let mut r: Vec<Vec<char>> = Vec::new();
    assert(lv.take(0) =~= Seq::<Seq<char>>::empty());
    assert(text::views(r@) =~= Seq::<Seq<char>>::empty());
    for i in 0..all.len()
        invariant
            lv == text::views(all@),
            text::views(r@) =~= kept(lv.take(i as int)),
    {
        proof {
            assert(lv.take(i + 1).drop_last() =~= lv.take(i as int));
            assert(lv.take(i + 1).last() == all@[i as int]@);
        }
        let t = trim(&all[i]);
        if t.len() > 0 {
            let ghost before = text::views(r@);
            let line = copy_slice(&all[i]);
            r.push(line);
            assert(text::views(r@) =~= before.push(line@));
        }
    }
    assert(lv.take(lv.len() as int) =~= lv);
    r
}

/// The fields of the lines.
pub open spec fn fields_of_lines(v: Seq<Seq<char>>, delimiter: char) -> Seq<Seq<Seq<char>>> {
    Seq::new(v.len(), |i: int| line_fields(v[i], delimiter))
}

/// The field with number `i` of each row that has one.
pub open spec fn field_column(rows: Seq<Seq<Seq<char>>>, i: int) -> Seq<Seq<char>>
    decreases rows.len(),
{
    if rows.len() == 0 {
        Seq::empty()
    } else {
        let rest = field_column(rows.drop_last(), i);
        if i < rows.last().len() {
            rest.push(rows.last()[i])
        } else {
            rest
        }
    }
}

/// The first `n` columns under their headers; where a header comes twice, the last column counts.
pub open spec fn headed_columns<S: Textual>(
    headers: Seq<Seq<char>>,
    rows: Seq<Seq<Seq<char>>>,
    n: int,
) -> Map<Seq<char>, Cells<S>>
    decreases n,
{
    if n <= 0 {
        Map::empty()
    } else {
        headed_columns::<S>(headers, rows, n - 1).insert(
            headers[n - 1],
            inferred::<S>(field_column(rows, n - 1), true),
        )
    }
}

/// The length of the longest of the first `n` columns.
pub open spec fn longest_field_column(rows: Seq<Seq<Seq<char>>>, n: int) -> nat
    decreases n,
{
    if n <= 0 {
        0
    } else {
        max_of(longest_field_column(rows, n - 1), field_column(rows, n - 1).len())
    }
}

proof fn lemma_inferred_len<S: Textual>(v: Seq<Seq<char>>, trims: bool)
    ensures
        inferred::<S>(v, trims).len() == v.len(),
{
}

/// The delimiter of a file, by its name: a tab in a file of tabulated values, or else a comma.
pub fn delimiter_of(path: &str) -> (r: char)
    ensures
        r == (if text::ends(path@, ".tsv"@) {
            '\t'
        } else {
            ','
        }),
{
    if ends_with(&chars_of(path), ".tsv") {
        '\t'
    } else {
        ','
    }
}

/// The dataset is the one that a text with at least one line that is not blank stands for.
pub open spec fn is_parsed<S: Textual>(d: Dataset<S>, content: Seq<char>, delimiter: char) -> bool {
    let all = kept(text::lines_of(content));
    let headers = line_fields(all[0], delimiter);
    let rows = fields_of_lines(all.skip(1), delimiter);
    &&& d.wf()
    &&& d.source@ == "csv"@
    &&& d.cells() == headed_columns::<S>(headers, rows, headers.len() as int)
    &&& d.num_rows == longest_field_column(rows, headers.len() as int)
}

/// A dataset from text: the first line that is not blank has the headers, each other one a row.
#[verifier::loop_isolation(false)]
pub fn parse_delimited<S: Textual>(content: &str, delimiter: char) -> (r: Result<
    Dataset<S>,
    String,
>)
    ensures
        ({
            let all = kept(text::lines_of(content@));
            match r {
                Ok(d) => all.len() > 0 && is_parsed(d, content@, delimiter),
                Err(e) => all.len() == 0 && e@ == "empty file"@,
            }
        }),
{
    let all = kept_lines(content);
    let ghost av = text::views(all@);
    assert(av.len() == all@.len());
    if all.len() == 0 {
        return Err(owned("empty file"));
    }
    let headers = parse_line(&all[0], delimiter);
    let ghost hv = text::texts(headers@);
    let width: usize = headers.len();
    let ghost rows = fields_of_lines(av.skip(1), delimiter);
    let mut columns: Vec<Vec<String>> = Vec::new();
    for i in 0..width
        invariant
            columns@.len() == i,
            forall|c: int| 0 <= c < i ==> text::texts((#[trigger] columns@[c])@) == field_column(
                rows.take(0),
                c,
            ),
    {
        let fresh: Vec<String> = Vec::new();
        assert(text::texts(fresh@) =~= field_column(rows.take(0), i as int));
        columns.push(fresh);
    }
    for k in 1..all.len()
        invariant
            columns@.len() == width,
            forall|c: int|
                0 <= c < width ==> text::texts((#[trigger] columns@[c])@) == field_column(
                    rows.take(k - 1),
                    c,
                ),
    {
        let fields = parse_line(&all[k], delimiter);
        let ghost fv = text::texts(fields@);
        proof {
            assert(av.skip(1)[k - 1] == all@[k as int]@);
            assert(rows[k - 1] == fv);
            assert(rows.take(k as int).drop_last() =~= rows.take(k - 1));
            assert(rows.take(k as int).last() == fv);
        }
        for i in 0..fields.len()
            invariant
                columns@.len() == width,
                forall|c: int|
                    0 <= c < width ==> text::texts((#[trigger] columns@[c])@) == field_column(
                        if c < i {
                            rows.take(k as int)
                        } else {
                            rows.take(k - 1)
                        },
                        c,
                    ),
        {
            if i < width {
                let ghost before = columns@[i as int]@;
                let cell = owned(fields[i].as_str());
                assert(cell@ == fv[i as int]);
                columns[i].push(cell);
                assert(text::texts(columns@[i as int]@) =~= text::texts(before).push(cell@));
            }
        }
    }
    proof {
        assert(rows.take(all@.len() - 1) =~= rows);
    }
    let mut dataset: Dataset<S> = Dataset::new("csv");
    for i in 0..width
        invariant
            dataset.wf(),
            dataset.source@ == "csv"@,
            dataset.cells() == headed_columns::<S>(hv, rows, i as int),
            dataset.num_rows == longest_field_column(rows, i as int),
    {
        assert(text::texts(columns@[i as int]@) == field_column(rows, i as int));
        assert(headers@[i as int]@ == hv[i as int]);
        let c = infer::<S>(&columns[i], true);
        proof {
            lemma_inferred_len::<S>(field_column(rows, i as int), true);
        }
        dataset.add_column(headers[i].as_str(), c);
    }
    Ok(dataset)
}

// ---- Lines of objects

/// The pairs of all objects, one object per line.
pub open spec fn all_pairs(v: Seq<Seq<char>>) -> Seq<(Seq<char>, Seq<char>)>
    decreases v.len(),
{
    if v.len() == 0 {
        Seq::empty()
    } else {
        all_pairs(v.drop_last()) + json::object_pairs(v.last())
    }
}

/// The values under a name, in order.
pub open spec fn values_for(pairs: Seq<(Seq<char>, Seq<char>)>, name: Seq<char>) -> Seq<Seq<char>>
    decreases pairs.len(),
{
    if pairs.len() == 0 {
        Seq::empty()
    } else {
        let rest = values_for(pairs.drop_last(), name);
        if pairs.last().0 == name {
            rest.push(pairs.last().1)
        } else {
            rest
        }
    }
}

/// Whether a name occurs.
pub open spec fn has_value(pairs: Seq<(Seq<char>, Seq<char>)>, name: Seq<char>) -> bool {
    values_for(pairs, name).len() > 0
}

/// The columns that the values make.
pub open spec fn value_columns<S: Textual>(pairs: Seq<(Seq<char>, Seq<char>)>) -> Map<
    Seq<char>,
    Cells<S>,
> {
    Map::new(
        |k: Seq<char>| has_value(pairs, k),
        |k: Seq<char>| inferred::<S>(values_for(pairs, k), true),
    )
}

/// The number is the length of the longest column, or zero where there is none.
pub open spec fn is_longest<S>(n: nat, cells: Map<Seq<char>, Cells<S>>) -> bool {
    &&& forall|k: Seq<char>| #[trigger] cells.dom().contains(k) ==> cells[k].len() <= n
    &&& n == 0 || exists|k: Seq<char>| #[trigger] cells.dom().contains(k) && cells[k].len() == n
}

/// The table holds the values under each name.
spec fn gathers(t: Table<Vec<String>>, pairs: Seq<(Seq<char>, Seq<char>)>) -> bool {
    &&& t.wf()
    &&& forall|k: Seq<char>| #[trigger] t@.dom().contains(k) <==> has_value(pairs, k)
    &&& forall|k: Seq<char>| #[trigger]
        t@.dom().contains(k) ==> text::texts(t@[k]@) == values_for(pairs, k)
}

fn gather(t: &mut Table<Vec<String>>, name: &str, value: String, Ghost(pairs): Ghost<
    Seq<(Seq<char>, Seq<char>)>,
>)
    requires
        gathers(*old(t), pairs),
    ensures
        gathers(*final(t), pairs.push((name@, value@))),
{
    let ghost before = *t;
    let ghost v = value@;
    t.append(name, value);
    proof {
        let more = pairs.push((name@, v));
        assert(more.drop_last() =~= pairs);
        assert forall|k: Seq<char>| #[trigger] t@.dom().contains(k) <==> has_value(more, k) by {
            assert(before@.dom().contains(k) <==> has_value(pairs, k));
        }
        assert forall|k: Seq<char>| #[trigger] t@.dom().contains(k) implies text::texts(t@[k]@)
            == values_for(more, k) by {
            assert(before@.dom().contains(k) <==> has_value(pairs, k));
            if k == name@ {
                if before@.dom().contains(k) {
                    assert(text::texts(t@[k]@) =~= text::texts(before@[k]@).push(v));
                } else {
                    assert(values_for(pairs, k) =~= Seq::<Seq<char>>::empty());
                    assert(text::texts(t@[k]@) =~= Seq::<Seq<char>>::empty().push(v));
                }
            }
        }
    }
}

/// A dataset from text with an object in each line that is not blank.
#[verifier::loop_isolation(false)]
pub fn parse_jsonl<S: Textual>(content: &str) -> (r: Dataset<S>)
    ensures
        r.wf(),
        r.source@ == "jsonl"@,
        r.cells() == value_columns::<S>(all_pairs(kept(text::lines_of(content@)))),
        is_longest(r.num_rows as nat, r.cells()),
{
    let all = kept_lines(content);
    let ghost av = text::views(all@);
    let mut data: Table<Vec<String>> = Table::new();
    assert(av.take(0) =~= Seq::<Seq<char>>::empty());
    for i in 0..all.len()
        invariant
            gathers(data, all_pairs(av.take(i as int))),
    {
        let ghost sofar = all_pairs(av.take(i as int));
        let pairs = parse_object(&all[i]);
        let ghost pv = json::pair_texts(pairs@);
        proof {
            assert(av.take(i + 1).drop_last() =~= av.take(i as int));
            assert(av.take(i + 1).last() == all@[i as int]@);
            assert(sofar + pv.take(0) =~= sofar);
        }
        for j in 0..pairs.len()
            invariant
                gathers(data, sofar + pv.take(j as int)),
        {
            let value = owned(pairs[j].1.as_str());
            gather(&mut data, pairs[j].0.as_str(), value, Ghost(sofar + pv.take(j as int)));
            proof {
                assert((sofar + pv.take(j as int)).push(pv[j as int]) =~= sofar + pv.take(j + 1));
            }
        }
        assert(pv.take(pv.len() as int) =~= pv);
    }
    assert(av.take(av.len() as int) =~= av);
    let ghost pairs = all_pairs(av);
    let mut dataset: Dataset<S> = Dataset::new("jsonl");
    let n: usize = data.entries.len();
    for i in 0..n
        invariant
            dataset.wf(),
            dataset.source@ == "jsonl"@,
            forall|k: Seq<char>|
                #![trigger dataset.cells().dom().contains(k)]
                dataset.cells().dom().contains(k) <==> exists|e: int|
                    e < i && table::at_name(data.entries@, k, e),
            forall|k: Seq<char>| #[trigger]
                dataset.cells().dom().contains(k) ==> dataset.cells()[k] == inferred::<S>(
                    values_for(pairs, k),
                    true,
                ),
            is_longest(dataset.num_rows as nat, dataset.cells()),
    {
        let ghost before = dataset;
        let ghost name = data.entries@[i as int].0@;
        let c = infer::<S>(&data.entries[i].1, true);
        proof {
            data.lemma_at(i as int);
            lemma_inferred_len::<S>(values_for(pairs, name), true);
            if before.cells().dom().contains(name) {
                let e = choose|e: int| e < i && table::at_name(data.entries@, name, e);
                assert(data.entries@[e].0@ != data.entries@[i as int].0@);
            }
        }
        dataset.add_column(data.entries[i].0.as_str(), c);
        proof {
            assert forall|k: Seq<char>| #![trigger dataset.cells().dom().contains(k)]
                dataset.cells().dom().contains(k) <==> exists|e: int|
                    e < i + 1 && table::at_name(data.entries@, k, e) by {
                assert(dataset.cells().dom().contains(k) <==> k == name
                    || before.cells().dom().contains(k));
                if k == name {
                    assert(i < i + 1 && table::at_name(data.entries@, k, i as int));
                } else {
                    if before.cells().dom().contains(k) {
                        let e = choose|e: int| e < i && table::at_name(data.entries@, k, e);
                        assert(e < i + 1 && table::at_name(data.entries@, k, e));
                    }
                    if exists|e: int| e < i + 1 && table::at_name(data.entries@, k, e) {
                        let e = choose|e: int| e < i + 1 && table::at_name(data.entries@, k, e);
                        assert(e < i && table::at_name(data.entries@, k, e));
                    }
                }
            }
            let cells = dataset.cells();
            assert(cells.dom().contains(name));
            assert forall|k: Seq<char>| #[trigger] cells.dom().contains(k) implies cells[k].len()
                <= dataset.num_rows by {
                assert(k == name || before.cells().dom().contains(k));
            }
            if before.num_rows == dataset.num_rows && before.num_rows > 0 {
                let k = choose|k: Seq<char>| #[trigger]
                    before.cells().dom().contains(k) && before.cells()[k].len() == before.num_rows;
                assert(cells.dom().contains(k));
            }
        }
    }
    proof {
        let want = value_columns::<S>(pairs);
        assert forall|k: Seq<char>| dataset.cells().dom().contains(k) <==> want.dom().contains(
            k,
        ) by {
            assert(data@.dom().contains(k) <==> has_value(pairs, k));
            if dataset.cells().dom().contains(k) {
                let e = choose|e: int| e < n && table::at_name(data.entries@, k, e);
                data.lemma_at(e);
            }
            if want.dom().contains(k) {
                let e = data.lemma_has(k);
                assert(e < n && table::at_name(data.entries@, k, e));
            }
        }
        assert(dataset.cells().dom() =~= want.dom());
        assert forall|k: Seq<char>| want.dom().contains(k) implies dataset.cells()[k]
            == want[k] by {
            assert(dataset.cells().dom().contains(k));
        }
        assert(dataset.cells() =~= want);
    }
    dataset
}

// ---- Rows

/// The values of a column in rows; where a row has none, an empty text.
pub open spec fn row_column(rows: Seq<Map<Seq<char>, Seq<char>>>, name: Seq<char>) -> Seq<Seq<char>> {
    Seq::new(
        rows.len(),
        |i: int|
            if rows[i].dom().contains(name) {
                rows[i][name]
            } else {
                Seq::empty()
            },
    )
}

/// The columns of rows: those of the first row.
pub open spec fn row_columns<S: Textual>(rows: Seq<Map<Seq<char>, Seq<char>>>) -> Map<
    Seq<char>,
    Cells<S>,
> {
    Map::new(
        |k: Seq<char>| rows.len() > 0 && rows[0].dom().contains(k),
        |k: Seq<char>| inferred::<S>(row_column(rows, k), false),
    )
}

/// A dataset from rows: the columns are those of the first row, added in order of their names.
#[verifier::loop_isolation(false)]
pub fn dataset_from_rows<S: Textual>(source: &str, rows: &[Table<String>]) -> (r: Dataset<S>)
    requires
        json::rows_wf(rows@),
    ensures
        r.wf(),
        r.source@ == source@,
        r.cells() == row_columns::<S>(json::rows_texts(rows@)),
        is_longest(r.num_rows as nat, r.cells()),
{
    let mut dataset: Dataset<S> = Dataset::new(source);
    let ghost rv = json::rows_texts(rows@);
    let ghost want = row_columns::<S>(rv);
    if rows.len() == 0 {
        assert(dataset.cells() =~= want);
        return dataset;
    }
    assert(rows@[0].wf());
    let names = rows[0].sorted_names();
    let ghost nv = table::ordered(rows@[0].names());
    assert(rv[0].dom() =~= rows@[0]@.dom());
    for i in 0..names.len()
        invariant
            dataset.wf(),
            dataset.source@ == source@,
            forall|k: Seq<char>|
                #![trigger dataset.cells().dom().contains(k)]
                dataset.cells().dom().contains(k) <==> nv.take(i as int).contains(k),
            forall|k: Seq<char>| #[trigger]
                dataset.cells().dom().contains(k) ==> dataset.cells()[k] == inferred::<S>(
                    row_column(rv, k),
                    false,
                ),
            is_longest(dataset.num_rows as nat, dataset.cells()),
    {
        let ghost before = dataset;
        let key = string_of(&names[i]);
        assert(key@ == nv[i as int]) by {
            assert(text::views(names@)[i as int] == names@[i as int]@);
        }
        let mut values: Vec<String> = Vec::new();
        for k in 0..rows.len()
            invariant
                text::texts(values@) =~= row_column(rv, key@).take(k as int),
        {
            let ghost sofar = text::texts(values@);
            assert(rows@[k as int].wf());
            assert(rv[k as int] == json::row_texts(rows@[k as int]));
            let v = match rows[k].get(key.as_str()) {
                Some(s) => owned(s.as_str()),
                None => String::new(),
            };
            assert(v@ =~= row_column(rv, key@)[k as int]);
            values.push(v);
            assert(text::texts(values@) =~= sofar.push(v@));
        }
        assert(row_column(rv, key@).take(rv.len() as int) =~= row_column(rv, key@));
        let c = infer::<S>(&values, false);
        proof {
            lemma_inferred_len::<S>(row_column(rv, key@), false);
        }
        dataset.add_column(key.as_str(), c);
        proof {
            let name = key@;
            assert(nv.take(i + 1) =~= nv.take(i as int).push(name));
            let cells = dataset.cells();
            assert forall|k: Seq<char>| #![trigger dataset.cells().dom().contains(k)]
                dataset.cells().dom().contains(k) <==> nv.take(i + 1).contains(k) by {
                lemma_push_contains(nv.take(i as int), name, k);
                assert(dataset.cells().dom().contains(k) <==> k == name
                    || before.cells().dom().contains(k));
            }
            assert(cells.dom().contains(name));
            assert forall|k: Seq<char>| #[trigger] cells.dom().contains(k) implies cells[k].len()
                <= dataset.num_rows by {
                assert(k == name || before.cells().dom().contains(k));
            }
            if before.num_rows == dataset.num_rows && before.num_rows > 0 {
                let k = choose|k: Seq<char>| #[trigger]
                    before.cells().dom().contains(k) && before.cells()[k].len() == before.num_rows;
                assert(cells.dom().contains(k));
            }
        }
    }
    proof {
        assert(nv.take(nv.len() as int) =~= nv);
        assert forall|k: Seq<char>| dataset.cells().dom().contains(k) <==> want.dom().contains(
            k,
        ) by {
            table::lemma_names(rows@[0], k);
            table::lemma_ordered_contains(rows@[0].names(), k);
        }
        assert(dataset.cells().dom() =~= want.dom());
        assert forall|k: Seq<char>| want.dom().contains(k) implies dataset.cells()[k]
            == want[k] by {
            assert(dataset.cells().dom().contains(k));
        }
        assert(dataset.cells() =~= want);
    }
    dataset
}

pub(crate) proof fn lemma_push_contains(s: Seq<Seq<char>>, x: Seq<char>, k: Seq<char>)
    ensures
        s.push(x).contains(k) <==> s.contains(k) || k == x,
{
    let t = s.push(x);
    if s.contains(k) {
        let i = choose|i: int| 0 <= i < s.len() && s[i] == k;
        assert(t[i] == k);
    }
    if k == x {
        assert(t[s.len() as int] == k);
    }
    if t.contains(k) {
        let i = choose|i: int| 0 <= i < t.len() && t[i] == k;
        if i < s.len() {
            assert(s[i] == k);
        }
    }
}

// ---- Cache

/// A column as text.
pub open spec fn column_json<S: Textual>(name: Seq<char>, c: Cells<S>) -> Seq<char> {
    "\""@ + cache::escaped(name) + "\":{"@ + (match c {
        Cells::Float(v) => "\"type\":\"float\",\"values\":["@ + text::joined(
            Seq::new(v.len(), |i: int| v[i].spec_show()),
            ","@,
        ),
        Cells::Text(v) => "\"type\":\"text\",\"values\":["@ + text::joined(
            Seq::new(v.len(), |i: int| "\""@ + cache::escaped(v[i]) + "\""@),
            ","@,
        ),
    }) + "]"@ + "}"@
}

/// The columns as texts, in the order of their names.
pub open spec fn columns_json<S: Textual>(t: Table<Column<S>>, n: int) -> Seq<Seq<char>> {
    Seq::new(
        n as nat,
        |i: int|
            column_json(table::ordered(t.names())[i], cells_of(t)[table::ordered(t.names())[i]]),
    )
}

fn push_column<S: Textual>(out: &mut Vec<char>, name: &str, c: &Column<S>)
    ensures
        final(out)@ == old(out)@ + column_json(name@, c@),
{
    let ghost first = out@;
    push_text(out, "\"");
    cache::push_escaped(out, name);
    push_text(out, "\":{");
    match c {
        Column::Float(v) => {
            push_text(out, "\"type\":\"float\",\"values\":[");
            let mut parts: Vec<Vec<char>> = Vec::new();
            let ghost want = Seq::new(v@.len(), |i: int| v@[i].spec_show());
            for i in 0..v.len()
                invariant
                    want == Seq::new(v@.len(), |k: int| v@[k].spec_show()),
                    text::views(parts@) =~= want.take(i as int),
            {
                let ghost before = text::views(parts@);
                let p = v[i].show();
                parts.push(p);
                assert(text::views(parts@) =~= before.push(p@));
            }
            assert(want.take(want.len() as int) =~= want);
            let body = join(&parts, ",");
            text::push_chars(out, &body);
        },
        Column::Text(v) => {
            push_text(out, "\"type\":\"text\",\"values\":[");
            let mut parts: Vec<Vec<char>> = Vec::new();
            let ghost tv = text::texts(v@);
            let ghost want = Seq::new(
                tv.len(),
                |i: int| "\""@ + cache::escaped(tv[i]) + "\""@,
            );
            for i in 0..v.len()
                invariant
                    tv == text::texts(v@),
                    want == Seq::new(
                        tv.len(),
                        |k: int| "\""@ + cache::escaped(tv[k]) + "\""@,
                    ),
                    text::views(parts@) =~= want.take(i as int),
            {
                let ghost before = text::views(parts@);
                let mut p: Vec<char> = Vec::new();
                push_text(&mut p, "\"");
                cache::push_escaped(&mut p, v[i].as_str());
                push_text(&mut p, "\"");
                let ghost pp = p@;
                assert(pp =~= want[i as int]);
                parts.push(p);
                assert(text::views(parts@) =~= before.push(pp));
            }
            assert(want.take(want.len() as int) =~= want);
            let body = join(&parts, ",");
            text::push_chars(out, &body);
        },
    }
    push_text(out, "]");
    push_text(out, "}");
    assert(out@ =~= first + column_json(name@, c@));
}

/// The dataset as text.
pub open spec fn cache_text<S: Textual>(ds: Dataset<S>) -> Seq<char> {
    "{\"source\":\""@ + cache::escaped(ds.source@) + "\",\"num_rows\":"@ + text::digits(ds.num_rows as nat)
        + ",\"columns\":{"@ + text::joined(
        columns_json(ds.columns, ds.columns.names().len() as int),
        ","@,
    ) + "}}"@
}

/// The dataset as text, for keeping.
pub fn dataset_to_cache_json<S: Textual>(ds: &Dataset<S>) -> (r: String)
    requires
        ds.wf(),
    ensures
        r@ == cache_text(*ds),
{
    let names = ds.columns.sorted_names();
    let ghost sorted = table::ordered(ds.columns.names());
    proof {
        table::lemma_ordered_len(ds.columns.names());
    }
    let mut parts: Vec<Vec<char>> = Vec::new();
    let n: usize = names.len();
    assert(text::views(names@).len() == n);
    for i in 0..n
        invariant
            ds.wf(),
            n == names@.len(),
            sorted == table::ordered(ds.columns.names()),
            text::views(names@) == sorted,
            text::views(parts@) =~= columns_json(ds.columns, i as int),
    {
        let key = string_of(&names[i]);
        assert(key@ == sorted[i as int]) by {
            assert(text::views(names@)[i as int] == names@[i as int]@);
        }
        proof {
            table::lemma_ordered_has(ds.columns, i as int);
        }
        let col = ds.columns.get(key.as_str()).unwrap();
        let mut p: Vec<char> = Vec::new();
        push_column(&mut p, key.as_str(), col);
        proof {
            assert(ds.columns@[sorted[i as int]]@ == ds.cells()[sorted[i as int]]);
            assert(p@ =~= column_json(sorted[i as int], ds.cells()[sorted[i as int]]));
        }
        let ghost before = text::views(parts@);
        let ghost pp = p@;
        parts.push(p);
        assert(text::views(parts@) =~= before.push(pp));
    }
    let mut out: Vec<char> = Vec::new();
    push_text(&mut out, "{\"source\":\"");
    cache::push_escaped(&mut out, ds.source.as_str());
    push_text(&mut out, "\",\"num_rows\":");
    push_decimal(&mut out, ds.num_rows as u64);
    push_text(&mut out, ",\"columns\":{");
    let body = join(&parts, ",");
    text::push_chars(&mut out, &body);
    push_text(&mut out, "}}");
    string_of(&out)
}

/// The last position of a character, or minus one where it does not occur.
pub open spec fn last_position(s: Seq<char>, c: char) -> int
    decreases s.len(),
{
    if s.len() == 0 {
        -1
    } else if s.last() == c {
        s.len() - 1
    } else {
        last_position(s.drop_last(), c)
    }
}

proof fn lemma_last_position(s: Seq<char>, c: char, r: Option<usize>)
    requires
        text::last_of(s, c, r),
    ensures
        last_position(s, c) == (match r {
            Some(i) => i as int,
            None => -1,
        }),
    decreases s.len(),
{
    if s.len() > 0 && s.last() != c {
        let f = s.drop_last();
        assert(text::last_of(f, c, r)) by {
            match r {
                Some(i) => {
                    assert forall|j: int| i < j < f.len() implies #[trigger] f[j] != c by {
                        assert(s[j] != c);
                    }
                },
                None => {
                    assert forall|j: int| 0 <= j < f.len() implies #[trigger] f[j] != c by {
                        assert(s[j] != c);
                    }
                },
            }
        }
        lemma_last_position(f, c, r);
    }
}

/// Where the inside of an array begins: after the first bracket, or at the start.
pub open spec fn array_start(s: Seq<char>) -> int {
    let p = text::position(s, '[');
    if p < s.len() {
        p + 1
    } else {
        0
    }
}

/// Where the inside of an array ends: at the last bracket, or at the end.
pub open spec fn array_end(s: Seq<char>) -> int {
    let p = last_position(s, ']');
    if p >= 0 {
        p
    } else {
        s.len() as int
    }
}

/// The texts that can be read as numbers.
pub open spec fn numbers_in<S: Textual>(v: Seq<Seq<char>>) -> Seq<S>
    decreases v.len(),
{
    if v.len() == 0 {
        Seq::empty()
    } else {
        let rest = numbers_in::<S>(v.drop_last());
        match S::spec_read(text::trimmed(v.last())) {
            Some(x) => rest.push(x),
            None => rest,
        }
    }
}

/// The numbers between the brackets of an array.
pub open spec fn array_numbers<S: Textual>(s: Seq<char>) -> Seq<S> {
    numbers_in::<S>(text::split_on(s.subrange(array_start(s), array_end(s)), ','))
}

fn array_bounds(s: &[char]) -> (r: (usize, usize))
    ensures
        r.0 == array_start(s@),
        r.1 == array_end(s@),
        r.0 <= s@.len(),
        r.1 <= s@.len(),
{
    let len: usize = s.len();
    let first = find_char(s, '[');
    let start: usize = match first {
        Some(p) => p + 1,
        None => 0,
    };
    let last = rfind_char(s, ']');
    let end: usize = match last {
        Some(p) => p,
        None => len,
    };
    proof {
        lemma_last_position(s@, ']', last);
        match first {
            Some(p) => {
                text::lemma_position(s@, '[', p as int);
            },
            None => {
                text::lemma_position(s@, '[', s@.len() as int);
            },
        }
    }
    (start, end)
}

/// The numbers between the brackets of an array; what cannot be read is left out.
pub fn extract_float_array<S: Textual>(s: &[char]) -> (r: Vec<S>)
    requires
        array_start(s@) <= array_end(s@),
    ensures
        r@ == array_numbers::<S>(s@),
{
    let (start, end) = array_bounds(s);
    let inner = part(s, start, end);
    let items = split(&inner, ',');
    let ghost iv = text::views(items@);
    let mut out: Vec<S> = Vec::new();
    assert(iv.take(0) =~= Seq::<Seq<char>>::empty());
    for i in 0..items.len()
        invariant
            iv == text::views(items@),
            out@ =~= numbers_in::<S>(iv.take(i as int)),
    {
        proof {
            assert(iv.take(i + 1).drop_last() =~= iv.take(i as int));
            assert(iv.take(i + 1).last() == items@[i as int]@);
        }
        let t = trim(&items[i]);
        if let Some(x) = S::read(&t) {
            out.push(x);
        }
    }
    assert(iv.take(iv.len() as int) =~= iv);
    out
}

/// Whether a value is an array of numbers.
pub open spec fn is_float_value(v: Seq<char>) -> bool {
    text::holds_text(v, "\"type\":\"float\""@)
}

/// The column that a kept value makes.
pub open spec fn kept_cells<S: Textual>(v: Seq<char>) -> Cells<S> {
    if is_float_value(v) {
        Cells::Float(array_numbers::<S>(v))
    } else {
        Cells::Text(seq![v])
    }
}

/// The rows and columns after the first `n` kept pairs.
pub open spec fn kept_run<S: Textual>(pairs: Seq<(Seq<char>, Seq<char>)>, n: int) -> (
    nat,
    Map<Seq<char>, Cells<S>>,
)
    decreases n,
{
    if n <= 0 {
        (0, Map::empty())
    } else {
        let (rows, cells) = kept_run::<S>(pairs, n - 1);
        let (key, value) = pairs[n - 1];
        if key == "num_rows"@ {
            (
                match text::read_number(value, usize::MAX as nat) {
                    Some(x) => x,
                    None => 0,
                },
                cells,
            )
        } else if key == "columns"@ {
            (rows, cells)
        } else {
            (max_of(rows, kept_cells::<S>(value).len()), cells.insert(key, kept_cells::<S>(value)))
        }
    }
}

/// The brackets of every array of numbers are in order.
pub open spec fn cache_readable(pairs: Seq<(Seq<char>, Seq<char>)>) -> bool {
    forall|i: int|
        0 <= i < pairs.len() && (#[trigger] pairs[i]).0 != "num_rows"@ && pairs[i].0 != "columns"@
            && is_float_value(pairs[i].1) ==> array_start(pairs[i].1) <= array_end(pairs[i].1)
}

/// Whether a text can be read.
pub fn is_cache_readable<S: Textual>(json: &str) -> (r: bool)
    ensures
        r == (cache::kept::<S>(json@) is Some || cache_readable(json::object_pairs(json@))),
{
    if cache::read_kept::<S>(json).is_some() {
        return true;
    }
    let pairs = json::parse_simple_json_object(json);
    let ghost pv = json::pair_texts(pairs@);
    for i in 0..pairs.len()
        invariant
            cache::kept::<S>(json@) is None,
            pv == json::pair_texts(pairs@),
            pv == json::object_pairs(json@),
            forall|k: int|
                0 <= k < i && (#[trigger] pv[k]).0 != "num_rows"@ && pv[k].0 != "columns"@
                    && is_float_value(pv[k].1) ==> array_start(pv[k].1) <= array_end(pv[k].1),
    {
        let key = chars_of(pairs[i].0.as_str());
        let value = chars_of(pairs[i].1.as_str());
        assert(pv[i as int] == (key@, value@));
        if !is_text(&key, "num_rows") && !is_text(&key, "columns") && contains(
            &value,
            "\"type\":\"float\"",
        ) {
            let (start, end) = array_bounds(&value);
            if start > end {
                assert(json::object_pairs(json@)[i as int] == pv[i as int]);
                assert(!cache_readable(pv));
                return false;
            }
        }
    }
    true
}

/// The rows and columns after the first `n` columns were added.
pub open spec fn taken_in<S>(rows: nat, columns: Seq<(Seq<char>, Cells<S>)>, n: int) -> (
    nat,
    Map<Seq<char>, Cells<S>>,
)
    decreases n,
{
    if n <= 0 {
        (rows, Map::empty())
    } else {
        let (had, cells) = taken_in(rows, columns, n - 1);
        let (name, c) = columns[n - 1];
        (max_of(had, c.len()), cells.insert(name, c))
    }
}

/// The rows and columns of a text: those that were kept, or, in a text that was not kept, the
/// number of rows and the columns at the outermost level.
pub open spec fn cached<S: Textual>(json: Seq<char>) -> (nat, Map<Seq<char>, Cells<S>>) {
    match cache::kept::<S>(json) {
        Some((rows, columns)) => taken_in(rows, columns, columns.len() as int),
        None => kept_run::<S>(json::object_pairs(json), json::object_pairs(json).len() as int),
    }
}

/// The dataset that a text holds.
pub fn dataset_from_cache_json<S: Textual>(json: &str, source: &str) -> (r: Result<
    Dataset<S>,
    String,
>)
    requires
        cache::kept::<S>(json@) is None ==> cache_readable(json::object_pairs(json@)),
    ensures
        r matches Ok(d) && d.wf() && d.source@ == source@ && (d.num_rows as nat, d.cells())
            == cached::<S>(json@),
{
    match cache::read_kept::<S>(json) {
        Some((n, v)) => Ok(dataset_of(source, n, v)),
        None => Ok(dataset_of_pairs(json, source)),
    }
}

/// A dataset with columns and at least so many rows.
fn dataset_of<S: Textual>(source: &str, rows: usize, columns: Vec<(String, Column<S>)>) -> (r:
    Dataset<S>)
    ensures
        r.wf(),
        r.source@ == source@,
        (r.num_rows as nat, r.cells()) == taken_in(
            rows as nat,
            cache::column_views(columns@),
            columns@.len() as int,
        ),
{
    let ghost all = cache::column_views(columns@);
    let mut left = columns;
    let n: usize = left.len();
    let mut ds: Dataset<S> = Dataset::new(source);
    ds.num_rows = rows;
    for i in 0..n
        invariant
            n == all.len(),
            left@.len() == n - i,
            cache::column_views(left@) =~= all.skip(i as int),
            ds.wf(),
            ds.source@ == source@,
            (ds.num_rows as nat, ds.cells()) == taken_in(rows as nat, all, i as int),
    {
        let ghost before = left@;
        assert(all.skip(i as int)[0] == all[i as int]);
        let (name, c) = left.remove(0);
        assert(before[0] == (name, c));
        assert(cache::column_views(before)[0] == (name@, c@));
        proof {
            assert(cache::column_views(left@) =~= cache::column_views(before).skip(1));
            assert(all.skip(i as int).skip(1) =~= all.skip(i + 1));
        }
        ds.add_column(name.as_str(), c);
    }
    ds
}

/// The number of rows and the columns at the outermost level of a text.
fn dataset_of_pairs<S: Textual>(json: &str, source: &str) -> (ds: Dataset<S>)
    requires
        cache_readable(json::object_pairs(json@)),
    ensures
        ds.wf(),
        ds.source@ == source@,
        (ds.num_rows as nat, ds.cells()) == kept_run::<S>(
            json::object_pairs(json@),
            json::object_pairs(json@).len() as int,
        ),
{
    let mut ds: Dataset<S> = Dataset::new(source);
    let pairs = json::parse_simple_json_object(json);
    let ghost pv = json::pair_texts(pairs@);
    let n: usize = pairs.len();
    for i in 0..n
        invariant
            n == pairs@.len(),
            pv == json::pair_texts(pairs@),
            cache_readable(pv),
            ds.wf(),
            ds.source@ == source@,
            (ds.num_rows as nat, ds.cells()) == kept_run::<S>(pv, i as int),
    {
        let key = chars_of(pairs[i].0.as_str());
        let value = chars_of(pairs[i].1.as_str());
        assert(pv[i as int] == (key@, value@));
        if is_text(&key, "num_rows") {
            ds.num_rows = match parse_number(&value, usize::MAX as u64) {
                Some(x) => x as usize,
                None => 0,
            };
        } else if is_text(&key, "columns") {
        } else if contains(&value, "\"type\":\"float\"") {
            let nums = extract_float_array::<S>(&value);
            ds.add_float_column(pairs[i].0.as_str(), nums);
        } else {
            let mut one: Vec<String> = Vec::new();
            one.push(owned(pairs[i].1.as_str()));
            assert(text::texts(one@) =~= seq![value@]);
            ds.add_text_column(pairs[i].0.as_str(), one);
        }
    }
    ds
}

// ---- Building

/// A dataset in the making.
#[derive(Debug, Clone)]
pub struct DatasetBuilder<S> {
    pub name: String,
    pub float_columns: Table<Vec<S>>,
    pub text_columns: Table<Vec<String>>,
    pub num_rows: usize,
}

/// The numbers under each name.
pub open spec fn float_map<S>(t: Table<Vec<S>>) -> Map<Seq<char>, Seq<S>> {
    t@.map_values(|v: Vec<S>| v@)
}

/// The texts under each name.
pub open spec fn text_map(t: Table<Vec<String>>) -> Map<Seq<char>, Seq<Seq<char>>> {
    t@.map_values(|v: Vec<String>| text::texts(v@))
}

/// The map with one more item under a name.
pub open spec fn appended<T>(m: Map<Seq<char>, Seq<T>>, name: Seq<char>, x: T) -> Map<
    Seq<char>,
    Seq<T>,
> {
    m.insert(
        name,
        if m.dom().contains(name) {
            m[name].push(x)
        } else {
            seq![x]
        },
    )
}

/// The name of a feature.
pub open spec fn feature_name(i: int) -> Seq<char> {
    "f"@ + text::digits(i as nat)
}

/// The map with the first `n` features of a row.
pub open spec fn with_features<S>(
    m: Map<Seq<char>, Seq<S>>,
    features: Seq<S>,
    n: int,
) -> Map<Seq<char>, Seq<S>>
    decreases n,
{
    if n <= 0 {
        m
    } else {
        appended(with_features(m, features, n - 1), feature_name(n - 1), features[n - 1])
    }
}

pub fn feature_text(i: usize) -> (r: String)
    ensures
        r@ == feature_name(i as int),
{
    let mut v: Vec<char> = Vec::new();
    push_text(&mut v, "f");
    push_decimal(&mut v, i as u64);
    assert(v@ =~= feature_name(i as int));
    string_of(&v)
}

fn append_number<S: Number>(t: &mut Table<Vec<S>>, name: &str, x: S)
    requires
        old(t).wf(),
    ensures
        final(t).wf(),
        float_map(*final(t)) == appended(float_map(*old(t)), name@, x),
{
    let ghost before = *t;
    t.append(name, x);
    proof {
        let want = appended(float_map(before), name@, x);
        assert(float_map(*t).dom() =~= want.dom());
        assert forall|k: Seq<char>| want.dom().contains(k) implies float_map(*t)[k] == want[k] by {
            if k != name@ {
                assert(before@.dom().contains(k));
            } else {
                assert(t@[name@]@ == want[name@]) by {
                    if before@.dom().contains(name@) {
                        assert(float_map(before)[name@] == before@[name@]@);
                    }
                }
            }
        }
        assert(float_map(*t) =~= want);
    }
}

fn append_text(t: &mut Table<Vec<String>>, name: &str, x: &str)
    requires
        old(t).wf(),
    ensures
        final(t).wf(),
        text_map(*final(t)) == appended(text_map(*old(t)), name@, x@),
{
    let ghost before = *t;
    let item = owned(x);
    t.append(name, item);
    proof {
        let want = appended(text_map(before), name@, x@);
        assert(text_map(*t).dom() =~= want.dom());
        assert forall|k: Seq<char>| want.dom().contains(k) implies text_map(*t)[k] == want[k] by {
            if k != name@ {
                assert(before@.dom().contains(k));
            } else if before@.dom().contains(name@) {
                assert(text_map(before)[name@] == text::texts(before@[name@]@));
                assert(text::texts(t@[name@]@) =~= text::texts(before@[name@]@).push(x@));
            } else {
                assert(text::texts(t@[name@]@) =~= seq![x@]);
            }
        }
        assert(text_map(*t) =~= want);
    }
}

/// No list is longer than `n`.
pub open spec fn within<T>(m: Map<Seq<char>, Seq<T>>, n: nat) -> bool {
    forall|k: Seq<char>| #[trigger] m.dom().contains(k) ==> m[k].len() <= n
}

/// What numbers and texts make together: a name that stands for both is a column of texts.
pub open spec fn built_cells<S>(
    floats: Map<Seq<char>, Seq<S>>,
    texts: Map<Seq<char>, Seq<Seq<char>>>,
) -> Map<Seq<char>, Cells<S>> {
    Map::new(
        |k: Seq<char>| floats.dom().contains(k) || texts.dom().contains(k),
        |k: Seq<char>|
            if texts.dom().contains(k) {
                Cells::Text(texts[k])
            } else {
                Cells::Float(floats[k])
            },
    )
}

/// A number in a row of the delimited text.
pub open spec fn float_field<S: Textual>(v: Seq<S>, row: int) -> Seq<char> {
    (if row < v.len() {
        v[row]
    } else {
        S::spec_zero()
    }).spec_show()
}

/// A text in a row of the delimited text.
pub open spec fn text_field(v: Seq<Seq<char>>, row: int) -> Seq<char> {
    "\""@ + (if row < v.len() {
        v[row]
    } else {
        Seq::empty()
    }) + "\""@
}

impl<S> DatasetBuilder<S> {
    /// No name occurs twice among the columns of a kind, and no column has more rows than are
    /// counted.
    pub open spec fn wf(&self) -> bool {
        &&& self.float_columns.wf()
        &&& self.text_columns.wf()
        &&& within(self.floats(), self.num_rows as nat)
        &&& within(self.texts(), self.num_rows as nat)
    }

    pub open spec fn floats(&self) -> Map<Seq<char>, Seq<S>> {
        float_map(self.float_columns)
    }

    pub open spec fn texts(&self) -> Map<Seq<char>, Seq<Seq<char>>> {
        text_map(self.text_columns)
    }

    /// The headers: the columns of numbers, then those of texts.
    pub open spec fn headers(&self) -> Seq<Seq<char>> {
        self.float_columns.names() + self.text_columns.names()
    }
}

impl<S: Textual> DatasetBuilder<S> {
    /// The fields of a row.
    pub open spec fn row_fields(&self, row: int) -> Seq<Seq<char>> {
        Seq::new(
            self.headers().len(),
            |i: int|
                {
                    let h = self.headers()[i];
                    if self.floats().dom().contains(h) {
                        float_field(self.floats()[h], row)
                    } else {
                        text_field(self.texts()[h], row)
                    }
                },
        )
    }

    /// The first `n` rows, each ended by a line break.
    pub open spec fn rows_text(&self, n: int) -> Seq<char>
        decreases n,
    {
        if n <= 0 {
            Seq::empty()
        } else {
            self.rows_text(n - 1) + text::joined(self.row_fields(n - 1), ","@) + "\n"@
        }
    }

    /// The whole as delimited text.
    pub open spec fn csv(&self) -> Seq<char> {
        text::joined(self.headers(), ","@) + "\n"@ + self.rows_text(self.num_rows as int)
    }

    pub fn new(name: &str) -> (r: Self)
        ensures
            r.wf(),
            r.name@ == name@,
            r.floats() == Map::<Seq<char>, Seq<S>>::empty(),
            r.texts() == Map::<Seq<char>, Seq<Seq<char>>>::empty(),
            r.num_rows == 0,
    {
        let r = DatasetBuilder {
            name: owned(name),
            float_columns: Table::new(),
            text_columns: Table::new(),
            num_rows: 0,
        };
        assert(r.floats() =~= Map::<Seq<char>, Seq<S>>::empty());
        assert(r.texts() =~= Map::<Seq<char>, Seq<Seq<char>>>::empty());
        r
    }

    /// Adds a row of numbers with a label.
    pub fn add_float_row(self, features: &[S], label: S) -> (r: Self)
        requires
            self.wf(),
            self.num_rows < usize::MAX,
        ensures
            r.wf(),
            r.name == self.name,
            r.floats() == appended(
                with_features(self.floats(), features@, features@.len() as int),
                "label"@,
                label,
            ),
            r.texts() == self.texts(),
            r.num_rows == self.num_rows + 1,
    {
        let mut b = self;
        let ghost first = self.floats();
        let ghost rows = self.num_rows as nat;
        for i in 0..features.len()
            invariant
                b.float_columns.wf(),
                b.text_columns == self.text_columns,
                b.name == self.name,
                b.num_rows == self.num_rows,
                b.floats() == with_features(first, features@, i as int),
                within(first, rows),
                forall|k: Seq<char>| #[trigger]
                    b.floats().dom().contains(k) ==> b.floats()[k].len() <= rows + 1,
                forall|j: int|
                    i <= j && b.floats().dom().contains(#[trigger] feature_name(j))
                        ==> b.floats()[feature_name(j)].len() <= rows,
                b.floats().dom().contains("label"@) ==> b.floats()["label"@].len() <= rows,
        {
            let name = feature_text(i);
            let ghost before = b.floats();
            append_number(&mut b.float_columns, name.as_str(), features[i]);
            proof {
                assert(b.floats() == appended(before, name@, features@[i as int]));
                assert forall|j: int|
                    i + 1 <= j && b.floats().dom().contains(
                        #[trigger] feature_name(j),
                    ) implies b.floats()[feature_name(j)].len() <= rows by {
                    lemma_feature_names(i as int, j);
                }
                lemma_feature_is_no_label(i as int);
                assert forall|k: Seq<char>| #[trigger] b.floats().dom().contains(k) implies b.floats()[k].len()
                    <= rows + 1 by {
                    if k == name@ {
                        if before.dom().contains(k) {
                            assert(k == feature_name(i as int));
                        }
                    } else {
                        assert(before.dom().contains(k));
                    }
                }
            }
        }
        let ghost before = b.floats();
        append_number(&mut b.float_columns, "label", label);
        b.num_rows = b.num_rows + 1;
        proof {
            assert forall|k: Seq<char>| #[trigger] b.floats().dom().contains(k) implies b.floats()[k].len()
                <= rows + 1 by {
                if k != "label"@ {
                    assert(before.dom().contains(k));
                }
            }
            assert forall|k: Seq<char>| #[trigger] b.texts().dom().contains(k) implies b.texts()[k].len()
                <= rows + 1 by {
                assert(self.texts().dom().contains(k));
            }
        }
        b
    }

    /// Adds a row of a text with a label.
    pub fn add_text_row(self, text: &str, label: &str) -> (r: Self)
        requires
            self.wf(),
            self.num_rows < usize::MAX,
        ensures
            r.wf(),
            r.name == self.name,
            r.floats() == self.floats(),
            r.texts() == appended(appended(self.texts(), "text"@, text@), "label"@, label@),
            r.num_rows == self.num_rows + 1,
    {
        let mut b = self;
        append_text(&mut b.text_columns, "text", text);
        let ghost mid = b.texts();
        append_text(&mut b.text_columns, "label", label);
        b.num_rows = b.num_rows + 1;
        proof {
            reveal_strlit("text");
            reveal_strlit("label");
            assert("text"@ != "label"@) by {
                assert("text"@.len() != "label"@.len());
            }
            assert forall|k: Seq<char>| #[trigger] b.texts().dom().contains(k) implies b.texts()[k].len()
                <= b.num_rows by {
                if k != "label"@ && k != "text"@ {
                    assert(self.texts().dom().contains(k));
                } else if k == "label"@ {
                    if mid.dom().contains(k) {
                        assert(self.texts().dom().contains(k));
                    }
                } else {
                    if self.texts().dom().contains(k) {
                    }
                }
            }
            assert forall|k: Seq<char>| #[trigger] b.floats().dom().contains(k) implies b.floats()[k].len()
                <= b.num_rows by {
                assert(self.floats().dom().contains(k));
            }
        }
        b
    }

    /// Adds a column of numbers, in place of one with the same name.
    pub fn add_float_column(self, name: &str, data: Vec<S>) -> (r: Self)
        requires
            self.wf(),
        ensures
            r.wf(),
            r.name == self.name,
            r.floats() == self.floats().insert(name@, data@),
            r.texts() == self.texts(),
            r.num_rows == max_of(self.num_rows as nat, data@.len()),
    {
        let mut b = self;
        let len: usize = data.len();
        let ghost dv = data@;
        if b.num_rows < len {
            b.num_rows = len;
        }
        b.float_columns.insert(name, data);
        proof {
            assert(b.floats() =~= self.floats().insert(name@, dv));
            assert forall|k: Seq<char>| #[trigger] b.floats().dom().contains(k) implies b.floats()[k].len()
                <= b.num_rows by {
                if k != name@ {
                    assert(self.floats().dom().contains(k));
                }
            }
            assert forall|k: Seq<char>| #[trigger] b.texts().dom().contains(k) implies b.texts()[k].len()
                <= b.num_rows by {
                assert(self.texts().dom().contains(k));
            }
        }
        b
    }

    /// Adds a column of texts, in place of one with the same name.
    pub fn add_text_column(self, name: &str, data: Vec<String>) -> (r: Self)
        requires
            self.wf(),
        ensures
            r.wf(),
            r.name == self.name,
            r.floats() == self.floats(),
            r.texts() == self.texts().insert(name@, text::texts(data@)),
            r.num_rows == max_of(self.num_rows as nat, data@.len()),
    {
        let mut b = self;
        let len: usize = data.len();
        let ghost dv = text::texts(data@);
        if b.num_rows < len {
            b.num_rows = len;
        }
        b.text_columns.insert(name, data);
        proof {
            assert(b.texts() =~= self.texts().insert(name@, dv));
            assert forall|k: Seq<char>| #[trigger] b.texts().dom().contains(k) implies b.texts()[k].len()
                <= b.num_rows by {
                if k != name@ {
                    assert(self.texts().dom().contains(k));
                }
            }
            assert forall|k: Seq<char>| #[trigger] b.floats().dom().contains(k) implies b.floats()[k].len()
                <= b.num_rows by {
                assert(self.floats().dom().contains(k));
            }
        }
        b
    }

    /// The dataset.
    #[verifier::loop_isolation(false)]
    pub fn build(self) -> (r: Dataset<S>)
        requires
            self.wf(),
        ensures
            r.wf(),
            r.source@ == self.name@,
            r.num_rows == self.num_rows,
            r.cells() == built_cells(self.floats(), self.texts()),
    {
        let mut ds: Dataset<S> = Dataset::new(self.name.as_str());
        ds.num_rows = self.num_rows;
        let ghost floats = self.floats();
        let ghost texts = self.texts();
        let n: usize = self.float_columns.entries.len();
        let ghost fe = self.float_columns.entries@;
        let ghost te = self.text_columns.entries@;
        assert forall|k: Seq<char>| !(#[trigger] table::among(fe, k, 0)) by {
            table::lemma_among(self.float_columns, k, 0);
        }
        for i in 0..n
            invariant
                ds.wf(),
                ds.source@ == self.name@,
                ds.num_rows == self.num_rows,
                forall|k: Seq<char>|
                    #![trigger ds.cells().dom().contains(k)]
                    ds.cells().dom().contains(k) <==> table::among(fe, k, i as int),
                forall|k: Seq<char>| #[trigger]
                    ds.cells().dom().contains(k) ==> ds.cells()[k] == Cells::Float(floats[k]),
        {
            let ghost before = ds;
            let ghost name = fe[i as int].0@;
            proof {
                self.float_columns.lemma_at(i as int);
                assert(floats.dom().contains(name));
            }
            ds.add_float_column(
                self.float_columns.entries[i].0.as_str(),
                copy_slice(&self.float_columns.entries[i].1),
            );
            proof {
                assert forall|k: Seq<char>| #![trigger ds.cells().dom().contains(k)]
                    ds.cells().dom().contains(k) <==> table::among(fe, k, i + 1) by {
                    table::lemma_among(self.float_columns, k, i as int);
                    assert(ds.cells().dom().contains(k) <==> k == name
                        || before.cells().dom().contains(k));
                }
            }
        }
        let m: usize = self.text_columns.entries.len();
        assert forall|k: Seq<char>| #![trigger ds.cells().dom().contains(k)]
            ds.cells().dom().contains(k) <==> floats.dom().contains(k) by {
            table::lemma_among(self.float_columns, k, n as int);
        }
        assert forall|k: Seq<char>| !(#[trigger] table::among(te, k, 0)) by {
            table::lemma_among(self.text_columns, k, 0);
        }
        for i in 0..m
            invariant
                ds.wf(),
                ds.source@ == self.name@,
                ds.num_rows == self.num_rows,
                forall|k: Seq<char>|
                    #![trigger ds.cells().dom().contains(k)]
                    ds.cells().dom().contains(k) <==> (floats.dom().contains(k) || table::among(
                        te,
                        k,
                        i as int,
                    )),
                forall|k: Seq<char>| #[trigger]
                    ds.cells().dom().contains(k) ==> ds.cells()[k] == (if table::among(
                        te,
                        k,
                        i as int,
                    ) {
                        Cells::Text(texts[k])
                    } else {
                        Cells::Float(floats[k])
                    }),
        {
            let ghost before = ds;
            let ghost name = te[i as int].0@;
            proof {
                self.text_columns.lemma_at(i as int);
                assert(texts.dom().contains(name));
            }
            ds.add_text_column(
                self.text_columns.entries[i].0.as_str(),
                copy_texts(&self.text_columns.entries[i].1),
            );
            proof {
                assert forall|k: Seq<char>| #![trigger ds.cells().dom().contains(k)]
                    ds.cells().dom().contains(k) <==> (floats.dom().contains(k) || table::among(
                        te,
                        k,
                        i + 1,
                    )) by {
                    table::lemma_among(self.text_columns, k, i as int);
                    assert(ds.cells().dom().contains(k) <==> k == name
                        || before.cells().dom().contains(k));
                }
                assert forall|k: Seq<char>| #[trigger] ds.cells().dom().contains(k) implies (
                ds.cells()[k] == if table::among(te, k, i + 1) {
                    Cells::Text(texts[k])
                } else {
                    Cells::Float(floats[k])
                }) by {
                    table::lemma_among(self.text_columns, k, i as int);
                    if k != name {
                        assert(before.cells().dom().contains(k));
                    }
                }
            }
        }
        proof {
            let want = built_cells(floats, texts);
            assert forall|k: Seq<char>| ds.cells().dom().contains(k) <==> want.dom().contains(
                k,
            ) by {
                table::lemma_among(self.text_columns, k, m as int);
            }
            assert(ds.cells().dom() =~= want.dom());
            assert forall|k: Seq<char>| want.dom().contains(k) implies ds.cells()[k] == want[k] by {
                table::lemma_among(self.text_columns, k, m as int);
                assert(ds.cells().dom().contains(k));
            }
            assert(ds.cells() =~= want);
        }
        ds
    }

    /// The names of the columns, those of numbers first.
    #[verifier::loop_isolation(false)]
    fn header_chars(&self) -> (r: Vec<Vec<char>>)
        requires
            self.wf(),
        ensures
            text::views(r@) == self.headers(),
    {
        let mut headers: Vec<Vec<char>> = Vec::new();
        let n: usize = self.float_columns.entries.len();
        let m: usize = self.text_columns.entries.len();
        for i in 0..n
            invariant
                text::views(headers@) =~= self.headers().take(i as int),
        {
            let ghost before = text::views(headers@);
            let h = chars_of(self.float_columns.entries[i].0.as_str());
            headers.push(h);
            assert(text::views(headers@) =~= before.push(h@));
        }
        for i in 0..m
            invariant
                text::views(headers@) =~= self.headers().take(n + i),
        {
            let ghost before = text::views(headers@);
            let h = chars_of(self.text_columns.entries[i].0.as_str());
            headers.push(h);
            assert(text::views(headers@) =~= before.push(h@));
        }
        assert(self.headers().take(n + m) =~= self.headers());
        headers
    }

    /// The dataset as delimited text.
    #[verifier::spinoff_prover]
    #[verifier::rlimit(60)]
    #[verifier::loop_isolation(false)]
    pub fn csv_text(&self) -> (r: String)
        requires
            self.wf(),
        ensures
            r@ == self.csv(),
    {
        let headers: Vec<Vec<char>> = self.header_chars();
        let n: usize = self.float_columns.entries.len();
        let ghost hv = self.headers();
        assert(text::views(headers@).len() == headers@.len());
        let mut out: Vec<char> = join(&headers, ",");
        push_text(&mut out, "\n");
        let width: usize = headers.len();
        let ghost top = out@;
        for row in 0..self.num_rows
            invariant
                out@ =~= top + self.rows_text(row as int),
        {
            let mut fields: Vec<Vec<char>> = Vec::new();
            for i in 0..width
                invariant
                    text::views(fields@) =~= self.row_fields(row as int).take(i as int),
            {
                let ghost before = text::views(fields@);
                assert(headers@[i as int]@ == hv[i as int]) by {
                    assert(text::views(headers@)[i as int] == headers@[i as int]@);
                }
                let h = string_of(&headers[i]);
                proof {
                    if i < n {
                        self.float_columns.lemma_at(i as int);
                    } else {
                        self.text_columns.lemma_at(i - n);
                    }
                }
                let field: Vec<char> = match self.float_columns.get(h.as_str()) {
                    Some(col) => if row < col.len() {
                        col[row].show()
                    } else {
                        S::zero().show()
                    },
                    None => {
                        let col = self.text_columns.get(h.as_str()).unwrap();
                        let mut f: Vec<char> = Vec::new();
                        push_text(&mut f, "\"");
                        if row < col.len() {
                            push_text(&mut f, col[row].as_str());
                        }
                        push_text(&mut f, "\"");
                        assert(f@ =~= text_field(text::texts(col@), row as int));
                        f
                    },
                };
                assert(field@ =~= self.row_fields(row as int)[i as int]);
                let ghost ff = field@;
                fields.push(field);
                assert(text::views(fields@) =~= before.push(ff));
            }
            assert(self.row_fields(row as int).take(width as int) =~= self.row_fields(row as int));
            let line = join(&fields, ",");
            text::push_chars(&mut out, &line);
            push_text(&mut out, "\n");
        }
        assert(out@ =~= self.csv());
        string_of(&out)
    }
}

/// Features with different numbers have different names.
proof fn lemma_feature_names(i: int, j: int)
    requires
        0 <= i < j,
    ensures
        feature_name(i) != feature_name(j),
{
    reveal_strlit("f");
    text::lemma_digits_differ(i as nat, j as nat);
    if feature_name(i) == feature_name(j) {
        assert(feature_name(i).skip(1) =~= text::digits(i as nat));
        assert(feature_name(j).skip(1) =~= text::digits(j as nat));
    }
}

proof fn lemma_feature_is_no_label(i: int)
    ensures
        feature_name(i) != "label"@,
{
    reveal_strlit("f");
    reveal_strlit("label");
    assert(feature_name(i)[0] == 'f');
    assert("label"@[0] == 'l');
}

// ---- What was built is read

/// A field as it is written: in quotes, or as it is.
spec fn written(f: (Seq<char>, bool)) -> Seq<char> {
    if f.1 {
        "\""@ + f.0 + "\""@
    } else {
        f.0
    }
}

/// A field can be written: without quotes in it and, where it is written as it is, without commas.
spec fn writable(f: (Seq<char>, bool)) -> bool {
    forall|i: int| 0 <= i < f.0.len() ==> #[trigger] f.0[i] != '"' && (f.1 || f.0[i] != ',')
}

proof fn lemma_line_more(p: Seq<char>, l: Seq<char>)
    requires
        forall|i: int|
            0 <= i < l.len() ==> #[trigger] l[i] != '"' && (line_run(p, ',').quoted || l[i] != ','),
    ensures
        line_run(p + l, ',') == (LineState {
            current: line_run(p, ',').current + l,
            ..line_run(p, ',')
        }),
    decreases l.len(),
{
    if l.len() == 0 {
        assert(p + l =~= p);
        assert(line_run(p, ',').current + l =~= line_run(p, ',').current);
    } else {
        let f = l.drop_last();
        assert forall|i: int| 0 <= i < f.len() implies #[trigger] f[i] != '"' && (line_run(
            p,
            ',',
        ).quoted || f[i] != ',') by {
            assert(f[i] == l[i]);
        }
        lemma_line_more(p, f);
        assert((p + l).drop_last() =~= p + f);
        assert((p + l).last() == l[l.len() - 1]);
        assert((line_run(p, ',').current + f).push(l.last()) =~= line_run(p, ',').current + l);
    }
}

proof fn lemma_field_more(p: Seq<char>, f: (Seq<char>, bool))
    requires
        writable(f),
        !line_run(p, ',').quoted,
    ensures
        line_run(p + written(f), ',') == (LineState {
            current: line_run(p, ',').current + f.0,
            ..line_run(p, ',')
        }),
{
    if f.1 {
        reveal_strlit("\"");
        let a = p + "\""@;
        assert(a.drop_last() =~= p);
        let b = a + f.0;
        lemma_line_more(a, f.0);
        let c = p + written(f);
        assert(c.drop_last() =~= b);
        assert(c.last() == '"');
    } else {
        lemma_line_more(p, f.0);
    }
}

spec fn written_all(v: Seq<(Seq<char>, bool)>) -> Seq<Seq<char>> {
    Seq::new(v.len(), |i: int| written(v[i]))
}

spec fn contents(v: Seq<(Seq<char>, bool)>) -> Seq<Seq<char>> {
    Seq::new(v.len(), |i: int| v[i].0)
}

proof fn lemma_line_read(v: Seq<(Seq<char>, bool)>)
    requires
        v.len() > 0,
        forall|i: int| 0 <= i < v.len() ==> writable(#[trigger] v[i]),
    ensures
        line_run(text::joined(written_all(v), ","@), ',') == (LineState {
            fields: contents(v).drop_last(),
            current: contents(v).last(),
            quoted: false,
        }),
        line_fields(text::joined(written_all(v), ","@), ',') == contents(v),
    decreases v.len(),
{
    reveal_strlit(",");
    let f = v.drop_last();
    let w = written_all(v);
    assert(w.drop_last() =~= written_all(f));
    assert(contents(v).drop_last() =~= contents(f));
    let e = Seq::<char>::empty();
    if f.len() == 0 {
        lemma_field_more(e, v[0]);
        assert(e + written(v[0]) =~= written(v[0]));
        assert(e + v[0].0 =~= v[0].0);
        assert(contents(f) =~= Seq::<Seq<char>>::empty());
    } else {
        lemma_line_read(f);
        let p = text::joined(written_all(f), ","@);
        let q = p + ","@;
        assert(q.drop_last() =~= p);
        assert(q.last() == ',');
        lemma_field_more(q, v.last());
        assert(e + v.last().0 =~= v.last().0);
        assert(contents(f) =~= contents(f).drop_last().push(contents(f).last()));
    }
    assert(contents(v) =~= contents(v).drop_last().push(contents(v).last()));
}

impl<S: Textual> DatasetBuilder<S> {
    /// What a field of a row holds, and whether it is written in quotes.
    pub open spec fn field(&self, row: int, i: int) -> (Seq<char>, bool) {
        let h = self.headers()[i];
        if self.floats().dom().contains(h) {
            (float_field(self.floats()[h], row), false)
        } else {
            let v = self.texts()[h];
            (
                if row < v.len() {
                    v[row]
                } else {
                    Seq::empty()
                },
                true,
            )
        }
    }

    /// What the fields of the rows hold.
    pub open spec fn values(&self) -> Seq<Seq<Seq<char>>> {
        Seq::new(
            self.num_rows as nat,
            |row: int| Seq::new(self.headers().len(), |i: int| self.field(row, i).0),
        )
    }

    /// No name and no value has a quote or a line break, no name and no number has a comma, and no
    /// line is blank.
    pub open spec fn can_be_read(&self) -> bool {
        &&& self.headers().len() > 0
        &&& forall|i: int, k: int|
            0 <= i < self.headers().len() && 0 <= k < self.headers()[i].len() ==> plain(
                #[trigger] self.headers()[i][k],
                false,
            )
        &&& forall|row: int, i: int, k: int|
            0 <= row < self.num_rows && 0 <= i < self.headers().len() && 0 <= k < self.field(
                row,
                i,
            ).0.len() ==> plain(#[trigger] self.field(row, i).0[k], self.field(row, i).1)
        &&& text::trimmed(text::joined(self.headers(), ","@)).len() > 0
        &&& forall|row: int|
            0 <= row < self.num_rows ==> text::trimmed(
                text::joined(#[trigger] self.row_fields(row), ","@),
            ).len() > 0
    }
}

/// A character that stands for itself in a field.
pub open spec fn plain(c: char, quoted: bool) -> bool {
    c != '"' && c != '\n' && c != '\r' && (quoted || c != ',')
}

/// What no text of a list has, and the separator neither, the joined text does not have.
proof fn lemma_joined_without(v: Seq<Seq<char>>, c: char)
    requires
        c != ',',
        forall|i: int, k: int| 0 <= i < v.len() && 0 <= k < v[i].len() ==> #[trigger] v[i][k] != c,
    ensures
        forall|k: int|
            0 <= k < text::joined(v, ","@).len() ==> #[trigger] text::joined(v, ","@)[k] != c,
    decreases v.len(),
{
    reveal_strlit(",");
    if v.len() > 1 {
        let f = v.drop_last();
        assert forall|i: int, k: int| 0 <= i < f.len() && 0 <= k < f[i].len() implies #[trigger]
            f[i][k] != c by {
            assert(v[i][k] != c);
        }
        lemma_joined_without(f, c);
        let p = text::joined(f, ","@);
        let j = text::joined(v, ","@);
        let n = v.len() - 1;
        assert forall|k: int| 0 <= k < j.len() implies #[trigger] j[k] != c by {
            if k < p.len() {
                assert(j[k] == p[k]);
            } else if k > p.len() {
                assert(j[k] == v[n][k - p.len() - 1]);
            }
        }
    } else if v.len() == 1 {
        let j = text::joined(v, ","@);
        assert forall|k: int| 0 <= k < j.len() implies #[trigger] j[k] != c by {
            assert(j[k] == v[0][k]);
        }
    }
}

proof fn lemma_header<S: Textual>(b: DatasetBuilder<S>)
    requires
        b.can_be_read(),
    ensures
        line_fields(text::joined(b.headers(), ","@), ',') == b.headers(),
        forall|k: int|
            0 <= k < text::joined(b.headers(), ","@).len() ==> #[trigger] text::joined(
                b.headers(),
                ","@,
            )[k] != '\n' && text::joined(b.headers(), ","@)[k] != '\r',
{
    let h = b.headers();
    let v = Seq::new(h.len(), |i: int| (h[i], false));
    assert(written_all(v) =~= h);
    assert(contents(v) =~= h);
    assert forall|i: int| 0 <= i < v.len() implies writable(#[trigger] v[i]) by {
        assert forall|k: int| 0 <= k < v[i].0.len() implies #[trigger] v[i].0[k] != '"' && (v[i].1
            || v[i].0[k] != ',') by {
            assert(plain(b.headers()[i][k], false));
        }
    }
    lemma_line_read(v);
    assert forall|i: int, k: int| 0 <= i < h.len() && 0 <= k < h[i].len() implies #[trigger]
        h[i][k] != '\n' && h[i][k] != '\r' by {
        assert(plain(b.headers()[i][k], false));
    }
    lemma_joined_without(h, '\n');
    lemma_joined_without(h, '\r');
}

proof fn lemma_row<S: Textual>(b: DatasetBuilder<S>, row: int)
    requires
        b.can_be_read(),
        0 <= row < b.num_rows,
    ensures
        line_fields(text::joined(b.row_fields(row), ","@), ',') == b.values()[row],
        forall|k: int|
            0 <= k < text::joined(b.row_fields(row), ","@).len() ==> #[trigger] text::joined(
                b.row_fields(row),
                ","@,
            )[k] != '\n' && text::joined(b.row_fields(row), ","@)[k] != '\r',
{
    reveal_strlit("\"");
    let f = b.row_fields(row);
    let v = Seq::new(b.headers().len(), |i: int| b.field(row, i));
    assert(written_all(v) =~= f);
    assert(contents(v) =~= b.values()[row]);
    assert forall|i: int| 0 <= i < v.len() implies writable(#[trigger] v[i]) by {
        assert forall|k: int| 0 <= k < v[i].0.len() implies #[trigger] v[i].0[k] != '"' && (v[i].1
            || v[i].0[k] != ',') by {
            assert(plain(b.field(row, i).0[k], b.field(row, i).1));
        }
    }
    lemma_line_read(v);
    assert forall|i: int, k: int| 0 <= i < f.len() && 0 <= k < f[i].len() implies #[trigger]
        f[i][k] != '\n' && f[i][k] != '\r' by {
        let g = b.field(row, i);
        assert(f[i] == written(g));
        if g.1 {
            if 0 < k < f[i].len() - 1 {
                assert(f[i][k] == b.field(row, i).0[k - 1]);
                assert(plain(b.field(row, i).0[k - 1], b.field(row, i).1));
            }
        } else {
            assert(plain(b.field(row, i).0[k], b.field(row, i).1));
        }
    }
    lemma_joined_without(f, '\n');
    lemma_joined_without(f, '\r');
}

proof fn lemma_built_lines<S: Textual>(b: DatasetBuilder<S>, n: int)
    requires
        b.can_be_read(),
        0 <= n <= b.num_rows,
    ensures
        ({
            let s = text::joined(b.headers(), ","@) + "\n"@ + b.rows_text(n);
            let rows = Seq::new(n as nat, |i: int| text::joined(b.row_fields(i), ","@));
            &&& text::whole_lines(s)
            &&& kept(text::lines_of(s)) == seq![text::joined(b.headers(), ","@)] + rows
        }),
    decreases n,
{
    reveal_strlit("\n");
    let h = text::joined(b.headers(), ","@);
    let s = h + "\n"@ + b.rows_text(n);
    let rows = Seq::new(n as nat, |i: int| text::joined(b.row_fields(i), ","@));
    if n == 0 {
        let e = Seq::<char>::empty();
        lemma_header(b);
        assert(text::lines_of(e) =~= Seq::<Seq<char>>::empty());
        text::lemma_next_line(e, h);
        assert(s =~= e + h + seq!['\n']);
        let l = text::lines_of(s);
        assert(l =~= seq![h]);
        assert(l.drop_last() =~= Seq::<Seq<char>>::empty());
        assert(kept(l.drop_last()) =~= Seq::<Seq<char>>::empty());
        assert(l.last() == h && text::trimmed(h).len() > 0);
        assert(kept(l) == kept(l.drop_last()).push(h));
        assert(kept(l) =~= seq![h] + rows);
    } else {
        lemma_built_lines(b, n - 1);
        lemma_row(b, n - 1);
        let p = h + "\n"@ + b.rows_text(n - 1);
        let line = text::joined(b.row_fields(n - 1), ","@);
        text::lemma_next_line(p, line);
        assert(s =~= p + line + seq!['\n']);
        let l = text::lines_of(s);
        assert(l.drop_last() =~= text::lines_of(p));
        assert(text::trimmed(line).len() > 0);
        let had = Seq::new((n - 1) as nat, |i: int| text::joined(b.row_fields(i), ","@));
        assert((seq![h] + had).push(line) =~= seq![h] + rows);
    }
}

/// What was built is read: the text of a builder gives its names and, field by field, its values.
pub proof fn lemma_built_is_read<S: Textual>(b: DatasetBuilder<S>, d: Dataset<S>)
    requires
        b.can_be_read(),
        is_parsed(d, b.csv(), ','),
    ensures
        d.cells() == headed_columns::<S>(b.headers(), b.values(), b.headers().len() as int),
{
    let n = b.num_rows as int;
    lemma_built_lines(b, n);
    lemma_header(b);
    let all = kept(text::lines_of(b.csv()));
    let rows = fields_of_lines(all.skip(1), ',');
    assert forall|i: int| 0 <= i < n implies rows[i] == #[trigger] b.values()[i] by {
        lemma_row(b, i);
        assert(all.skip(1)[i] == text::joined(b.row_fields(i), ","@));
    }
    assert(rows =~= b.values());
}

// ---- Synthetic data

/// The value of a feature: its mean, which grows with the class and the number of the feature,
/// plus noise from a number of a standard normal distribution. The noise deviates as much as
/// numbers that are spread evenly over six tenths.
pub open spec fn class_feature<S: Real>(class: usize, j: usize, normal: S) -> S {
    let mean = S::spec_count(class).spec_times(optim::ratio(8, 10)).spec_plus(
        S::spec_count(j).spec_times(optim::ratio(5, 100)),
    );
    let noise = normal.spec_times(optim::ratio(6, 10)).spec_over(S::spec_count(12).spec_sqrt());
    mean.spec_plus(noise)
}

/// A feature over all samples.
pub open spec fn class_column<S: Real>(
    n_samples: int,
    n_features: int,
    n_classes: int,
    draws: Seq<S>,
    j: int,
) -> Seq<S> {
    Seq::new(
        n_samples as nat,
        |i: int|
            class_feature(
                (i % n_classes) as usize,
                j as usize,
                random::gaussian_at(draws, i * n_features + j),
            ),
    )
}

/// The first `k` features as columns.
pub open spec fn feature_columns<S>(columns: spec_fn(int) -> Seq<S>, k: int) -> Map<
    Seq<char>,
    Cells<S>,
>
    decreases k,
{
    if k <= 0 {
        Map::empty()
    } else {
        feature_columns(columns, k - 1).insert(feature_name(k - 1), Cells::Float(columns(k - 1)))
    }
}

fn assemble<S: Real>(features: Vec<Vec<S>>, last: &str, values: Vec<S>, Ghost(columns): Ghost<
    spec_fn(int) -> Seq<S>,
>) -> (r: Dataset<S>)
    requires
        forall|j: int| 0 <= j < features@.len() ==> (#[trigger] features@[j])@ == columns(j),
        forall|j: int|
            0 <= j < features@.len() ==> (#[trigger] features@[j])@.len() == values@.len(),
    ensures
        r.wf(),
        r.source@ == "synthetic"@,
        r.num_rows == values@.len(),
        r.cells() == feature_columns(columns, features@.len() as int).insert(
            last@,
            Cells::Float(values@),
        ),
{
    let mut ds: Dataset<S> = Dataset::new("synthetic");
    for j in 0..features.len()
        invariant
            forall|k: int| 0 <= k < features@.len() ==> (#[trigger] features@[k])@ == columns(k),
            forall|k: int|
                0 <= k < features@.len() ==> (#[trigger] features@[k])@.len() == values@.len(),
            ds.wf(),
            ds.source@ == "synthetic"@,
            ds.num_rows <= values@.len(),
            ds.cells() == feature_columns(columns, j as int),
    {
        let name = feature_text(j);
        ds.add_float_column(name.as_str(), copy_slice(&features[j]));
        assert(features@[j as int]@ == columns(j as int));
    }
    ds.add_float_column(last, values);
    ds
}

/// A dataset for classification: the classes take turns, and each feature is a number around a
/// mean of its class, normally distributed. There are two random numbers for each feature of each
/// sample.
pub open spec fn is_classification<S: Real>(
    r: Dataset<S>,
    n_samples: usize,
    n_features: usize,
    n_classes: usize,
    draws: Seq<S>,
) -> bool {
    &&& r.wf()
    &&& r.source@ == "synthetic"@
    &&& r.num_rows == n_samples
    &&& r.cells() == feature_columns(
        |j: int| class_column(n_samples as int, n_features as int, n_classes as int, draws, j),
        n_features as int,
    ).insert(
        "label"@,
        Cells::Float(
            Seq::new(
                n_samples as nat,
                |i: int| S::spec_count((i % n_classes as int) as usize),
            ),
        ),
    )
}

/// A dataset for classification with random numbers.
pub fn make_classification<S: Real>(n_samples: usize, n_features: usize, n_classes: usize) -> (r:
    Dataset<S>)
    requires
        n_samples > 0 ==> n_classes > 0,
        2 * (n_samples * n_features) <= usize::MAX,
    ensures
        r.wf(),
        r.num_rows == n_samples,
        exists|draws: Seq<S>|
            #![trigger random::are_units(draws)]
            random::are_units(draws) && is_classification(
                r,
                n_samples,
                n_features,
                n_classes,
                draws,
            ),
{
    proof {
        assert(0 <= n_samples * n_features) by (nonlinear_arith);
    }
    let draws: Vec<S> = random_units(2 * (n_samples * n_features));
    classification_from(n_samples, n_features, n_classes, &draws)
}

/// A dataset for classification with the given random numbers.
#[verifier::loop_isolation(false)]
pub fn classification_from<S: Real>(
    n_samples: usize,
    n_features: usize,
    n_classes: usize,
    draws: &[S],
) -> (r: Dataset<S>)
    requires
        n_samples > 0 ==> n_classes > 0,
        draws@.len() == 2 * (n_samples * n_features),
    ensures
        is_classification(r, n_samples, n_features, n_classes, draws@),
{
    let ghost columns = |j: int|
        class_column(n_samples as int, n_features as int, n_classes as int, draws@, j);
    let len: usize = draws.len();
    let mut labels: Vec<S> = Vec::new();
    for i in 0..n_samples
        invariant
            labels@ =~= Seq::new(
                i as nat,
                |k: int| S::spec_count((k % n_classes as int) as usize),
            ),
    {
        labels.push(S::count(i % n_classes));
    }
    let mut features: Vec<Vec<S>> = Vec::new();
    for j in 0..n_features
        invariant
            features@.len() == j,
            forall|k: int| 0 <= k < j ==> (#[trigger] features@[k])@ == columns(k),
    {
        let mut feat: Vec<S> = Vec::new();
        for i in 0..n_samples
            invariant
                feat@ =~= columns(j as int).take(i as int),
        {
            proof {
                assert(i * n_features + j < n_samples * n_features) by (nonlinear_arith)
                    requires
                        i < n_samples,
                        j < n_features,
                ;
                assert(0 <= i * n_features) by (nonlinear_arith);
            }
            let class: usize = i % n_classes;
            let mean = S::count(class).times(fraction(8, 10)).plus(
                S::count(j).times(fraction(5, 100)),
            );
            let at: usize = i * n_features + j;
            let normal = normal_number(draws[2 * at], draws[2 * at + 1]);
            let noise = normal.times(fraction(6, 10)).over(S::count(12).sqrt());
            feat.push(mean.plus(noise));
        }
        assert(columns(j as int).take(n_samples as int) =~= columns(j as int));
        features.push(feat);
    }
    assemble(features, "label", labels, Ghost(columns))
}

/// A random number between zero and one, spread over minus one to one.
pub open spec fn spread<S: Real>(draw: S) -> S {
    draw.spec_times(S::spec_count(2)).spec_minus(S::spec_one())
}

fn spread_out<S: Real>(draw: S) -> (r: S)
    ensures
        r == spread(draw),
{
    draw.times(S::count(2)).minus(S::one())
}

/// The position of the random number for a feature of a sample: after those for the weights come,
/// for each sample, those for its features and one for its noise.
pub open spec fn draw_at(n_features: int, i: int, j: int) -> int {
    n_features + i * (n_features + 1) + j
}

/// A feature over all samples.
pub open spec fn regression_column<S: Real>(
    n_samples: int,
    n_features: int,
    draws: Seq<S>,
    j: int,
) -> Seq<S> {
    Seq::new(n_samples as nat, |i: int| spread(draws[draw_at(n_features, i, j)]))
}

/// The products of features and weights of a sample.
pub open spec fn weighted<S: Real>(n_features: int, draws: Seq<S>, i: int) -> spec_fn(int) -> S {
    |j: int| spread(draws[draw_at(n_features, i, j)]).spec_times(spread(draws[j]))
}

/// The target of a sample: the weighted sum of its features, plus noise.
pub open spec fn regression_target<S: Real>(n_features: int, draws: Seq<S>, i: int) -> S {
    number::sum_n(weighted(n_features, draws, i), n_features).spec_plus(
        draws[draw_at(n_features, i, n_features)].spec_minus(optim::ratio(1, 2)).spec_times(
            optim::ratio(1, 10),
        ),
    )
}

/// A dataset for regression: features and weights are spread over minus one to one, and the
/// target is the weighted sum plus noise.
pub open spec fn is_regression<S: Real>(
    r: Dataset<S>,
    n_samples: usize,
    n_features: usize,
    draws: Seq<S>,
) -> bool {
    &&& r.wf()
    &&& r.source@ == "synthetic"@
    &&& r.num_rows == n_samples
    &&& r.cells() == feature_columns(
        |j: int| regression_column(n_samples as int, n_features as int, draws, j),
        n_features as int,
    ).insert(
        "target"@,
        Cells::Float(
            Seq::new(
                n_samples as nat,
                |i: int| regression_target(n_features as int, draws, i),
            ),
        ),
    )
}

/// A dataset for regression with random numbers.
pub fn make_regression<S: Real>(n_samples: usize, n_features: usize) -> (r: Dataset<S>)
    requires
        n_features < usize::MAX,
        n_features + n_samples * (n_features + 1) <= usize::MAX,
    ensures
        r.wf(),
        r.num_rows == n_samples,
        exists|draws: Seq<S>|
            #![trigger random::are_units(draws)]
            random::are_units(draws) && is_regression(r, n_samples, n_features, draws),
{
    proof {
        assert(0 <= n_samples * (n_features + 1)) by (nonlinear_arith);
    }
    let draws: Vec<S> = random_units(n_features + n_samples * (n_features + 1));
    regression_from(n_samples, n_features, &draws)
}

/// A dataset for regression with the given random numbers.
#[verifier::loop_isolation(false)]
pub fn regression_from<S: Real>(n_samples: usize, n_features: usize, draws: &[S]) -> (r: Dataset<S>)
    requires
        n_features < usize::MAX,
        draws@.len() == n_features + n_samples * (n_features + 1),
    ensures
        is_regression(r, n_samples, n_features, draws@),
{
    let ghost nf = n_features as int;
    let ghost columns = |j: int| regression_column(n_samples as int, nf, draws@, j);
    let len: usize = draws.len();
    let stride: usize = n_features + 1;
    let mut targets: Vec<S> = Vec::new();
    for i in 0..n_samples
        invariant
            targets@ =~= Seq::new(i as nat, |k: int| regression_target(nf, draws@, k)),
    {
        proof {
            assert(nf + i * (nf + 1) + nf < nf + n_samples * (nf + 1)) by (nonlinear_arith)
                requires
                    i < n_samples,
                    0 <= nf,
            ;
            assert(0 <= i * (nf + 1)) by (nonlinear_arith)
                requires
                    0 <= nf,
            ;
        }
        let base: usize = n_features + i * stride;
        let mut y = S::zero();
        for j in 0..n_features
            invariant
                y == number::sum_n(weighted(nf, draws@, i as int), j as int),
        {
            assert(draw_at(nf, i as int, j as int) == base + j);
            y = y.plus(spread_out(draws[base + j]).times(spread_out(draws[j])));
        }
        let noise = draws[base + n_features].minus(fraction(1, 2)).times(fraction(1, 10));
        targets.push(y.plus(noise));
    }
    let mut features: Vec<Vec<S>> = Vec::new();
    for j in 0..n_features
        invariant
            features@.len() == j,
            forall|k: int| 0 <= k < j ==> (#[trigger] features@[k])@ == columns(k),
    {
        let mut feat: Vec<S> = Vec::new();
        for i in 0..n_samples
            invariant
                feat@ =~= columns(j as int).take(i as int),
        {
            proof {
                assert(nf + i * (nf + 1) + nf < nf + n_samples * (nf + 1)) by (nonlinear_arith)
                    requires
                        i < n_samples,
                        0 <= nf,
                ;
                assert(0 <= i * (nf + 1)) by (nonlinear_arith)
                    requires
                        0 <= nf,
                ;
            }
            let base: usize = n_features + i * stride;
            feat.push(spread_out(draws[base + j]));
        }
        assert(columns(j as int).take(n_samples as int) =~= columns(j as int));
        features.push(feat);
    }
    assemble(features, "target", targets, Ghost(columns))
}

} // verus!
