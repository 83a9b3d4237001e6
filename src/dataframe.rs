use vstd::prelude::*;
use vstd::string::StringExecFns;

use crate::datatype::{infer, predict_type, well_formed, DataType, Scalar};
use crate::results::{aggregate, all_well_formed, cells, summarize, texts, DescribeResult, Summary};
use crate::text::{
    lower_of, lowercase, remove_quotes, split_commas, split_fields,
    strip_quotes, trim, trim_of,
};

verus! {

/// The mathematical value of a table: its column names and its rows.
pub struct Table {
    pub header: Seq<Seq<char>>,
    pub data: Seq<Seq<Scalar>>,
}

/// A column name as the header line gives it: trimmed, in lower case,
/// without double quotes.
pub open spec fn header_name(field: Seq<char>) -> Seq<char> {
    strip_quotes(lower_of(trim_of(field)))
}

/// The column names of a header line.
pub open spec fn header_of(line: Seq<char>) -> Seq<Seq<char>> {
    split_commas(line).map_values(|f: Seq<char>| header_name(f))
}

/// The cells of a data line, each typed on its own, untrimmed.
pub open spec fn row_of(line: Seq<char>) -> Seq<Scalar> {
    split_commas(line).map_values(|f: Seq<char>| infer(f, lower_of(f)))
}

/// The table that a sequence of lines describes: the first line names the
/// columns, each later line is a row.
pub open spec fn table_of(lines: Seq<Seq<char>>) -> Table {
    if lines.len() == 0 {
        Table { header: Seq::empty(), data: Seq::empty() }
    } else {
        Table {
            header: header_of(lines[0]),
            data: lines.subrange(1, lines.len() as int).map_values(|l: Seq<char>| row_of(l)),
        }
    }
}

/// The cells of column `c`, row by row; a row too short to hold the column
/// is left out.
pub open spec fn column_of(data: Seq<Seq<Scalar>>, c: int) -> Seq<Scalar>
    decreases data.len(),
{
    if data.len() == 0 {
        Seq::empty()
    } else if 0 <= c < data.last().len() {
        column_of(data.drop_last(), c).push(data.last()[c])
    } else {
        column_of(data.drop_last(), c)
    }
}

/// The position of the first entry named `k`, or the length where none is.
pub open spec fn name_index(e: Seq<Summary>, k: Seq<char>) -> nat
    decreases e.len(),
{
    if e.len() == 0 {
        0
    } else if e[0].name() == k {
        0
    } else {
        1 + name_index(e.subrange(1, e.len() as int), k)
    }
}

/// Map semantics over a sequence: an entry of the same name is replaced in
/// place, a new name is added at the end.
pub open spec fn upsert(e: Seq<Summary>, s: Summary) -> Seq<Summary> {
    let i = name_index(e, s.name());
    if i < e.len() {
        e.update(i as int, s)
    } else {
        e.push(s)
    }
}

/// The report over the first `n` columns of `t`, in header order.
pub open spec fn report_upto(t: Table, n: nat) -> Seq<Summary>
    decreases n,
{
    if n == 0 {
        Seq::empty()
    } else {
        let prev = report_upto(t, (n - 1) as nat);
        match summarize(column_of(t.data, n - 1), t.header[n - 1]) {
            Some(s) => upsert(prev, s),
            None => prev,
        }
    }
}

/// The report over every column of `t`.
pub open spec fn describe_table(t: Table) -> Seq<Summary> {
    report_upto(t, t.header.len())
}

/// Whether every decimal cell of `t` is written as a decimal.
pub open spec fn table_well_formed(t: Table) -> bool {
    forall|r: int, c: int|
        0 <= r < t.data.len() && 0 <= c < t.data[r].len() ==> well_formed(#[trigger] t.data[r][c])
}

proof fn lemma_column_well_formed(data: Seq<Seq<Scalar>>, c: int)
    requires
        forall|r: int, k: int|
            0 <= r < data.len() && 0 <= k < data[r].len() ==> well_formed(#[trigger] data[r][k]),
    ensures
        all_well_formed(column_of(data, c)),
    decreases data.len(),
{
    if data.len() > 0 {
        let init = data.drop_last();
        assert forall|r: int, k: int| 0 <= r < init.len() && 0 <= k < init[r].len() implies well_formed(
            #[trigger] init[r][k],
        ) by {
            assert(init[r] == data[r]);
        }
        lemma_column_well_formed(init, c);
        if 0 <= c < data.last().len() {
            assert(well_formed(data[data.len() - 1][c]));
            let col = column_of(data, c);
            assert forall|i: int| 0 <= i < col.len() implies well_formed(#[trigger] col[i]) by {
                if i < col.len() - 1 {
                    assert(col[i] == column_of(init, c)[i]);
                }
            }
        }
    }
}

/// Rows of typed cells under a header of column names.
pub struct DataFrame {
    header: Vec<String>,
    data: Vec<Vec<DataType>>,
}

/// One description per column name, the later column winning where two
/// columns share a name.
pub struct DescribeReport {
    entries: Vec<DescribeResult>,
}

impl DataFrame {
    #[verifier::type_invariant]
    closed spec fn cells_well_formed(self) -> bool {
        table_well_formed(self@)
    }
}

impl View for DataFrame {
    type V = Table;

    closed spec fn view(&self) -> Table {
        Table {
            header: texts(self.header@),
            data: self.data@.map_values(|row: Vec<DataType>| cells(row@)),
        }
    }
}

impl View for DescribeReport {
    type V = Seq<Summary>;

    closed spec fn view(&self) -> Seq<Summary> {
        self.entries@.map_values(|r: DescribeResult| r@)
    }
}

proof fn lemma_name_index(e: Seq<Summary>, k: Seq<char>, i: int)
    requires
        0 <= i <= e.len(),
        forall|j: int| 0 <= j < i ==> (#[trigger] e[j]).name() != k,
        i == e.len() || e[i].name() == k,
    ensures
        name_index(e, k) == i,
    decreases i,
{
    if i > 0 {
        let rest = e.subrange(1, e.len() as int);
        assert forall|j: int| 0 <= j < i - 1 implies (#[trigger] rest[j]).name() != k by {
            assert(rest[j] == e[j + 1]);
        }
        assert(e[0].name() != k);
        lemma_name_index(rest, k, i - 1);
    }
}

/// Where the first description named `name` stands, or the length where
/// none is.
fn position_of(entries: &Vec<DescribeResult>, name: &String) -> (r: usize)
    ensures
        r == name_index(entries@.map_values(|x: DescribeResult| x@), name@),
{
    let ghost e = entries@.map_values(|x: DescribeResult| x@);
    let mut j: usize = 0;
    while j < entries.len()
        invariant
            e == entries@.map_values(|x: DescribeResult| x@),
            j <= e.len(),
            forall|m: int| 0 <= m < j ==> (#[trigger] e[m]).name() != name@,
        decreases e.len() - j,
    {
        assert(e[j as int] == entries@[j as int]@);
        if *entries[j].name() == *name {
            proof {
                lemma_name_index(e, name@, j as int);
            }
            return j;
        }
        j = j + 1;
    }
    proof {
        lemma_name_index(e, name@, j as int);
    }
    j
}

/// Copies a row cell by cell.
fn copy_row(row: &Vec<DataType>) -> (r: Vec<DataType>)
    ensures
        cells(r@) == cells(row@),
{
    let mut out: Vec<DataType> = Vec::new();
    let mut i: usize = 0;
    while i < row.len()
        invariant
            i <= row@.len(),
            out@.len() == i,
            forall|k: int| 0 <= k < i ==> (#[trigger] out@[k])@ == row@[k]@,
        decreases row@.len() - i,
    {
        out.push(row[i].duplicate());
        i = i + 1;
    }
    assert(cells(out@) =~= cells(row@));
    out
}

/// The column names of a header line: each field trimmed, in lower case,
/// without double quotes.
pub fn parse_header(line: &str) -> (r: Vec<String>)
    ensures
        texts(r@) == header_of(line@),
{
    let fields = split_fields(line);
    let mut out: Vec<String> = Vec::new();
    let mut i: usize = 0;
    while i < fields.len()
        invariant
            fields@.len() == split_commas(line@).len(),
            forall|k: int| 0 <= k < fields@.len() ==> #[trigger] fields@[k]@ == split_commas(line@)[k],
            i <= fields@.len(),
            out@.len() == i,
            forall|k: int| 0 <= k < i ==> (#[trigger] out@[k])@ == header_name(fields@[k]@),
        decreases fields@.len() - i,
    {
        let trimmed = trim(fields[i].as_str());
        let lowered = lowercase(trimmed.as_str());
        out.push(remove_quotes(lowered.as_str()));
        i = i + 1;
    }
    assert(texts(out@) =~= header_of(line@));
    out
}

/// The typed cells of a data line.
pub fn parse_row(line: &str) -> (r: Vec<DataType>)
    ensures
        cells(r@) == row_of(line@),
{
    let fields = split_fields(line);
    let mut out: Vec<DataType> = Vec::new();
    let mut i: usize = 0;
    while i < fields.len()
        invariant
            fields@.len() == split_commas(line@).len(),
            forall|k: int| 0 <= k < fields@.len() ==> #[trigger] fields@[k]@ == split_commas(line@)[k],
            i <= fields@.len(),
            out@.len() == i,
            forall|k: int|
                0 <= k < i ==> (#[trigger] out@[k])@ == infer(fields@[k]@, lower_of(fields@[k]@)),
        decreases fields@.len() - i,
    {
        out.push(predict_type(fields[i].as_str()));
        i = i + 1;
    }
    assert(cells(out@) =~= row_of(line@));
    out
}

impl DataFrame {
    /// A table with no columns and no rows.
    pub fn new() -> (r: DataFrame)
        ensures
            r@.header.len() == 0,
            r@.data.len() == 0,
    {
        DataFrame { header: Vec::new(), data: Vec::new() }
    }

    /// The table of a sequence of lines: the first names the columns, every
    /// later one is a row. Rows are kept whatever their number of cells.
    pub fn from_lines(lines: &Vec<String>) -> (r: DataFrame)
        ensures
            r@ == table_of(texts(lines@)),
    {
        if lines.len() == 0 {
            let r = DataFrame::new();
            assert(r@.header =~= Seq::<Seq<char>>::empty());
            assert(r@.data =~= Seq::<Seq<Scalar>>::empty());
            return r;
        }
        let header = parse_header(lines[0].as_str());
        let ghost ls = texts(lines@);
        let mut data: Vec<Vec<DataType>> = Vec::new();
        let mut i: usize = 1;
        while i < lines.len()
            invariant
                ls == texts(lines@),
                1 <= i <= lines@.len(),
                data@.len() == i - 1,
                forall|k: int|
                    0 <= k < i - 1 ==> cells((#[trigger] data@[k])@) == row_of(lines@[k + 1]@),
                forall|k: int, c: int|
                    0 <= k < data@.len() && 0 <= c < data@[k]@.len() ==> well_formed(
                        #[trigger] data@[k]@[c]@,
                    ),
            decreases lines@.len() - i,
        {
            let row = parse_row(lines[i].as_str());
            proof {
                let fs = split_commas(lines@[i as int]@);
                assert forall|c: int| 0 <= c < row@.len() implies well_formed(
                    #[trigger] row@[c]@,
                ) by {
                    assert(cells(row@).len() == row@.len());
                    assert(row_of(lines@[i as int]@).len() == fs.len());
                    assert(cells(row@)[c] == row_of(lines@[i as int]@)[c]);
                    assert(row_of(lines@[i as int]@)[c] == infer(fs[c], lower_of(fs[c])));
                }
            }
            data.push(row);
            i = i + 1;
        }
        let ghost v = Table {
            header: texts(header@),
            data: data@.map_values(|row: Vec<DataType>| cells(row@)),
        };
        assert forall|r: int, c: int| 0 <= r < v.data.len() && 0 <= c < v.data[r].len() implies well_formed(
            #[trigger] v.data[r][c],
        ) by {
            assert(v.data[r][c] == data@[r]@[c]@);
        }
        let r = DataFrame { header, data };
        assert(r@.data =~= ls.subrange(1, ls.len() as int).map_values(|l: Seq<char>| row_of(l)));
        r
    }

    /// The column names.
    pub fn header(&self) -> (r: &Vec<String>)
        ensures
            texts(r@) == self@.header,
    {
        &self.header
    }

    /// The number of rows.
    pub fn row_count(&self) -> (r: usize)
        ensures
            r == self@.data.len(),
    {
        self.data.len()
    }

    /// A copy of row `row`, or none past the last row.
    pub fn get_row(&self, row: usize) -> (r: Option<Vec<DataType>>)
        ensures
            row < self@.data.len() <==> r is Some,
            r matches Some(v) ==> cells(v@) == self@.data[row as int],
    {
        if row < self.data.len() {
            Some(copy_row(&self.data[row]))
        } else {
            None
        }
    }

    /// The cells of column `col`, with rows too short to hold it left out.
    fn column(&self, col: usize) -> (r: Vec<DataType>)
        ensures
            cells(r@) == column_of(self@.data, col as int),
            all_well_formed(cells(r@)),
    {
        proof {
            use_type_invariant(self);
            lemma_column_well_formed(self@.data, col as int);
        }
        let ghost d = self@.data;
        let mut out: Vec<DataType> = Vec::new();
        let mut i: usize = 0;
        while i < self.data.len()
            invariant
                d == self@.data,
                i <= d.len(),
                cells(out@) == column_of(d.subrange(0, i as int), col as int),
            decreases d.len() - i,
        {
            assert(d.subrange(0, i + 1).drop_last() =~= d.subrange(0, i as int));
            assert(d[i as int] == cells(self.data@[i as int]@));
            if col < self.data[i].len() {
                let ghost before = out@;
                out.push(self.data[i][col].duplicate());
                assert(cells(out@) =~= cells(before).push(d[i as int][col as int]));
            }
            i = i + 1;
        }
        assert(d.subrange(0, d.len() as int) =~= d);
        out
    }

    /// The cells of column `col`, or none past the last column. A row too
    /// short to hold the column is left out.
    pub fn get_col(&self, col: usize) -> (r: Option<Vec<DataType>>)
        ensures
            col < self@.header.len() <==> r is Some,
            r matches Some(v) ==> cells(v@) == column_of(self@.data, col as int),
    {
        if col < self.header.len() {
            Some(self.column(col))
        } else {
            None
        }
    }

    /// Describes every column in header order by its first cell; a column
    /// that is empty or whose first cell is absent is left out, and of two
    /// columns of one name the later description is kept.
    pub fn describe(&self) -> (r: DescribeReport)
        ensures
            r@ == describe_table(self@),
    {
        let mut entries: Vec<DescribeResult> = Vec::new();
        let mut i: usize = 0;
        while i < self.header.len()
            invariant
                i <= self@.header.len(),
                entries@.map_values(|r: DescribeResult| r@) == report_upto(self@, i as nat),
            decreases self@.header.len() - i,
        {
            let col = self.column(i);
            match aggregate(&col, &self.header[i]) {
                Some(res) => {
                    let ghost e = entries@.map_values(|r: DescribeResult| r@);
                    let ghost s = res@;
                    let j = position_of(&entries, res.name());
                    if j < entries.len() {
                        entries.set(j, res);
                        assert(entries@.map_values(|r: DescribeResult| r@) =~= e.update(
                            j as int,
                            s,
                        ));
                    } else {
                        entries.push(res);
                        assert(entries@.map_values(|r: DescribeResult| r@) =~= e.push(s));
                    }
                },
                None => {},
            }
            i = i + 1;
        }
        DescribeReport { entries }
    }
}

impl DescribeReport {
    /// The number of columns described.
    pub fn len(&self) -> (r: usize)
        ensures
            r == self@.len(),
    {
        self.entries.len()
    }

    /// The descriptions, one per column name.
    pub fn entries(&self) -> (r: &Vec<DescribeResult>)
        ensures
            r@.map_values(|x: DescribeResult| x@) == self@,
    {
        &self.entries
    }

    /// The descriptions, taken out of the report.
    pub fn into_entries(self) -> (r: Vec<DescribeResult>)
        ensures
            r@.map_values(|x: DescribeResult| x@) == self@,
    {
        self.entries
    }

    /// The description of the column named `name`, if there is one.
    pub fn get(&self, name: &str) -> (r: Option<&DescribeResult>)
        ensures
            name_index(self@, name@) < self@.len() <==> r is Some,
            r matches Some(x) ==> x@ == self@[name_index(self@, name@) as int],
    {
        let key = String::from_str(name);
        let j = position_of(&self.entries, &key);
        if j < self.entries.len() {
            Some(&self.entries[j])
        } else {
            None
        }
    }
}

/// Whether some entry of `e` is named `k`.
pub open spec fn has_name(e: Seq<Summary>, k: Seq<char>) -> bool {
    exists|j: int| 0 <= j < e.len() && (#[trigger] e[j]).name() == k
}

/// Whether some column of `t` is named `k` and has a description.
pub open spec fn described_column(t: Table, n: nat, k: Seq<char>) -> bool {
    exists|i: int|
        0 <= i < n && i < t.header.len() && #[trigger] t.header[i] == k && summarize(
            column_of(t.data, i),
            t.header[i],
        ) is Some
}

proof fn lemma_name_index_found(e: Seq<Summary>, k: Seq<char>)
    ensures
        name_index(e, k) <= e.len(),
        name_index(e, k) < e.len() <==> has_name(e, k),
        name_index(e, k) < e.len() ==> e[name_index(e, k) as int].name() == k,
    decreases e.len(),
{
    if e.len() > 0 && e[0].name() != k {
        let rest = e.subrange(1, e.len() as int);
        lemma_name_index_found(rest, k);
        if has_name(e, k) {
            let j = choose|j: int| 0 <= j < e.len() && (#[trigger] e[j]).name() == k;
            assert(rest[j - 1] == e[j]);
        }
        if has_name(rest, k) {
            let j = choose|j: int| 0 <= j < rest.len() && (#[trigger] rest[j]).name() == k;
            assert(rest[j] == e[j + 1]);
        }
    } else if e.len() > 0 {
        assert(e[0].name() == k);
    }
}

proof fn lemma_upsert_names(e: Seq<Summary>, s: Summary, k: Seq<char>)
    ensures
        has_name(upsert(e, s), k) <==> (has_name(e, k) || k == s.name()),
{
    lemma_name_index_found(e, s.name());
    let i = name_index(e, s.name());
    let u = upsert(e, s);
    if i < e.len() {
        if has_name(e, k) {
            let j = choose|j: int| 0 <= j < e.len() && (#[trigger] e[j]).name() == k;
            assert(u[j].name() == k);
        }
        if k == s.name() {
            assert(u[i as int].name() == k);
        }
        if has_name(u, k) {
            let j = choose|j: int| 0 <= j < u.len() && (#[trigger] u[j]).name() == k;
            if j != i {
                assert(e[j].name() == k);
            }
        }
    } else {
        if has_name(e, k) {
            let j = choose|j: int| 0 <= j < e.len() && (#[trigger] e[j]).name() == k;
            assert(u[j].name() == k);
        }
        if k == s.name() {
            assert(u[e.len() as int].name() == k);
        }
        if has_name(u, k) {
            let j = choose|j: int| 0 <= j < u.len() && (#[trigger] u[j]).name() == k;
            if j < e.len() {
                assert(e[j].name() == k);
            }
        }
    }
}

proof fn lemma_report_upto_names(t: Table, n: nat, k: Seq<char>)
    requires
        n <= t.header.len(),
    ensures
        has_name(report_upto(t, n), k) <==> described_column(t, n, k),
    decreases n,
{
    if n > 0 {
        let m = (n - 1) as nat;
        lemma_report_upto_names(t, m, k);
        let prev = report_upto(t, m);
        let sm = summarize(column_of(t.data, m as int), t.header[m as int]);
        if described_column(t, n, k) {
            let i = choose|i: int|
                0 <= i < n && i < t.header.len() && #[trigger] t.header[i] == k && summarize(
                    column_of(t.data, i),
                    t.header[i],
                ) is Some;
            if i < m {
                assert(described_column(t, m, k));
            }
        }
        if described_column(t, m, k) {
            let i = choose|i: int|
                0 <= i < m && i < t.header.len() && #[trigger] t.header[i] == k && summarize(
                    column_of(t.data, i),
                    t.header[i],
                ) is Some;
            assert(described_column(t, n, k));
        }
        match sm {
            Some(s) => {
                lemma_upsert_names(prev, s, k);
                if k == s.name() {
                    assert(t.header[m as int] == k);
                    assert(described_column(t, n, k));
                }
            },
            None => {},
        }
    }
}

/// A report holds a column name exactly where some column of that name has
/// a description: a column that is empty or whose first cell is absent adds
/// no entry of its own.
pub proof fn lemma_report_names(t: Table, k: Seq<char>)
    ensures
        has_name(describe_table(t), k) <==> described_column(t, t.header.len(), k),
{
    lemma_report_upto_names(t, t.header.len(), k);
}

/// A column whose first cell is absent is described by nothing.
pub proof fn lemma_absent_first_cell(t: Table, i: int)
    requires
        0 <= i < t.header.len(),
        column_of(t.data, i).len() > 0,
        column_of(t.data, i)[0] is Absent,
    ensures
        summarize(column_of(t.data, i), t.header[i]) is None,
{
}

/// Describing a table twice gives the same report.
pub proof fn lemma_describe_repeatable(df: &DataFrame, r1: &DescribeReport, r2: &DescribeReport)
    requires
        r1@ == describe_table(df@),
        r2@ == describe_table(df@),
    ensures
        r1@ == r2@,
{
}

} // verus!
