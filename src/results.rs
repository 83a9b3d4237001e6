use vstd::prelude::*;

use crate::datatype::{well_formed, DataType, Scalar};
use crate::number::{lemma_num_le_total_preorder, num_le, number_le};

verus! {

/// The values of a sequence of cells.
pub open spec fn cells(v: Seq<DataType>) -> Seq<Scalar> {
    v.map_values(|c: DataType| c@)
}

/// The character sequences of a sequence of strings.
pub open spec fn texts(v: Seq<String>) -> Seq<Seq<char>> {
    v.map_values(|s: String| s@)
}

pub struct BooleanSummary {
    pub name: Seq<char>,
    pub dtype: Scalar,
    pub null_count: nat,
    pub true_count: nat,
    pub false_count: nat,
}

pub struct CategoricalSummary {
    pub name: Seq<char>,
    pub dtype: Scalar,
    pub null_count: nat,
    pub unique_count: nat,
    pub unique_values: Seq<Seq<char>>,
    pub most_freq_value: Seq<char>,
    pub most_freq_count: nat,
}

pub struct NumericSummary {
    pub name: Seq<char>,
    pub dtype: Scalar,
    pub null_count: nat,
    pub min: Scalar,
    pub max: Scalar,
    pub values: Seq<Scalar>,
}

pub enum Summary {
    Numeric(NumericSummary),
    Categorical(CategoricalSummary),
    Boolean(BooleanSummary),
}

impl Summary {
    pub open spec fn name(self) -> Seq<char> {
        match self {
            Summary::Numeric(n) => n.name,
            Summary::Categorical(c) => c.name,
            Summary::Boolean(b) => b.name,
        }
    }
}

/// Counts of a boolean column.
pub struct BooleanDescribeResult {
    pub name: String,
    pub dtype: DataType,
    pub null_count: usize,
    pub true_count: usize,
    pub false_count: usize,
}

/// Frequencies of a text column.
pub struct CategoricalDescribeResult {
    pub name: String,
    pub dtype: DataType,
    pub null_count: usize,
    pub unique_count: usize,
    pub unique_values: Vec<String>,
    pub most_freq_value: String,
    pub most_freq_count: usize,
}

/// A numeric column: the cells that are not numbers are counted, the
/// smallest and the largest number are picked by exact comparison, and the
/// numbers are kept in order for the floating-point mean and population
/// deviation to be taken over them.
pub struct NumericDescribeResult {
    pub name: String,
    pub dtype: DataType,
    pub null_count: usize,
    pub min: DataType,
    pub max: DataType,
    pub values: Vec<DataType>,
}

pub enum DescribeResult {
    Numeric(NumericDescribeResult),
    Categorical(CategoricalDescribeResult),
    Boolean(BooleanDescribeResult),
}

impl View for BooleanDescribeResult {
    type V = BooleanSummary;

    open spec fn view(&self) -> BooleanSummary {
        BooleanSummary {
            name: self.name@,
            dtype: self.dtype@,
            null_count: self.null_count as nat,
            true_count: self.true_count as nat,
            false_count: self.false_count as nat,
        }
    }
}

impl View for CategoricalDescribeResult {
    type V = CategoricalSummary;

    open spec fn view(&self) -> CategoricalSummary {
        CategoricalSummary {
            name: self.name@,
            dtype: self.dtype@,
            null_count: self.null_count as nat,
            unique_count: self.unique_count as nat,
            unique_values: texts(self.unique_values@),
            most_freq_value: self.most_freq_value@,
            most_freq_count: self.most_freq_count as nat,
        }
    }
}

impl View for NumericDescribeResult {
    type V = NumericSummary;

    open spec fn view(&self) -> NumericSummary {
        NumericSummary {
            name: self.name@,
            dtype: self.dtype@,
            null_count: self.null_count as nat,
            min: self.min@,
            max: self.max@,
            values: cells(self.values@),
        }
    }
}

impl View for DescribeResult {
    type V = Summary;

    open spec fn view(&self) -> Summary {
        match self {
            DescribeResult::Numeric(n) => Summary::Numeric(n@),
            DescribeResult::Categorical(c) => Summary::Categorical(c@),
            DescribeResult::Boolean(b) => Summary::Boolean(b@),
        }
    }
}

impl DescribeResult {
    /// The name of the column described.
    pub fn name(&self) -> (r: &String)
        ensures
            r@ == self@.name(),
    {
        match self {
            DescribeResult::Numeric(n) => &n.name,
            DescribeResult::Categorical(c) => &c.name,
            DescribeResult::Boolean(b) => &b.name,
        }
    }
}

/// How many cells of `col` are the boolean `b`.
pub open spec fn count_bool(col: Seq<Scalar>, b: bool) -> nat
    decreases col.len(),
{
    if col.len() == 0 {
        0
    } else {
        count_bool(col.drop_last(), b) + if col.last() == Scalar::Bool(b) {
            1nat
        } else {
            0nat
        }
    }
}

pub open spec fn is_number(x: Scalar) -> bool {
    x is Int || x is Float
}

/// How many cells of `col` are not numbers.
pub open spec fn count_non_numbers(col: Seq<Scalar>) -> nat
    decreases col.len(),
{
    if col.len() == 0 {
        0
    } else {
        count_non_numbers(col.drop_last()) + if is_number(col.last()) {
            0nat
        } else {
            1nat
        }
    }
}

/// The numbers of `col`, in order.
pub open spec fn numbers_of(col: Seq<Scalar>) -> Seq<Scalar>
    decreases col.len(),
{
    if col.len() == 0 {
        Seq::empty()
    } else if is_number(col.last()) {
        numbers_of(col.drop_last()).push(col.last())
    } else {
        numbers_of(col.drop_last())
    }
}

/// The smallest number of `v`, the earliest of equal ones.
pub open spec fn min_of(v: Seq<Scalar>) -> Scalar
    decreases v.len(),
{
    if v.len() <= 1 {
        v[0]
    } else {
        let m = min_of(v.drop_last());
        if num_le(m, v.last()) {
            m
        } else {
            v.last()
        }
    }
}

/// The largest number of `v`, the earliest of equal ones.
pub open spec fn max_of(v: Seq<Scalar>) -> Scalar
    decreases v.len(),
{
    if v.len() <= 1 {
        v[0]
    } else {
        let m = max_of(v.drop_last());
        if num_le(v.last(), m) {
            m
        } else {
            v.last()
        }
    }
}

/// Whether every cell of `col` is well formed.
pub open spec fn all_well_formed(col: Seq<Scalar>) -> bool {
    forall|i: int| 0 <= i < col.len() ==> well_formed(#[trigger] col[i])
}

/// What a single pass over a text column has gathered so far.
pub struct CategoricalState {
    pub null_count: nat,
    pub unique_values: Seq<Seq<char>>,
    pub most_freq_value: Seq<char>,
    pub most_freq_count: nat,
}

/// One step of the pass: an empty text is a null; a new non-empty text joins
/// the unique values; the first non-empty text becomes the candidate for the
/// most frequent value, and only its later repeats are counted. Cells that
/// are not text are passed over.
pub open spec fn categorical_step(st: CategoricalState, x: Scalar) -> CategoricalState {
    match x {
        Scalar::Text(t) => {
            if t.len() == 0 {
                CategoricalState { null_count: st.null_count + 1, ..st }
            } else {
                let uniques = if st.unique_values.contains(t) {
                    st.unique_values
                } else {
                    st.unique_values.push(t)
                };
                if st.most_freq_count < 1 {
                    CategoricalState {
                        unique_values: uniques,
                        most_freq_value: t,
                        most_freq_count: 1,
                        ..st
                    }
                } else if st.most_freq_value == t {
                    CategoricalState {
                        unique_values: uniques,
                        most_freq_count: st.most_freq_count + 1,
                        ..st
                    }
                } else {
                    CategoricalState { unique_values: uniques, ..st }
                }
            }
        },
        _ => st,
    }
}

pub open spec fn categorical_fold(col: Seq<Scalar>) -> CategoricalState
    decreases col.len(),
{
    if col.len() == 0 {
        CategoricalState {
            null_count: 0,
            unique_values: Seq::empty(),
            most_freq_value: Seq::empty(),
            most_freq_count: 0,
        }
    } else {
        categorical_step(categorical_fold(col.drop_last()), col.last())
    }
}

/// The description of a column named `name`, chosen by its first cell:
/// none for an empty column or one whose first cell is absent.
pub open spec fn summarize(col: Seq<Scalar>, name: Seq<char>) -> Option<Summary> {
    if col.len() == 0 {
        None
    } else {
        match col[0] {
            Scalar::Absent => None,
            Scalar::Bool(_) => Some(
                Summary::Boolean(
                    BooleanSummary {
                        name,
                        dtype: col[0],
                        null_count: 0,
                        true_count: count_bool(col, true),
                        false_count: count_bool(col, false),
                    },
                ),
            ),
            Scalar::Int(_) | Scalar::Float(_) => Some(
                Summary::Numeric(
                    NumericSummary {
                        name,
                        dtype: col[0],
                        null_count: count_non_numbers(col),
                        min: min_of(numbers_of(col)),
                        max: max_of(numbers_of(col)),
                        values: numbers_of(col),
                    },
                ),
            ),
            Scalar::Text(_) => {
                let st = categorical_fold(col);
                Some(
                    Summary::Categorical(
                        CategoricalSummary {
                            name,
                            dtype: col[0],
                            null_count: st.null_count,
                            unique_count: st.unique_values.len(),
                            unique_values: st.unique_values,
                            most_freq_value: st.most_freq_value,
                            most_freq_count: st.most_freq_count,
                        },
                    ),
                )
            },
        }
    }
}

pub open spec fn opt_view(r: Option<DescribeResult>) -> Option<Summary> {
    match r {
        Some(x) => Some(x@),
        None => None,
    }
}

/// Whether `t` is among `v`.
fn contains_text(v: &Vec<String>, t: &String) -> (r: bool)
    ensures
        r == texts(v@).contains(t@),
{
    let mut i: usize = 0;
    while i < v.len()
        invariant
            i <= v@.len(),
            forall|k: int| 0 <= k < i ==> texts(v@)[k] != t@,
        decreases v@.len() - i,
    {
        if v[i] == *t {
            assert(texts(v@)[i as int] == t@);
            return true;
        }
        i = i + 1;
    }
    false
}

/// Counts the true and false cells of a column; other cells are passed over.
pub fn describe_boolean(col: &Vec<DataType>, name: &String) -> (r: BooleanDescribeResult)
    requires
        col@.len() > 0,
    ensures
        r@ == (BooleanSummary {
            name: name@,
            dtype: cells(col@)[0],
            null_count: 0,
            true_count: count_bool(cells(col@), true),
            false_count: count_bool(cells(col@), false),
        }),
{
    let ghost cs = cells(col@);
    let mut true_count: usize = 0;
    let mut false_count: usize = 0;
    let mut i: usize = 0;
    while i < col.len()
        invariant
            cs == cells(col@),
            i <= col@.len(),
            true_count == count_bool(cs.subrange(0, i as int), true),
            false_count == count_bool(cs.subrange(0, i as int), false),
            true_count + false_count <= i,
        decreases col@.len() - i,
    {
        assert(cs.subrange(0, i + 1).drop_last() =~= cs.subrange(0, i as int));
        match &col[i] {
            DataType::Bool(b) => {
                if *b {
                    true_count = true_count + 1;
                } else {
                    false_count = false_count + 1;
                }
            },
            _ => {},
        }
        i = i + 1;
    }
    assert(cs.subrange(0, col@.len() as int) =~= cs);
    BooleanDescribeResult {
        name: name.clone(),
        dtype: col[0].duplicate(),
        null_count: 0,
        true_count,
        false_count,
    }
}

/// Counts the cells that are not numbers, picks the smallest and the
/// largest number, and keeps the numbers in order.
pub fn describe_numeric(col: &Vec<DataType>, name: &String) -> (r: NumericDescribeResult)
    requires
        col@.len() > 0,
        is_number(cells(col@)[0]),
        all_well_formed(cells(col@)),
    ensures
        r@ == (NumericSummary {
            name: name@,
            dtype: cells(col@)[0],
            null_count: count_non_numbers(cells(col@)),
            min: min_of(numbers_of(cells(col@))),
            max: max_of(numbers_of(cells(col@))),
            values: numbers_of(cells(col@)),
        }),
{
    let ghost cs = cells(col@);
    let mut null_count: usize = 0;
    let mut values: Vec<DataType> = Vec::new();
    let mut min = col[0].duplicate();
    let mut max = col[0].duplicate();
    let mut i: usize = 0;
    assert(well_formed(cs[0]));
    while i < col.len()
        invariant
            cs == cells(col@),
            all_well_formed(cs),
            is_number(cs[0]),
            0 < cs.len(),
            i <= col@.len(),
            null_count == count_non_numbers(cs.subrange(0, i as int)),
            cells(values@) == numbers_of(cs.subrange(0, i as int)),
            i > 0 ==> values@.len() > 0,
            values@.len() == 0 ==> min@ == cs[0] && max@ == cs[0],
            values@.len() > 0 ==> min@ == min_of(cells(values@)),
            values@.len() > 0 ==> max@ == max_of(cells(values@)),
            is_number(min@) && well_formed(min@),
            is_number(max@) && well_formed(max@),
            null_count <= i,
        decreases col@.len() - i,
    {
        assert(cs.subrange(0, i + 1).drop_last() =~= cs.subrange(0, i as int));
        assert(cs[i as int] == col@[i as int]@);
        assert(well_formed(cs[i as int]));
        match &col[i] {
            DataType::Int(_) | DataType::Float(_) => {
                let ghost before = values@;
                if values.len() > 0 {
                    if !number_le(&min, &col[i]) {
                        min = col[i].duplicate();
                    }
                    if !number_le(&col[i], &max) {
                        max = col[i].duplicate();
                    }
                } else {
                    assert(i == 0);
                }
                values.push(col[i].duplicate());
                assert(cells(values@) =~= cells(before).push(cs[i as int]));
                assert(cells(values@).drop_last() =~= cells(before));
            },
            _ => {
                null_count = null_count + 1;
            },
        }
        i = i + 1;
    }
    assert(cs.subrange(0, col@.len() as int) =~= cs);
    NumericDescribeResult {
        name: name.clone(),
        dtype: col[0].duplicate(),
        null_count,
        min,
        max,
        values,
    }
}

/// Gathers the nulls, the unique values in the order first seen, and the
/// most frequent value by the single-candidate rule of `categorical_step`.
pub fn describe_categorical(col: &Vec<DataType>, name: &String) -> (r: CategoricalDescribeResult)
    requires
        col@.len() > 0,
    ensures
        ({
            let st = categorical_fold(cells(col@));
            r@ == (CategoricalSummary {
                name: name@,
                dtype: cells(col@)[0],
                null_count: st.null_count,
                unique_count: st.unique_values.len(),
                unique_values: st.unique_values,
                most_freq_value: st.most_freq_value,
                most_freq_count: st.most_freq_count,
            })
        }),
{
    let ghost cs = cells(col@);
    let mut null_count: usize = 0;
    let mut unique_count: usize = 0;
    let mut unique_values: Vec<String> = Vec::new();
    let mut most_freq_value = String::new();
    let mut most_freq_count: usize = 0;
    let mut i: usize = 0;
    while i < col.len()
        invariant
            cs == cells(col@),
            i <= col@.len(),
            ({
                let st = categorical_fold(cs.subrange(0, i as int));
                &&& null_count == st.null_count
                &&& texts(unique_values@) == st.unique_values
                &&& most_freq_value@ == st.most_freq_value
                &&& most_freq_count == st.most_freq_count
            }),
            unique_count == unique_values@.len(),
            null_count <= i,
            unique_count <= i,
            most_freq_count <= i,
        decreases col@.len() - i,
    {
        assert(cs.subrange(0, i + 1).drop_last() =~= cs.subrange(0, i as int));
        match &col[i] {
            DataType::Text(s) => {
                if s.as_str().is_empty() {
                    null_count = null_count + 1;
                } else {
                    if !contains_text(&unique_values, s) {
                        let ghost before = unique_values@;
                        unique_values.push(s.clone());
                        assert(texts(unique_values@) =~= texts(before).push(s@));
                        unique_count = unique_count + 1;
                    }
                    if most_freq_count < 1 {
                        most_freq_value = s.clone();
                        most_freq_count = 1;
                    } else if most_freq_value == *s {
                        most_freq_count = most_freq_count + 1;
                    }
                }
            },
            _ => {},
        }
        i = i + 1;
    }
    assert(cs.subrange(0, col@.len() as int) =~= cs);
    CategoricalDescribeResult {
        name: name.clone(),
        dtype: col[0].duplicate(),
        null_count,
        unique_count,
        unique_values,
        most_freq_value,
        most_freq_count,
    }
}

/// Describes one column by the type of its first cell: booleans are
/// counted, integers and decimals are numeric, text is categorical; an empty
/// column, or one whose first cell is absent, gives nothing.
pub fn aggregate(col: &Vec<DataType>, name: &String) -> (r: Option<DescribeResult>)
    requires
        all_well_formed(cells(col@)),
    ensures
        opt_view(r) == summarize(cells(col@), name@),
{
    if col.len() == 0 {
        return None;
    }
    match &col[0] {
        DataType::Null => None,
        DataType::Bool(_) => Some(DescribeResult::Boolean(describe_boolean(col, name))),
        DataType::Int(_) | DataType::Float(_) => Some(
            DescribeResult::Numeric(describe_numeric(col, name)),
        ),
        DataType::Text(_) => Some(DescribeResult::Categorical(describe_categorical(col, name))),
    }
}

proof fn lemma_bool_counts_cover(col: Seq<Scalar>)
    requires
        forall|i: int| 0 <= i < col.len() ==> #[trigger] col[i] is Bool,
    ensures
        count_bool(col, true) + count_bool(col, false) == col.len(),
    decreases col.len(),
{
    if col.len() > 0 {
        let init = col.drop_last();
        assert forall|i: int| 0 <= i < init.len() implies #[trigger] init[i] is Bool by {
            assert(init[i] == col[i]);
        }
        lemma_bool_counts_cover(init);
        assert(col[col.len() - 1] is Bool);
    }
}

/// In a column of booleans alone, every cell is counted once, as true or
/// as false.
pub proof fn lemma_boolean_counts_total(col: Seq<Scalar>, name: Seq<char>)
    requires
        col.len() > 0,
        forall|i: int| 0 <= i < col.len() ==> #[trigger] col[i] is Bool,
    ensures
        summarize(col, name) matches Some(Summary::Boolean(b)) && b.true_count + b.false_count
            == col.len(),
{
    assert(col[0] is Bool);
    lemma_bool_counts_cover(col);
}

proof fn lemma_fold_uniques(col: Seq<Scalar>)
    ensures
        categorical_fold(col).unique_values.no_duplicates(),
        forall|i: int|
            0 <= i < categorical_fold(col).unique_values.len() ==> (
            #[trigger] categorical_fold(col).unique_values[i]).len() > 0,
    decreases col.len(),
{
    if col.len() > 0 {
        lemma_fold_uniques(col.drop_last());
        let prev = categorical_fold(col.drop_last());
        let u = prev.unique_values;
        if let Scalar::Text(t) = col.last() {
            if t.len() > 0 && !u.contains(t) {
                let v = u.push(t);
                assert forall|i: int, j: int| 0 <= i < v.len() && 0 <= j < v.len() && i != j
                    implies v[i] != v[j] by {
                    if i == u.len() as int {
                        assert(v[j] == u[j]);
                    } else if j == u.len() as int {
                        assert(v[i] == u[i]);
                    } else {
                        assert(v[i] == u[i] && v[j] == u[j]);
                    }
                }
                assert forall|i: int| 0 <= i < v.len() implies (#[trigger] v[i]).len() > 0 by {
                    if i < u.len() {
                        assert(v[i] == u[i]);
                    }
                }
            }
        }
    }
}

/// The unique values of a text column are as many as counted, pairwise
/// distinct, and none of them empty.
pub proof fn lemma_categorical_unique(col: Seq<Scalar>, name: Seq<char>)
    requires
        summarize(col, name) is Some,
        summarize(col, name)->0 is Categorical,
    ensures
        ({
            let c = summarize(col, name)->0->Categorical_0;
            &&& c.unique_count == c.unique_values.len()
            &&& c.unique_values.no_duplicates()
            &&& forall|i: int| 0 <= i < c.unique_values.len() ==> (#[trigger] c.unique_values[i]).len() > 0
        }),
{
    lemma_fold_uniques(col);
}

/// A description carries the name it was asked for.
pub proof fn lemma_summary_name(col: Seq<Scalar>, name: Seq<char>)
    requires
        summarize(col, name) is Some,
    ensures
        summarize(col, name)->0.name() == name,
{
}

proof fn lemma_numbers_nonempty(col: Seq<Scalar>)
    requires
        col.len() > 0,
        is_number(col[0]),
    ensures
        numbers_of(col).len() > 0,
    decreases col.len(),
{
    if col.len() > 1 {
        assert(col.drop_last()[0] == col[0]);
        lemma_numbers_nonempty(col.drop_last());
    } else {
        assert(col.last() == col[0]);
    }
}

proof fn lemma_min_max_of(v: Seq<Scalar>)
    requires
        v.len() > 0,
    ensures
        v.contains(min_of(v)),
        v.contains(max_of(v)),
        forall|j: int| 0 <= j < v.len() ==> num_le(min_of(v), #[trigger] v[j]),
        forall|j: int| 0 <= j < v.len() ==> num_le(#[trigger] v[j], max_of(v)),
    decreases v.len(),
{
    if v.len() == 1 {
        lemma_num_le_total_preorder(v[0], v[0], v[0]);
        assert(v[0] == v[0]);
    } else {
        let init = v.drop_last();
        let last = v.last();
        lemma_min_max_of(init);
        let m = min_of(init);
        let x = max_of(init);
        let im = choose|j: int| 0 <= j < init.len() && init[j] == m;
        let ix = choose|j: int| 0 <= j < init.len() && init[j] == x;
        assert(v[im] == m);
        assert(v[ix] == x);
        assert(v[v.len() - 1] == last);
        assert forall|j: int| 0 <= j < v.len() implies num_le(min_of(v), #[trigger] v[j]) by {
            lemma_num_le_total_preorder(last, m, last);
            if j < v.len() - 1 {
                assert(v[j] == init[j]);
                assert(num_le(m, init[j]));
                lemma_num_le_total_preorder(last, m, v[j]);
            } else {
                lemma_num_le_total_preorder(m, last, last);
            }
        }
        assert forall|j: int| 0 <= j < v.len() implies num_le(#[trigger] v[j], max_of(v)) by {
            lemma_num_le_total_preorder(x, last, x);
            if j < v.len() - 1 {
                assert(v[j] == init[j]);
                assert(num_le(init[j], x));
                lemma_num_le_total_preorder(v[j], x, last);
            } else {
                lemma_num_le_total_preorder(last, last, last);
            }
        }
    }
}

/// The smallest and the largest number of a numeric column are among its
/// numbers and bound every one of them, compared exactly; so the smallest
/// is at most the largest.
pub proof fn lemma_numeric_bounds(col: Seq<Scalar>, name: Seq<char>)
    requires
        summarize(col, name) matches Some(Summary::Numeric(_)),
    ensures
        ({
            let n = summarize(col, name)->0->Numeric_0;
            &&& n.values.len() > 0
            &&& n.values.contains(n.min)
            &&& n.values.contains(n.max)
            &&& forall|j: int|
                0 <= j < n.values.len() ==> num_le(n.min, #[trigger] n.values[j]) && num_le(
                    n.values[j],
                    n.max,
                )
            &&& num_le(n.min, n.max)
        }),
{
    lemma_numbers_nonempty(col);
    let v = numbers_of(col);
    lemma_min_max_of(v);
    let n = summarize(col, name)->0->Numeric_0;
    assert(num_le(n.min, v[0]) && num_le(v[0], n.max));
    lemma_num_le_total_preorder(n.min, v[0], n.max);
}

} // verus!
