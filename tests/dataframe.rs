use statust::dataframe::{parse_header, parse_row, DataFrame, DescribeReport};
use statust::datatype::DataType;
use statust::results::{aggregate, DescribeResult};

fn table(lines: &[&str]) -> DataFrame {
    let owned: Vec<String> = lines.iter().map(|l| l.to_string()).collect();
    DataFrame::from_lines(&owned)
}

fn categorical<'a>(r: &'a DescribeReport, name: &str) -> &'a statust::results::CategoricalDescribeResult {
    match r.get(name) {
        Some(DescribeResult::Categorical(c)) => c,
        _ => panic!("no categorical description of {}", name),
    }
}

fn boolean<'a>(r: &'a DescribeReport, name: &str) -> &'a statust::results::BooleanDescribeResult {
    match r.get(name) {
        Some(DescribeResult::Boolean(b)) => b,
        _ => panic!("no boolean description of {}", name),
    }
}

fn numeric<'a>(r: &'a DescribeReport, name: &str) -> &'a statust::results::NumericDescribeResult {
    match r.get(name) {
        Some(DescribeResult::Numeric(n)) => n,
        _ => panic!("no numeric description of {}", name),
    }
}

#[test]
fn header_is_trimmed_lowered_and_unquoted() {
    assert_eq!(
        parse_header(" \"Sepal.Length\" ,VARIETY"),
        vec!["sepal.length".to_string(), "variety".to_string()]
    );
}

#[test]
fn row_cells_are_typed() {
    assert_eq!(
        parse_row("5.1,3,true,Setosa,"),
        vec![
            DataType::Float("5.1".to_string()),
            DataType::Int(3),
            DataType::Bool(true),
            DataType::Text("Setosa".to_string()),
            DataType::Text(String::new()),
        ]
    );
}

#[test]
fn empty_source_gives_empty_table() {
    let df = table(&[]);
    assert_eq!(df.header().len(), 0);
    assert_eq!(df.row_count(), 0);
    assert_eq!(df.describe().len(), 0);
    let df = DataFrame::new();
    assert_eq!(df.row_count(), 0);
}

#[test]
fn rows_and_columns_are_read_back() {
    let df = table(&["a,b", "1,x", "2,y"]);
    assert_eq!(df.row_count(), 2);
    assert_eq!(df.get_row(1), Some(vec![DataType::Int(2), DataType::Text("y".to_string())]));
    assert_eq!(df.get_row(2), None);
    assert_eq!(df.get_col(0), Some(vec![DataType::Int(1), DataType::Int(2)]));
    assert_eq!(df.get_col(2), None);
}

#[test]
fn short_rows_are_left_out_of_a_column() {
    let df = table(&["a,b", "1,x", "2", "3,z"]);
    assert_eq!(
        df.get_col(1),
        Some(vec![DataType::Text("x".to_string()), DataType::Text("z".to_string())])
    );
}

#[test]
fn boolean_column_counts_every_cell() {
    let df = table(&["flag", "true", "False", "TRUE", "true"]);
    let r = df.describe();
    let b = boolean(&r, "flag");
    assert_eq!(b.true_count, 3);
    assert_eq!(b.false_count, 1);
    assert_eq!(b.true_count + b.false_count, df.row_count());
    assert_eq!(b.null_count, 0);
}

#[test]
fn boolean_column_skips_other_cells() {
    let df = table(&["flag", "true", "maybe", "false", "1"]);
    let r = df.describe();
    let b = boolean(&r, "flag");
    assert_eq!(b.true_count, 1);
    assert_eq!(b.false_count, 1);
}

#[test]
fn numeric_column_counts_nulls_and_keeps_numbers() {
    let df = table(&["x", "1", "2.5", "n/a", "", "-3"]);
    let r = df.describe();
    let n = numeric(&r, "x");
    assert_eq!(n.dtype, DataType::Int(1));
    assert_eq!(n.null_count, 2);
    assert_eq!(n.min, DataType::Int(-3));
    assert_eq!(n.max, DataType::Float("2.5".to_string()));
    assert_eq!(
        n.values,
        vec![DataType::Int(1), DataType::Float("2.5".to_string()), DataType::Int(-3)]
    );
}

#[test]
fn categorical_counts_nulls_and_unique_values() {
    let df = table(&["kind", "b", "", "a", "b", "c", "", "a"]);
    let r = df.describe();
    let c = categorical(&r, "kind");
    assert_eq!(c.null_count, 2);
    assert_eq!(c.unique_count, 3);
    assert_eq!(c.unique_values, vec!["b".to_string(), "a".to_string(), "c".to_string()]);
    assert_eq!(c.unique_count, c.unique_values.len());
}

#[test]
fn most_frequent_follows_the_first_value() {
    let df = table(&["kind", "a", "b", "b", "b", "a"]);
    let r = df.describe();
    let c = categorical(&r, "kind");
    assert_eq!(c.most_freq_value, "a".to_string());
    assert_eq!(c.most_freq_count, 2);
}

#[test]
fn classes_in_blocks_of_equal_size() {
    let mut lines = vec!["sepal.length,variety".to_string()];
    for (i, v) in ["Setosa", "Versicolor", "Virginica"].iter().enumerate() {
        for _ in 0..50 {
            lines.push(format!("{}.5,\"{}\"", i + 4, v));
        }
    }
    let df = DataFrame::from_lines(&lines);
    let r = df.describe();
    assert_eq!(r.len(), 2);
    let c = categorical(&r, "variety");
    assert_eq!(c.unique_count, 3);
    assert_eq!(
        c.unique_values,
        vec!["Setosa".to_string(), "Versicolor".to_string(), "Virginica".to_string()]
    );
    assert_eq!(c.most_freq_value, "Setosa".to_string());
    assert_eq!(c.most_freq_count, 50);
    assert_eq!(c.null_count, 0);
    let n = numeric(&r, "sepal.length");
    assert_eq!(n.null_count, 0);
    assert_eq!(n.values.len(), 150);
    assert_eq!(n.min, DataType::Float("4.5".to_string()));
    assert_eq!(n.max, DataType::Float("6.5".to_string()));
}

#[test]
fn empty_column_is_left_out() {
    let df = table(&["a,b", "1", "2"]);
    let r = df.describe();
    assert_eq!(r.len(), 1);
    assert!(r.get("a").is_some());
    assert!(r.get("b").is_none());
    let col: Vec<DataType> = vec![DataType::Null, DataType::Int(1)];
    assert!(aggregate(&col, &"z".to_string()).is_none());
    assert!(aggregate(&Vec::new(), &"z".to_string()).is_none());
}

#[test]
fn later_column_of_same_name_wins() {
    let df = table(&["a,A", "1,x"]);
    let r = df.describe();
    assert_eq!(r.len(), 1);
    let c = categorical(&r, "a");
    assert_eq!(c.unique_values, vec!["x".to_string()]);
    assert_eq!(r.entries()[0].name(), "a");
}

#[test]
fn describing_twice_gives_the_same_report() {
    let df = table(&["n,t,f", "1,x,true", "2,,false", "q,y,true"]);
    let r1 = df.describe();
    let r2 = df.describe();
    assert_eq!(r1.len(), r2.len());
    for e in r1.entries() {
        let other = r2.get(e.name()).unwrap();
        match (e, other) {
            (DescribeResult::Numeric(a), DescribeResult::Numeric(b)) => {
                assert_eq!(a.null_count, b.null_count);
                assert_eq!(a.values, b.values);
                assert_eq!(a.min, b.min);
                assert_eq!(a.max, b.max);
                assert_eq!(a.dtype, b.dtype);
            }
            (DescribeResult::Categorical(a), DescribeResult::Categorical(b)) => {
                assert_eq!(a.unique_values, b.unique_values);
                assert_eq!(a.most_freq_value, b.most_freq_value);
                assert_eq!(a.most_freq_count, b.most_freq_count);
                assert_eq!(a.null_count, b.null_count);
            }
            (DescribeResult::Boolean(a), DescribeResult::Boolean(b)) => {
                assert_eq!(a.true_count, b.true_count);
                assert_eq!(a.false_count, b.false_count);
            }
            _ => panic!("descriptions differ in kind"),
        }
    }
}

#[test]
fn extremes_are_compared_exactly() {
    let df = table(&["x", "5.1", "4.3", "7.9", "4.30", "-0.5", "7.90", "12", ".75", "q"]);
    let r = df.describe();
    let n = numeric(&r, "x");
    assert_eq!(n.min, DataType::Float("-0.5".to_string()));
    assert_eq!(n.max, DataType::Int(12));
    assert_eq!(n.null_count, 1);
    let df = table(&["x", "4.30", "4.3", "7.9", "7.90"]);
    let r = df.describe();
    let n = numeric(&r, "x");
    assert_eq!(n.min, DataType::Float("4.30".to_string()));
    assert_eq!(n.max, DataType::Float("7.9".to_string()));
}
