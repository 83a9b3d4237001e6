use statust::datatype::{classify, predict_type, DataType};
use statust::number::number_le;
use statust::text::{remove_quotes, split_fields};

fn float_of(d: &DataType) -> f32 {
    match d {
        DataType::Float(t) => t.parse::<f32>().unwrap(),
        other => panic!("not a decimal: {:?}", other),
    }
}

fn check_predict_type() {
    assert_eq!(predict_type("true"), DataType::Bool(true));
    assert_eq!(predict_type("false"), DataType::Bool(false));
    assert_eq!(predict_type("-1"), DataType::Int(-1));
    assert_eq!(predict_type("1"), DataType::Int(1));
    assert_eq!(float_of(&predict_type("1.0")), 1.0);
    assert_eq!(float_of(&predict_type("-1.0")), -1.0);
    assert_eq!(predict_type("hello"), DataType::Text("hello".to_string()));
}

#[test]
fn datatype_test_predict_type() {
    check_predict_type();
}

#[test]
fn lib_test_predict_type() {
    check_predict_type();
}

#[test]
fn statust_test_predict_type() {
    check_predict_type();
}

#[test]
fn boolean_words_in_any_case() {
    assert_eq!(predict_type("TRUE"), DataType::Bool(true));
    assert_eq!(predict_type("False"), DataType::Bool(false));
    assert_eq!(predict_type("truex"), DataType::Text("truex".to_string()));
}

#[test]
fn decimal_keeps_its_characters() {
    assert_eq!(predict_type("5.1"), DataType::Float("5.1".to_string()));
    assert_eq!(predict_type("+1.5"), DataType::Float("+1.5".to_string()));
    assert_eq!(predict_type(".5"), DataType::Float(".5".to_string()));
    assert_eq!(float_of(&predict_type("-0.25")), -0.25);
}

#[test]
fn integer_bounds() {
    assert_eq!(predict_type("2147483647"), DataType::Int(2147483647));
    assert_eq!(predict_type("-2147483648"), DataType::Int(-2147483648));
    assert_eq!(predict_type("2147483648"), DataType::Text("2147483648".to_string()));
    assert_eq!(predict_type("-2147483649"), DataType::Text("-2147483649".to_string()));
    assert_eq!(predict_type("007"), DataType::Int(7));
    assert_eq!(predict_type("+7"), DataType::Text("+7".to_string()));
}

#[test]
fn text_edge_cases() {
    assert_eq!(predict_type(""), DataType::Text(String::new()));
    assert_eq!(predict_type(" 5"), DataType::Text(" 5".to_string()));
    assert_eq!(predict_type("1."), DataType::Text("1.".to_string()));
    assert_eq!(predict_type("-"), DataType::Text("-".to_string()));
    assert_eq!(predict_type("\"Setosa\""), DataType::Text("Setosa".to_string()));
    assert_eq!(predict_type("١٢"), DataType::Text("١٢".to_string()));
}

#[test]
fn classify_uses_the_given_lower_case() {
    assert_eq!(classify("ABC", "true"), DataType::Bool(true));
    assert_eq!(classify("12", "12"), DataType::Int(12));
    assert_eq!(classify("x\"y", "x\"y"), DataType::Text("xy".to_string()));
}

#[test]
fn quotes_are_removed() {
    assert_eq!(remove_quotes("\"a\"b\""), "ab".to_string());
    assert_eq!(remove_quotes(""), String::new());
}

#[test]
fn fields_split_at_every_comma() {
    assert_eq!(split_fields("a,b,,c"), vec!["a", "b", "", "c"]);
    assert_eq!(split_fields(""), vec![""]);
    assert_eq!(split_fields("\"x,y\""), vec!["\"x", "y\""]);
    assert_eq!(split_fields(","), vec!["", ""]);
}

fn f(t: &str) -> DataType {
    DataType::Float(t.to_string())
}

#[test]
fn numbers_compare_by_value() {
    assert!(number_le(&f("4.3"), &f("4.30")));
    assert!(number_le(&f("4.30"), &f("4.3")));
    assert!(number_le(&f("4.29"), &f("4.3")));
    assert!(!number_le(&f("4.31"), &f("4.3")));
    assert!(number_le(&DataType::Int(4), &f("4.01")));
    assert!(!number_le(&DataType::Int(5), &f("4.99")));
    assert!(number_le(&f("-0.0"), &f("0.0")));
    assert!(number_le(&f("0.0"), &f("-0.0")));
    assert!(number_le(&f("-2.5"), &DataType::Int(-2)));
    assert!(!number_le(&DataType::Int(-2), &f("-2.5")));
    assert!(number_le(&f("+.5"), &f("0.50")));
    assert!(number_le(&DataType::Int(-2147483648), &DataType::Int(2147483647)));
    assert!(!number_le(&f("100.0"), &f("99.999")));
    assert!(number_le(&DataType::Int(0), &f("-0.00")));
}
