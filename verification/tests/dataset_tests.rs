use qqt_dataset::column::Column;
use qqt_dataset::dataseries::DataSeries;
use qqt_dataset::dataset::DataSet;
use qqt_dataset::datavalue::DataValue;

/// The number that a cell stands for: 0 where its text is no number.
fn number(value: &DataValue) -> f64 {
    if value.is_value() {
        value.raw().parse::<f64>().expect("a numeric cell holds a number")
    } else {
        0.0
    }
}

#[test]
fn test_data_value_new() {
    let value = DataValue::new("test");

    assert_eq!(value.raw(), "test");
    assert_eq!(number(&value), 0.0);
    assert_eq!(value.is_value(), false);

    let value = DataValue::new("1.0");

    assert_eq!(value.raw(), "1.0");
    assert_eq!(number(&value), 1.0);
    assert_eq!(value.is_value(), true);
}

#[test]
fn data_value_null() {
    let null = DataValue::null();

    assert_eq!(null.raw(), "");
    assert_eq!(number(&null), 0.0);
    assert_eq!(null.is_value(), false);
    assert_eq!(null, DataValue::new(""));
}

#[test]
fn data_value_trim() {
    let value = DataValue::new("").trim();
    assert_eq!(value.raw(), "");

    let value = DataValue::new("  ").trim();
    assert_eq!(value.raw(), "");
    assert_eq!(value, DataValue::null());

    let value = DataValue::new(" a ").trim();
    assert_eq!(value.raw(), "a");

    let value = DataValue::new(" 1.0 ");
    assert_eq!(value.is_value(), false);
    let value = value.trim();
    assert_eq!(value.raw(), "1.0");
    assert_eq!(number(&value), 1.0);
    assert_eq!(value.is_value(), true);
}

#[test]
fn data_value_trim_unicode_space() {
    let value = DataValue::new("\u{3000}\t 2.5\u{a0}\u{2028}\r\n").trim();
    assert_eq!(value.raw(), "2.5");
    assert_eq!(value.is_value(), true);

    let value = DataValue::new(" a b ").trim();
    assert_eq!(value.raw(), "a b");

    let value = DataValue::new("\u{200b}x").trim();
    assert_eq!(value.raw(), "\u{200b}x");
}

#[test]
fn data_value_trim_twice() {
    for text in ["", " ", " a ", "\t1.0\n", "a  b", "  \u{2003}x y\u{2003}  ", "é "] {
        let once = DataValue::new(text).trim();
        let twice = once.trim();
        assert_eq!(once, twice);
        assert_eq!(once.raw(), text.trim());
    }
}

#[test]
fn data_value_equality() {
    assert_eq!(DataValue::new("1"), DataValue::new("1"));
    assert_ne!(DataValue::new("1"), DataValue::new("1.0"));
    assert_ne!(DataValue::new("a"), DataValue::new("b"));
    let value = DataValue::new("12e3");
    assert_eq!(value.clone(), value);
}

#[test]
fn column_test_new() {
    let column = Column::new("test", 10);

    assert_eq!(column.label(), "test");
    assert_eq!(column.data.len(), 10);
    assert_eq!(column.data().len(), 10);
}

#[test]
fn dataseries_test_new() {
    let series = DataSeries::new(10);

    assert_eq!(series.len(), 10);
    assert_eq!(series[0], DataValue::null());
}

#[test]
fn dataseries_new_empty() {
    let series = DataSeries::new(0);

    assert_eq!(series.len(), 0);
    assert_eq!(series.count_not_null(), 0);
    assert_eq!(series.count_val(), 0);
}

#[test]
fn test_from() {
    let s1 = DataSeries::from(vec!["a", "b", "", "1.0", "2"]);

    assert_eq!(s1[0], DataValue::new("a"));
    assert_eq!(s1[1], DataValue::new("b"));
    assert_eq!(s1[2], DataValue::new(""));
    assert_eq!(s1[3], DataValue::new("1.0"));
    assert_eq!(s1[4], DataValue::new("2"));
}

#[test]
fn test_count_not_null() {
    let s1 = DataSeries::from(vec!["a", "b", "", " ", "1", "2"]);

    let count = s1.count_not_null();

    assert_eq!(count, 5);
}

#[test]
fn test_count_value() {
    let s1 = DataSeries::from(vec!["a", "b", "", " ", "1.0", "2"]);

    let count = s1.count_val();

    assert_eq!(count, 2);
}

#[test]
fn counts_are_three_different_numbers() {
    let s1 = DataSeries::from(vec!["a", " 2.0 ", "1", "", "2.0", "b", "3.00"]);

    assert_eq!(s1.len(), 7);
    assert_eq!(s1.count_not_null(), 6);
    assert_eq!(s1.count_val(), 3);
}

#[test]
fn count_value_unchanged_by_text_cells() {
    let mut series = DataSeries::from(vec!["1", "2", "3"]);
    assert_eq!(series.count_val(), 3);

    series.add_row("x");
    series.add_row("");
    series.add_row("nan");

    assert_eq!(series.len(), 6);
    assert_eq!(series.count_val(), 3);
}

#[test]
fn test_trim() {
    let s1 = DataSeries::from(vec![" a ", "b", " ", " 1.0 "]);

    let s2 = s1.trim();

    assert_eq!(s2[0].raw(), "a");
    assert_eq!(s2[1].raw(), "b");
    assert_eq!(s2[2].raw(), "");
    assert_eq!(number(&s2[3]), 1.0);
}

#[test]
fn series_trim_twice() {
    let s1 = DataSeries::from(vec![" a ", "b", " ", " 1.0 ", ""]);

    let once = s1.trim();
    let twice = once.trim();

    assert_eq!(once.len(), 5);
    assert_eq!(twice.len(), 5);
    for i in 0..5 {
        assert_eq!(once[i], twice[i]);
    }
    assert_eq!(s1[0].raw(), " a ");
}

#[test]
fn dataseries_test_add_row() {
    let mut s1 = DataSeries::new(10);

    s1.add_row("11");

    assert_eq!(s1.len(), 11);
    assert_eq!(s1[10].raw(), "11");
}

#[test]
fn dataset_test_new() {
    let ds = DataSet::new(vec!["A", "B", "C"], 10);

    assert_eq!(ds.col_count(), 3);
    assert_eq!(ds.row_count(), 10);
    assert_eq!(ds.col_label(0), "A");
    assert_eq!(ds.col_label(1), "B");
    assert_eq!(ds.col_label(2), "C");
}

#[test]
fn dataset_new_cells_are_null() {
    let ds = DataSet::new(vec!["A", "B"], 3);

    for row in 0..3 {
        for col in 0..2 {
            assert_eq!(*ds.at(row, col), DataValue::null());
        }
    }
}

#[test]
fn dataset_without_columns() {
    let mut ds = DataSet::new(vec![], 7);

    assert_eq!(ds.col_count(), 0);
    assert_eq!(ds.row_count(), 0);

    ds.add_row(vec![]);

    assert_eq!(ds.col_count(), 0);
    assert_eq!(ds.row_count(), 0);
}

#[test]
fn dataset_labels_may_repeat() {
    let ds = DataSet::new(vec!["A", "A"], 0);

    assert_eq!(ds.col_count(), 2);
    assert_eq!(ds.row_count(), 0);
    assert_eq!(ds.col_label(0), "A");
    assert_eq!(ds.col_label(1), "A");
}

#[test]
fn dataset_test_add_row() {
    let mut ds = DataSet::new(vec!["A", "B", "C"], 5);

    ds.add_row(vec![String::from("1"), String::from("2"), String::from("3")]);

    assert_eq!(ds.row_count(), 6);
    assert_eq!(number(ds.at(5, 0)), 1.0);
    assert_eq!(number(ds.at(5, 1)), 2.0);
    assert_eq!(number(ds.at(5, 2)), 3.0);
}

#[test]
fn dataset_add_row_keeps_rows() {
    let mut ds = DataSet::new(vec!["A", "B"], 0);

    ds.add_row(vec![String::from("1"), String::from("x")]);
    ds.add_row(vec![String::from("2"), String::from("y")]);
    assert_eq!(ds.row_count(), 2);

    ds.add_row(vec![String::from("3"), String::from("")]);

    assert_eq!(ds.row_count(), 3);
    assert_eq!(ds.col_count(), 2);
    assert_eq!(ds.at(0, 0).raw(), "1");
    assert_eq!(ds.at(0, 1).raw(), "x");
    assert_eq!(ds.at(1, 0).raw(), "2");
    assert_eq!(ds.at(1, 1).raw(), "y");
    assert_eq!(ds.at(2, 0).raw(), "3");
    assert_eq!(ds.at(2, 1).raw(), "");
    assert_eq!(ds.at(2, 0).is_value(), true);
    assert_eq!(ds.at(2, 1).is_value(), false);
}
