use skdb::query::value_type_to_string;
use skdb::{DslRoot, HeaderField, Row, Table, TableData, Value};

fn s(x: &str) -> Value {
    Value::String(x.to_string())
}

fn row(fields: &[(&str, Value)]) -> Row {
    Row { fields: fields.iter().map(|(n, v)| (n.to_string(), v.clone_value())).collect() }
}

trait CloneValue {
    fn clone_value(&self) -> Value;
}

impl CloneValue for Value {
    fn clone_value(&self) -> Value {
        match self {
            Value::String(x) => Value::String(x.clone()),
            Value::Integer(i) => Value::Integer(*i),
            Value::Null => Value::Null,
            Value::Tuple(vs) => Value::Tuple(vs.iter().map(|v| v.clone_value()).collect()),
            Value::Reference { table, key } => Value::Reference { table: table.clone(), key: Box::new(key.clone_value()) },
        }
    }
}

fn header(name: &str, ty: Option<&str>, pk: bool) -> HeaderField {
    HeaderField { name: name.to_string(), type_info: ty.map(|t| t.to_string()), is_primary_key: pk }
}

fn table(name: &str, headers: Vec<HeaderField>, data: TableData) -> Table {
    let header_map = headers.iter().enumerate().map(|(i, h)| (h.name.clone(), i)).collect();
    let pk = headers.iter().find(|h| h.is_primary_key).map(|h| h.name.clone());
    Table { name: name.to_string(), headers, header_map, data, primary_key_field_name: pk }
}

#[test]
fn sequential_getters() {
    let mut d = TableData::Sequential(vec![row(&[("a", s("x"))])]);
    assert!(!d.is_empty());
    assert_eq!(d.len_sequential(), Some(1));
    assert_eq!(d.get_sequential_row(0).unwrap().fields[0].1, s("x"));
    assert!(d.get_sequential_row(1).is_none());
    assert!(d.get_indexed_row("x").is_none());
    d.get_sequential_row_mut(0).unwrap().fields[0].1 = s("y");
    assert_eq!(d.get_sequential_row(0).unwrap().fields[0].1, s("y"));
    assert!(d.add_sequential_row(row(&[("a", s("z"))])).is_ok());
    assert_eq!(d.len_sequential(), Some(2));
    assert!(d.add_indexed_row("k".to_string(), row(&[])).is_err());
}

#[test]
fn indexed_getters_keep_keys_sorted() {
    let mut d = TableData::Indexed(Vec::new());
    assert!(d.is_empty());
    assert!(d.add_indexed_row("b".to_string(), row(&[("v", Value::Integer(2))])).is_ok());
    assert!(d.add_indexed_row("a".to_string(), row(&[("v", Value::Integer(1))])).is_ok());
    assert!(d.add_indexed_row("a".to_string(), row(&[])).is_err());
    match &d {
        TableData::Indexed(es) => {
            assert_eq!(es[0].0, "a");
            assert_eq!(es[1].0, "b");
        }
        _ => panic!("indexed data expected"),
    }
    assert_eq!(d.get_indexed_row("b").unwrap().fields[0].1, Value::Integer(2));
    d.get_indexed_row_mut("a").unwrap().fields[0].1 = Value::Integer(5);
    assert_eq!(d.get_indexed_row("a").unwrap().fields[0].1, Value::Integer(5));
    assert!(d.get_indexed_row("c").is_none());
    assert_eq!(d.len_sequential(), None);
    assert!(d.add_sequential_row(row(&[])).is_err());
}

#[test]
fn grouped_getters() {
    let mut d = TableData::GroupedIndexed(Vec::new());
    assert!(d.add_grouped_indexed_row("g".to_string(), row(&[("v", Value::Integer(1))])).is_ok());
    assert!(d.add_grouped_indexed_row("g".to_string(), row(&[("v", Value::Integer(2))])).is_ok());
    assert!(d.add_grouped_indexed_row("a".to_string(), row(&[("v", Value::Integer(3))])).is_ok());
    assert_eq!(d.get_grouped_rows("g").unwrap().len(), 2);
    assert_eq!(d.get_grouped_rows("g").unwrap()[1].fields[0].1, Value::Integer(2));
    d.get_grouped_rows_mut("a").unwrap().clear();
    assert_eq!(d.get_grouped_rows("a").unwrap().len(), 0);
    assert!(d.get_grouped_rows("z").is_none());
    let mut raw = TableData::RawLines(vec!["1,2".to_string()]);
    assert!(!raw.is_empty());
    assert!(raw.add_grouped_indexed_row("g".to_string(), row(&[])).is_err());
}

#[test]
fn add_row_by_discipline() {
    let mut t = table(
        "u",
        vec![header("id", Some("sindex"), true), header("n", None, false)],
        TableData::Sequential(Vec::new()),
    );
    assert_eq!(t.get_index_type(), Some("sindex"));
    assert!(t.add_row(row(&[("id", Value::Null), ("n", s("a"))])).is_ok());
    assert!(t.add_row(row(&[("id", Value::Integer(9)), ("n", s("b"))])).is_ok());
    assert_eq!(t.data.get_sequential_row(1).unwrap().fields[0].1, Value::Integer(1));

    let mut k = table("k", vec![header("id", Some("index"), true)], TableData::Indexed(Vec::new()));
    assert!(k.add_row(row(&[("id", s("x"))])).is_ok());
    assert!(k.add_row(row(&[("id", s("x"))])).is_err());
    assert!(k.add_row(row(&[("id", Value::Null)])).is_err());
    assert!(k.data.get_indexed_row("x").is_some());

    let mut g = table("g", vec![header("id", Some("gindex"), true)], TableData::GroupedIndexed(Vec::new()));
    assert!(g.add_row(row(&[("id", Value::Integer(3))])).is_ok());
    assert!(g.add_row(row(&[("id", Value::Integer(3))])).is_ok());
    assert_eq!(g.data.get_grouped_rows("3").unwrap().len(), 2);

    let mut plain = table("p", vec![header("a", None, false)], TableData::Sequential(Vec::new()));
    assert_eq!(plain.get_index_type(), None);
    assert!(plain.add_row(row(&[("a", s("q"))])).is_ok());
}

#[test]
fn field_mut_and_kind_names() {
    let mut r = row(&[("a", Value::Integer(1)), ("b", s("x"))]);
    *r.get_field_mut("b").unwrap() = Value::Null;
    assert_eq!(r.fields[1].1, Value::Null);
    assert!(r.get_field_mut("c").is_none());
    assert_eq!(value_type_to_string(&Value::Integer(1)), "Integer");
    assert_eq!(value_type_to_string(&s("a")), "String");
    assert_eq!(value_type_to_string(&Value::Tuple(vec![])), "Tuple");
    assert_eq!(value_type_to_string(&Value::Null), "Null");
}

#[test]
fn root_insert_and_lookup() {
    let mut root = DslRoot::new();
    root.insert(table("a", vec![header("x", None, false)], TableData::Sequential(Vec::new())));
    root.insert(table("b", vec![], TableData::Sequential(Vec::new())));
    root.insert(table("a", vec![header("y", None, false)], TableData::Sequential(Vec::new())));
    assert_eq!(root.len(), 2);
    assert!(root.contains_key("b"));
    assert_eq!(root.get("a").unwrap().headers[0].name, "y");
    assert!(root.get("c").is_none());
}

#[test]
fn sindex_add_row_supplies_missing_key() {
    let mut t = table(
        "u",
        vec![header("id", Some("sindex"), true), header("n", None, false)],
        TableData::Sequential(Vec::new()),
    );
    assert!(t.add_row(row(&[("n", s("a"))])).is_ok());
    let r = t.data.get_sequential_row(0).unwrap();
    assert_eq!(r.fields[1], ("id".to_string(), Value::Integer(0)));
}
