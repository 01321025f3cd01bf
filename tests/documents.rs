use skdb::builder::load_document;
use skdb::{execute_add, execute_pack, execute_query, execute_update, parse_dsl_input, DslRoot, DslStatement, TableData, Value};

fn s(x: &str) -> Value {
    Value::String(x.to_string())
}

fn root_of(doc: &str) -> DslRoot {
    load_document(doc, &Vec::new()).expect("document parses").root
}

fn names(root: &DslRoot) -> Vec<String> {
    root.tables.iter().map(|t| t.name.clone()).collect()
}

fn repack(root: &DslRoot) -> (String, String) {
    let ns = names(root);
    let first = execute_pack(root, &ns).expect("pack");
    let again = root_of(&first);
    let second = execute_pack(&again, &ns).expect("pack again");
    (first, second)
}

const USERS_DOC: &str = "user:\n/id::sindex/name/\n0,alice\n1,bob\n~\n#.user[1].name = 'bobby'\n";
const CONFIG_DOC: &str = "cfg:\n/k:index/v/\na,1\nb,2\n~\n";
const SYSTEMS_DOC: &str = "sys:\n/id:index/call/\ns1,Ring\n~\nu:\n/id::sindex/s::sys/\n0,s1\n~\n";
const SEGMENTS_DOC: &str = "pt:\n/x/y/\n0,0\n~\nseg:\n/id::sindex/a::pt/\n0,(3,4)\n~\n";

#[test]
fn sequential_sindex_update() {
    let root = root_of(USERS_DOC);
    assert_eq!(execute_query(&root, "#.user[1].name"), Some(&s("bobby")));
    assert_eq!(execute_query(&root, "#.user[0].name"), Some(&s("alice")));
}

#[test]
fn add_assigns_sindex() {
    let mut root = root_of(USERS_DOC);
    assert!(execute_add(&mut root, "user").is_ok());
    assert_eq!(execute_query(&root, "#.user[2].id"), Some(&Value::Integer(2)));
    assert_eq!(execute_query(&root, "#.user[2].name"), Some(&Value::Null));
}

#[test]
fn add_statement_in_document() {
    let root = root_of("user:\n/id::sindex/name/\n0,alice\n~\n.user.add()\n#.user[1].name = carol\n");
    assert_eq!(execute_query(&root, "#.user[1].id"), Some(&Value::Integer(1)));
    assert_eq!(execute_query(&root, "#.user[1].name"), Some(&s("carol")));
}

#[test]
fn indexed_key_lookup() {
    let root = root_of(CONFIG_DOC);
    assert_eq!(execute_query(&root, "#.cfg[b].v"), Some(&Value::Integer(2)));
    assert_eq!(execute_query(&root, "#.cfg{a}.v"), Some(&Value::Integer(1)));
    assert_eq!(execute_query(&root, "#.cfg[z].v"), None);
    assert_eq!(execute_query(&root, "#.cfg.a.v"), Some(&Value::Integer(1)));
}

#[test]
fn reference_dereferencing() {
    let root = root_of(SYSTEMS_DOC);
    assert_eq!(execute_query(&root, "#.u[0].s.call"), Some(&s("Ring")));
    assert_eq!(execute_query(&root, "#.u[0].s"), Some(&s("s1")));
}

#[test]
fn explicit_reference_value() {
    let root = root_of("sys:\n/id:index/call/\ns1,Ring\n~\nu:\n/id::sindex/r::any::sys/\n0,sys::s1\n~\n");
    assert_eq!(execute_query(&root, "#.u[0].r.call"), Some(&s("Ring")));
    assert_eq!(execute_query(&root, "#.u[0].r"), None);
}

#[test]
fn tuple_projection_by_structure() {
    let root = root_of(SEGMENTS_DOC);
    assert_eq!(execute_query(&root, "#.seg[0].a.y"), Some(&Value::Integer(4)));
    assert_eq!(execute_query(&root, "#.seg[0].a[0]"), Some(&Value::Integer(3)));
    assert_eq!(execute_query(&root, "#.seg[0].a.z"), None);
}

#[test]
fn pack_round_trip() {
    for doc in [USERS_DOC, CONFIG_DOC, SYSTEMS_DOC, SEGMENTS_DOC] {
        let (first, second) = repack(&root_of(doc));
        assert_eq!(first, second);
    }
}

#[test]
fn pack_text_is_canonical() {
    let root = root_of(USERS_DOC);
    let out = execute_pack(&root, &["user".to_string()]).unwrap();
    assert_eq!(out, "user:\n/id:sindex/name/\n0,alice\n1,bobby");
    let root = root_of("cfg:\n/k:index/v/\nb,2\na,1\n~\ne:\n/x/\n~\n");
    let out = execute_pack(&root, &["cfg".to_string(), "e".to_string()]).unwrap();
    assert_eq!(out, "cfg:\n/k:index/v/\na,1\nb,2\n~\ne:\n/x/");
}

#[test]
fn pack_refuses_unknown_table() {
    let root = root_of(CONFIG_DOC);
    assert!(execute_pack(&root, &["nope".to_string()]).is_err());
}

#[test]
fn grouped_rows_keep_order() {
    let root = root_of("g:\n/k:gindex/v/\nios,1\nand,2\nios,3\n~\n");
    assert_eq!(execute_query(&root, "#.g.ios[0].v"), Some(&Value::Integer(1)));
    assert_eq!(execute_query(&root, "#.g.ios[1].v"), Some(&Value::Integer(3)));
    assert_eq!(execute_query(&root, "#.g.and[0].v"), Some(&Value::Integer(2)));
    match &root.tables[0].data {
        TableData::GroupedIndexed(gs) => {
            assert_eq!(gs.len(), 2);
            assert_eq!(gs[0].0, "and");
            assert_eq!(gs[1].1.len(), 2);
        }
        _ => panic!("grouped data expected"),
    }
    let out = execute_pack(&root, &["g".to_string()]).unwrap();
    assert_eq!(out, "g:\n/k:gindex/v/\nand,2\nios,1\nios,3");
}

#[test]
fn header_without_type() {
    let root = root_of("t:\n/a/b/\n1,x\n~\n");
    let t = &root.tables[0];
    assert_eq!(t.headers[0].type_info, None);
    assert_eq!(t.primary_key_field_name, None);
    assert_eq!(t.header_map, vec![("a".to_string(), 0), ("b".to_string(), 1)]);
    assert_eq!(execute_query(&root, "#.t.b"), Some(&s("x")));
}

#[test]
fn update_tuple_element() {
    let mut root = root_of(SEGMENTS_DOC);
    assert!(execute_update(&mut root, "seg[0].a[1]", "9").is_ok());
    assert_eq!(execute_query(&root, "#.seg[0].a.y"), Some(&Value::Integer(9)));
    assert!(execute_update(&mut root, "seg[0].a[5]", "9").is_err());
}

#[test]
fn update_changes_kind_without_hint() {
    let mut root = root_of("t:\n/a/b::integer/\n1,2\n~\n");
    assert!(execute_update(&mut root, "t[0].a", "hello").is_ok());
    assert_eq!(execute_query(&root, "#.t[0].a"), Some(&s("hello")));
    assert!(execute_update(&mut root, "t[0].b", "hello").is_err());
    assert_eq!(execute_query(&root, "#.t[0].b"), Some(&Value::Integer(2)));
    assert!(execute_update(&mut root, "t.b", "5").is_ok());
    assert_eq!(execute_query(&root, "#.t[0].b"), Some(&Value::Integer(5)));
    assert!(execute_update(&mut root, "t[0].a", "12").is_ok());
    assert_eq!(execute_query(&root, "#.t[0].a"), Some(&s("12")));
}

#[test]
fn update_errors() {
    let mut root = root_of(CONFIG_DOC);
    assert!(execute_update(&mut root, "nope[0].v", "1").is_err());
    assert!(execute_update(&mut root, "cfg[z].v", "1").is_err());
    assert!(execute_update(&mut root, "cfg[a]", "1").is_err());
    assert!(execute_update(&mut root, "cfg[a].missing", "1").is_err());
    assert!(execute_update(&mut root, "cfg[a].v", "2").is_ok());
    assert_eq!(execute_query(&root, "#.cfg[a].v"), Some(&Value::Integer(2)));
}

#[test]
fn add_refused_on_keyed_table() {
    let mut root = root_of(CONFIG_DOC);
    assert!(execute_add(&mut root, "cfg").is_err());
    assert!(execute_add(&mut root, "missing").is_err());
}

#[test]
fn statements_of_a_document() {
    let sts = parse_dsl_input(
        "# comment\na from \"x.hs\" as b\nc from \"y.hs\"\n#.t[0].v = 3\n.t.add()\npack t u\n",
        None,
    )
    .unwrap();
    assert_eq!(sts.len(), 5);
    assert_eq!(
        sts[0],
        DslStatement::CopyStructure {
            source_table_name: "a".to_string(),
            source_path: "x.hs".to_string(),
            target_table_name: "b".to_string()
        }
    );
    assert_eq!(
        sts[1],
        DslStatement::Reference {
            source_table_name: "c".to_string(),
            source_path: "y.hs".to_string(),
            target_table_name: "c".to_string()
        }
    );
    assert_eq!(sts[2], DslStatement::Update { path: "t[0].v".to_string(), value_str: "3".to_string() });
    assert_eq!(sts[3], DslStatement::Add { table_name: "t".to_string() });
    assert_eq!(sts[4], DslStatement::Pack { table_names: vec!["t".to_string(), "u".to_string()] });
}

#[test]
fn malformed_header_is_an_error() {
    assert!(parse_dsl_input("t:\n/a/a/\n1,2\n~\n", None).is_err());
    assert!(parse_dsl_input("t\n/a/\n~\n", None).is_err());
    assert!(parse_dsl_input(".a.b.add()\n", None).is_err());
}

#[test]
fn bad_row_is_dropped() {
    let root = root_of("t:\n/a/b/\n1,2\n1,2,3\n4,5\n~\n");
    match &root.tables[0].data {
        TableData::Sequential(rows) => assert_eq!(rows.len(), 2),
        _ => panic!("sequential data expected"),
    }
}

#[test]
fn copy_structure_and_reference() {
    let sources = vec![(
        "ext.hs".to_string(),
        "orig:\n/id:index/v/\nk1,1\n~\nother:\n/id::sindex/w/\n0,x\n~\n".to_string(),
    )];
    let doc = "orig from \"ext.hs\" as clone\nother from \"ext.hs\"\nclone:\nk2,5\nk3,6\n~\n";
    let b = load_document(doc, &sources).unwrap();
    assert_eq!(execute_query(&b.root, "#.clone[k3].v"), Some(&Value::Integer(6)));
    assert_eq!(execute_query(&b.root, "#.clone[k1].v"), None);
    assert_eq!(execute_query(&b.root, "#.other[0].w"), Some(&s("x")));
    let missing = load_document("a from \"none.hs\" as b\n", &sources).unwrap();
    assert_eq!(missing.warnings.len(), 1);
    assert_eq!(missing.root.tables.len(), 0);
}

#[test]
fn packs_run_last() {
    let b = load_document("t:\n/a/\nx\n~\npack t\n#.t[0].a = y\n", &Vec::new()).unwrap();
    assert_eq!(b.packs, vec!["t:\n/a/\ny".to_string()]);
}

#[test]
fn indexed_keys_are_canonical_keys() {
    let root = root_of("t:\n/k:index/v/\n(1,a),x\n7,y\nz,w\n~\n");
    let t = &root.tables[0];
    let pk = t.primary_key_field_name.clone().unwrap();
    match &t.data {
        TableData::Indexed(es) => {
            assert_eq!(es.len(), 3);
            for (key, row) in es {
                let v = &row.fields.iter().find(|(n, _)| *n == pk).unwrap().1;
                assert_eq!(&skdb::parser::value_to_string_key(v).unwrap(), key);
            }
            assert_eq!(es[0].0, "(1,a)");
        }
        _ => panic!("indexed data expected"),
    }
    assert_eq!(execute_query(&root, "#.t[(1,a)].v"), Some(&s("x")));
}

#[test]
fn header_map_gives_positions() {
    let root = root_of("t:\n/a::integer/b/c:sindex/\n~\n");
    let t = &root.tables[0];
    for (i, h) in t.headers.iter().enumerate() {
        let pos = t.header_map.iter().find(|(n, _)| *n == h.name).unwrap().1;
        assert_eq!(pos, i);
    }
    assert_eq!(t.primary_key_field_name, Some("c".to_string()));
}

#[test]
fn packed_table_reads_back_the_same() {
    let root = root_of("t:\n/id::sindex/n/q::integer/\n0,ann,5\n1,bo,-3\n~\n");
    let text = execute_pack(&root, &["t".to_string()]).unwrap();
    let again = root_of(&text);
    let (a, b) = (&root.tables[0], &again.tables[0]);
    assert_eq!(a.headers, b.headers);
    assert_eq!(a.data, b.data);
    assert_eq!(execute_pack(&again, &["t".to_string()]).unwrap(), text);
}

#[test]
fn key_fields_cannot_be_updated() {
    let mut root = root_of(CONFIG_DOC);
    assert!(execute_update(&mut root, "cfg[a].k", "z").is_err());
    assert_eq!(execute_query(&root, "#.cfg[a].k"), Some(&s("a")));
    let mut users = root_of(USERS_DOC);
    assert!(execute_update(&mut users, "user[0].id", "5").is_err());
    assert_eq!(execute_query(&users, "#.user[0].id"), Some(&Value::Integer(0)));
}

#[test]
fn unbalanced_data_lines_are_dropped() {
    let root = root_of("t:\n/a/b/\n\"x,1\n(1,2\n3),4\nok,5\n~\n");
    match &root.tables[0].data {
        TableData::Sequential(rows) => assert_eq!(rows.len(), 1),
        _ => panic!("sequential data expected"),
    }
    assert_eq!(execute_query(&root, "#.t[0].b"), Some(&Value::Integer(5)));
}

#[test]
fn reference_keeps_loaded_table_over_block() {
    let sources = vec![("ext.hs".to_string(), "x:\n/id:index/v/\nk,1\n~\n".to_string())];
    let b = load_document("x from \"ext.hs\"\nx:\n/id:index/v/\nq,9\n~\n", &sources).unwrap();
    assert_eq!(execute_query(&b.root, "#.x[k].v"), Some(&Value::Integer(1)));
    assert_eq!(execute_query(&b.root, "#.x[q].v"), None);
    assert_eq!(b.warnings.len(), 1);
}

#[test]
fn empty_referenced_table_is_not_filled() {
    let sources = vec![("ext.hs".to_string(), "e:\n/a/\n~\n".to_string())];
    let b = load_document("e from \"ext.hs\"\ne:\n/a/\nz\n~\n", &sources).unwrap();
    match &b.root.tables[0].data {
        TableData::Sequential(rows) => assert_eq!(rows.len(), 0),
        _ => panic!("sequential data expected"),
    }
    assert_eq!(b.warnings.len(), 1);
}
