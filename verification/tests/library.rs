use neoq::index_file::{
    index_statements, IndexAction, IndexEvent, IndexStage, IndexUpdate, CHECK_TRACKER_QUERY,
    CREATE_TRACKER_QUERY, DROP_SCHEMA_QUERY, DROP_TRACKER_QUERY, SUM_PARAM,
};
use neoq::into_bolt::{
    derive_from_input, derive_into_bolttype, DataShape, DeriveError, FieldsShape, IntoBoltPlan, TypeShape, VariantShape,
};
use neoq::queries::{combine_queries, duplicated_keys, CypherQuery};
use neoq::shasum::{get_str_shasum, lower_hex_string};
use neoq::subgraphs::{
    GraphNode, GraphPath, GraphRelation, GraphUnboundedRelation, RowValue, Subgraph,
};

#[test]
fn shasum_of_known_inputs() {
    assert_eq!(
        get_str_shasum(""),
        "e3b0c44298fc1c149afbf4c8996fb92427ae41e4649b934ca495991b7852b855"
    );
    assert_eq!(
        get_str_shasum("abc"),
        "ba7816bf8f01cfea414140de5dae2223b00361a396177a9cb410ff61f20015ad"
    );
}

#[test]
fn shasum_shape() {
    let sum = get_str_shasum("CREATE INDEX FOR (n:User) ON (n.email);");
    assert_eq!(sum.len(), 64);
    assert!(sum.chars().all(|c| c.is_ascii_digit() || ('a'..='f').contains(&c)));
    assert_eq!(sum, get_str_shasum("CREATE INDEX FOR (n:User) ON (n.email);"));
    assert_ne!(sum, get_str_shasum("CREATE INDEX FOR (n:User) ON (n.name);"));
}

fn query(text: &str, params: &[(&str, i64)]) -> CypherQuery<i64> {
    let mut q = CypherQuery::new(text.to_string());
    for (k, v) in params {
        q = q.param(k.to_string(), *v);
    }
    q
}

#[test]
fn combine_appends_texts_and_keeps_first_parameter() {
    let a = query("MATCH (n:User {id: $id})", &[("id", 1), ("limit", 5)]);
    let b = query("RETURN n LIMIT $limit", &[("limit", 10), ("offset", 2)]);
    let c = combine_queries(vec![a, b]);
    assert_eq!(c.text, "MATCH (n:User {id: $id})\nRETURN n LIMIT $limit\n");
    assert_eq!(
        c.params,
        vec![("id".to_string(), 1), ("limit".to_string(), 5), ("offset".to_string(), 2)]
    );
}

#[test]
fn combine_nothing_is_empty() {
    let c: CypherQuery<i64> = combine_queries(vec![]);
    assert_eq!(c.text, "");
    assert!(c.params.is_empty());
}

#[test]
fn with_combines_two_queries() {
    let a = query("MATCH (n)", &[("x", 1)]);
    let b = query("WHERE n.x = $x", &[("x", 2)]);
    let c = a.with(b);
    assert_eq!(c.text, "MATCH (n)\nWHERE n.x = $x\n");
    assert_eq!(c.params, vec![("x".to_string(), 1)]);
}

#[test]
fn param_replaces_an_earlier_value() {
    let q = query("RETURN $a, $b", &[("a", 1), ("b", 2), ("a", 3)]);
    assert_eq!(q.params, vec![("a".to_string(), 3), ("b".to_string(), 2)]);
}

#[test]
fn statements_are_split_at_semicolons() {
    assert_eq!(
        index_statements("CREATE INDEX a;CREATE INDEX b;"),
        vec!["CREATE INDEX a".to_string(), "CREATE INDEX b".to_string(), String::new()]
    );
    assert_eq!(index_statements(""), vec![String::new()]);
    assert_eq!(index_statements("one"), vec!["one".to_string()]);
    let script = "a;;b;c";
    assert_eq!(index_statements(script).join(";"), script);
}

fn sum_query_of(action: &IndexAction) -> (String, Vec<(String, String)>) {
    match action {
        IndexAction::Check(q) | IndexAction::Run(q) => (q.text.clone(), q.params.clone()),
        _ => panic!("not a query"),
    }
}

#[test]
fn index_update_when_tracker_is_missing() {
    let script = "CREATE INDEX a;CREATE INDEX b";
    let sum = get_str_shasum(script);
    let (mut update, first) = IndexUpdate::start(script);
    assert_eq!(update.stage, IndexStage::Checking);
    assert_eq!(update.sum, sum);
    let (text, params) = sum_query_of(&first);
    assert_eq!(text, CHECK_TRACKER_QUERY);
    assert_eq!(params, vec![(SUM_PARAM.to_string(), sum.clone())]);

    let (text, params) = sum_query_of(&update.step(IndexEvent::TrackerMissing));
    assert_eq!(text, DROP_SCHEMA_QUERY);
    assert!(params.is_empty());
    let (text, _) = sum_query_of(&update.step(IndexEvent::Completed));
    assert_eq!(text, DROP_TRACKER_QUERY);
    match update.step(IndexEvent::Completed) {
        IndexAction::RunInTransaction(statements) => {
            assert_eq!(statements, vec!["CREATE INDEX a".to_string(), "CREATE INDEX b".to_string()])
        }
        _ => panic!("expected the script"),
    }
    let (text, params) = sum_query_of(&update.step(IndexEvent::Completed));
    assert_eq!(text, CREATE_TRACKER_QUERY);
    assert_eq!(params, vec![(SUM_PARAM.to_string(), sum.clone())]);
    assert!(matches!(update.step(IndexEvent::Completed), IndexAction::Done));
    assert_eq!(update.stage, IndexStage::Finished);
}

#[test]
fn index_update_when_tracker_is_found() {
    let (mut update, _) = IndexUpdate::start("CREATE INDEX a");
    assert!(matches!(update.step(IndexEvent::TrackerFound), IndexAction::Done));
    assert_eq!(update.stage, IndexStage::Finished);
}

fn node(id: i64, labels: &[&str], data: &str) -> GraphNode<String> {
    GraphNode { id, labels: labels.iter().map(|l| l.to_string()).collect(), data: data.to_string() }
}

fn nothing() -> RowValue<String, String, String> {
    RowValue { path: None, node: None, relation: None, unbounded: None }
}

#[test]
fn subgraph_keeps_first_element_of_each_id() {
    let mut first = nothing();
    first.node = Some(node(1, &["User"], "first"));
    let mut second = nothing();
    second.node = Some(node(1, &["User"], "second"));
    let mut rel = nothing();
    rel.relation = Some(GraphRelation { id: 7, typ: "FOLLOWS".to_string(), data: "r".to_string() });
    let mut path = nothing();
    path.path = Some(GraphPath {
        nodes: vec![node(2, &["Post"], "p"), node(1, &["User"], "third")],
        rels: vec![GraphUnboundedRelation { id: 9, typ: "WROTE".to_string(), data: "u".to_string() }],
    });
    // A column that reads as a path is taken as a path, even if it reads as a node too.
    path.node = Some(node(3, &["Ghost"], "g"));
    let g = Subgraph::from_rows(vec![vec![first, rel], vec![second, path, nothing()]]);

    assert_eq!(g.nodes.len(), 2);
    assert_eq!(g.nodes[&1].data, "first");
    assert_eq!(g.nodes[&2].data, "p");
    assert!(!g.nodes.contains_key(&3));
    assert_eq!(g.relations.len(), 1);
    assert_eq!(g.relations[&7].typ, "FOLLOWS");
    assert_eq!(g.unbounded_relations.len(), 1);
    assert_eq!(g.unbounded_relations[&9].typ, "WROTE");

    let mut users: Vec<&str> = g.nodes_as("User").iter().map(|n| n.data.as_str()).collect();
    users.sort();
    assert_eq!(users, vec!["first"]);
    assert!(g.nodes_as("Missing").is_empty());
    assert_eq!(g.nodes().len(), 2);
    assert_eq!(g.relationships().len(), 1);
    assert_eq!(g.relationships_as("FOLLOWS").len(), 1);
    assert!(g.relationships_as("WROTE").is_empty());
}

#[test]
fn subgraph_new_is_empty() {
    let g: Subgraph<(), (), ()> = Subgraph::new();
    assert!(g.nodes.is_empty() && g.relations.is_empty() && g.unbounded_relations.is_empty());
}

#[test]
fn collecting_rows_twice_changes_nothing() {
    let make = || {
        let mut a = nothing();
        a.node = Some(node(1, &["A"], "a"));
        let mut b = nothing();
        b.node = Some(node(2, &["B"], "b"));
        vec![vec![a], vec![b]]
    };
    let once = Subgraph::from_rows(make());
    let mut rows = make();
    rows.extend(make());
    let twice = Subgraph::from_rows(rows);
    assert_eq!(once.nodes.len(), twice.nodes.len());
    for (id, n) in &once.nodes {
        assert_eq!(twice.nodes[id].data, n.data);
    }
}

#[test]
fn derive_for_struct_with_named_fields() {
    let input = TypeShape {
        name: "User".to_string(),
        data: DataShape::Struct(FieldsShape::Named(vec!["name".to_string(), "age".to_string()])),
    };
    match derive_into_bolttype(&input).unwrap() {
        IntoBoltPlan::FieldMap(keys) => assert_eq!(keys, vec!["name".to_string(), "age".to_string()]),
        _ => panic!("expected a map"),
    }
}

#[test]
fn derive_for_unit_enum() {
    let input = TypeShape {
        name: "Role".to_string(),
        data: DataShape::Enum(vec![
            VariantShape { name: "Admin".to_string(), fields: FieldsShape::Unit },
            VariantShape { name: "Member".to_string(), fields: FieldsShape::Unit },
        ]),
    };
    match derive_into_bolttype(&input).unwrap() {
        IntoBoltPlan::VariantNames(names) => {
            assert_eq!(names, vec!["Admin".to_string(), "Member".to_string()])
        }
        _ => panic!("expected variant names"),
    }
}

#[test]
fn derive_rejections() {
    let tuple = TypeShape { name: "T".to_string(), data: DataShape::Struct(FieldsShape::Unnamed(2)) };
    assert_eq!(derive_into_bolttype(&tuple).unwrap_err(), DeriveError::UnnamedFields);
    let unit = TypeShape { name: "U".to_string(), data: DataShape::Struct(FieldsShape::Unit) };
    assert_eq!(derive_into_bolttype(&unit).unwrap_err(), DeriveError::UnnamedFields);
    let union = TypeShape { name: "X".to_string(), data: DataShape::Union };
    assert_eq!(derive_into_bolttype(&union).unwrap_err(), DeriveError::UnsupportedType);
    let data_enum = TypeShape {
        name: "E".to_string(),
        data: DataShape::Enum(vec![
            VariantShape { name: "A".to_string(), fields: FieldsShape::Unit },
            VariantShape { name: "B".to_string(), fields: FieldsShape::Unnamed(1) },
        ]),
    };
    assert_eq!(derive_into_bolttype(&data_enum).unwrap_err(), DeriveError::VariantWithFields);
}

#[test]
fn lower_hex_of_bytes() {
    assert_eq!(lower_hex_string(&[0x00, 0x0f, 0xab, 0xff]), "000fabff");
    assert_eq!(lower_hex_string(&[]), "");
}

#[test]
fn update_awaits_only_its_events() {
    let (mut update, _) = IndexUpdate::start("CREATE INDEX a");
    assert!(update.awaits(IndexEvent::TrackerFound));
    assert!(update.awaits(IndexEvent::TrackerMissing));
    assert!(!update.awaits(IndexEvent::Completed));
    update.step(IndexEvent::TrackerMissing);
    assert!(update.awaits(IndexEvent::Completed));
    assert!(!update.awaits(IndexEvent::TrackerFound));
    update.step(IndexEvent::Completed);
    update.step(IndexEvent::Completed);
    update.step(IndexEvent::Completed);
    update.step(IndexEvent::Completed);
    assert!(!update.awaits(IndexEvent::Completed));
}

#[test]
fn labelled_nodes_are_listed_once() {
    let rows: Vec<Vec<RowValue<String, String, String>>> = (0..4)
        .map(|id| {
            let mut v = nothing();
            v.node = Some(node(id, if id % 2 == 0 { &["Even"] } else { &["Odd", "Even"] }, "n"));
            vec![v]
        })
        .collect();
    let g = Subgraph::from_rows(rows);
    let mut ids: Vec<i64> = g.nodes_as("Even").iter().map(|n| n.id).collect();
    ids.sort();
    assert_eq!(ids, vec![0, 1, 2, 3]);
    let mut odd: Vec<i64> = g.nodes_as("Odd").iter().map(|n| n.id).collect();
    odd.sort();
    assert_eq!(odd, vec![1, 3]);
}

#[test]
fn a_failure_aborts_the_update() {
    let (mut update, _) = IndexUpdate::start("CREATE INDEX a");
    assert!(update.awaits(IndexEvent::Failed));
    assert!(matches!(update.step(IndexEvent::Failed), IndexAction::Abort));
    assert_eq!(update.stage, IndexStage::Aborted);
    assert!(!update.awaits(IndexEvent::Failed));
    assert!(!update.awaits(IndexEvent::Completed));

    let (mut update, _) = IndexUpdate::start("CREATE INDEX a");
    update.step(IndexEvent::TrackerMissing);
    update.step(IndexEvent::Completed);
    update.step(IndexEvent::Completed);
    assert_eq!(update.stage, IndexStage::Reindexing);
    assert!(matches!(update.step(IndexEvent::Failed), IndexAction::Abort));
    assert_eq!(update.stage, IndexStage::Aborted);
}

fn derive_source(src: &str) -> (Result<IntoBoltPlan, DeriveError>, Option<TypeShape>) {
    derive_from_input(src.parse::<proc_macro2::TokenStream>().unwrap())
}

#[test]
fn derive_reads_the_definition() {
    let (plan, shape) = derive_source("#[derive(Debug)] pub struct User { name: String, pub age: i64 }");
    let shape = shape.unwrap();
    assert_eq!(shape.name, "User");
    assert_eq!(plan.unwrap(), IntoBoltPlan::FieldMap(vec!["name".to_string(), "age".to_string()]));

    let (plan, shape) = derive_source("enum Role { Admin, Member }");
    assert_eq!(shape.unwrap().name, "Role");
    assert_eq!(plan.unwrap(), IntoBoltPlan::VariantNames(vec!["Admin".to_string(), "Member".to_string()]));
}

#[test]
fn derive_rejects_what_it_cannot_convert() {
    assert_eq!(derive_source("struct T(i64);").0.unwrap_err(), DeriveError::UnnamedFields);
    assert_eq!(derive_source("struct U;").0.unwrap_err(), DeriveError::UnnamedFields);
    assert_eq!(derive_source("union X { a: u32 }").0.unwrap_err(), DeriveError::UnsupportedType);
    assert_eq!(derive_source("enum E { A, B(i64) }").0.unwrap_err(), DeriveError::VariantWithFields);
    let (plan, shape) = derive_source("fn not_a_type() {}");
    assert!(shape.is_none());
    assert_eq!(plan.unwrap_err(), DeriveError::ParseFailed);
}

#[test]
fn duplicated_keys_are_reported_in_order() {
    let raw = |text: &str, params: &[(&str, i64)]| CypherQuery {
        text: text.to_string(),
        params: params.iter().map(|(k, v)| (k.to_string(), *v)).collect(),
    };
    let queries = vec![
        raw("MATCH (a)", &[("x", 1), ("y", 2), ("x", 3)]),
        raw("MATCH (b)", &[("y", 4), ("z", 5)]),
        raw("MATCH (c)", &[("x", 6)]),
    ];
    assert_eq!(duplicated_keys(&queries), vec!["x".to_string(), "y".to_string(), "x".to_string()]);
    let combined = combine_queries(queries);
    assert_eq!(combined.params.len(), 3);
    assert!(duplicated_keys(&vec![query("RETURN 1", &[("a", 1)])]).is_empty());
    assert!(duplicated_keys::<i64>(&vec![]).is_empty());
}
