use neo4rs::codec::{decode, encode};
use neo4rs::messages::Request;
use neo4rs::types::{check_walk, Path, Point2D, Point3D, Relation, ShapeError, UnboundedRelation};
use neo4rs::value::WireValue;
use neo4rs::{config, query, query_error, Error};

fn s(x: &str) -> WireValue {
    WireValue::String(x.to_string())
}

fn node(id: i64) -> WireValue {
    WireValue::Struct(0x4E, vec![WireValue::Integer(id), WireValue::List(vec![s("N")]), WireValue::Dict(vec![])])
}

fn rel(id: i64) -> WireValue {
    WireValue::Struct(0x72, vec![WireValue::Integer(id), s("KNOWS"), WireValue::Dict(vec![])])
}

fn path(indices: Vec<i64>) -> WireValue {
    WireValue::Struct(
        0x50,
        vec![
            WireValue::List(vec![node(1), node(2)]),
            WireValue::List(vec![rel(9)]),
            WireValue::List(indices.into_iter().map(WireValue::Integer).collect()),
        ],
    )
}

#[test]
fn path_survives_the_wire_as_a_valid_walk() {
    let mut bytes = Vec::new();
    encode(&path(vec![1, 1]), &mut bytes);
    let (v, _) = decode(&bytes, 0).unwrap();
    let p = Path::from_value(v).unwrap();
    assert_eq!(p.nodes.len(), 2);
    assert_eq!(p.nodes[1].id, 2);
    assert_eq!(p.rels[0].id, 9);
    assert_eq!(p.rels[0].typ, "KNOWS");
    assert_eq!(p.indices, vec![1, 1]);
}

#[test]
fn path_with_a_broken_walk_is_refused() {
    assert!(matches!(Path::from_value(path(vec![2, 1])), Err(ShapeError::InvalidWalk)));
    assert!(matches!(Path::from_value(path(vec![1, 2])), Err(ShapeError::InvalidWalk)));
    assert!(matches!(Path::from_value(path(vec![1])), Err(ShapeError::InvalidWalk)));
    assert!(matches!(Path::from_value(path(vec![0, 1])), Err(ShapeError::InvalidWalk)));
    assert!(Path::from_value(path(vec![-1, 1])).is_ok());
    assert!(check_walk(1, 0, &vec![]));
    assert!(!check_walk(0, 0, &vec![]));
}

#[test]
fn relation_and_points_decode() {
    let r = Relation::from_value(WireValue::Struct(
        0x52,
        vec![WireValue::Integer(5), WireValue::Integer(1), WireValue::Integer(2), s("LIKES"), WireValue::Dict(vec![])],
    ))
    .unwrap();
    assert_eq!((r.id, r.start_node_id, r.end_node_id), (5, 1, 2));
    assert_eq!(r.typ, "LIKES");
    assert!(UnboundedRelation::from_value(rel(3)).is_ok());
    assert!(UnboundedRelation::from_value(node(3)).is_err());
    let p = Point2D { srid: 7203, x: 1.0f64.to_bits(), y: 2.0f64.to_bits() };
    let back = Point2D::from_value(&p.to_value()).unwrap();
    assert_eq!(f64::from_bits(back.y), 2.0);
    assert_eq!(back.srid, 7203);
    let q = Point3D::from_value(&WireValue::Struct(
        0x59,
        vec![WireValue::Integer(9157), WireValue::Float(0), WireValue::Float(0), WireValue::Float(3.5f64.to_bits())],
    ))
    .unwrap();
    assert_eq!(f64::from_bits(q.z), 3.5);
    assert!(Point2D::from_value(&WireValue::Null).is_err());
}

#[test]
fn failure_metadata_becomes_a_query_error() {
    let meta = vec![
        ("code".to_string(), s("Neo.ClientError.Statement.SyntaxError")),
        ("message".to_string(), s("bad")),
    ];
    match query_error(&meta) {
        Error::QueryError { code, message } => {
            assert_eq!(code, "Neo.ClientError.Statement.SyntaxError");
            assert_eq!(message, "bad");
        }
        _ => panic!("expected a query error"),
    }
    match query_error(&vec![]) {
        Error::QueryError { code, .. } => assert_eq!(code, ""),
        _ => panic!("expected a query error"),
    }
}

#[test]
fn hello_carries_the_credentials() {
    let c = config().uri("localhost:7687").user("neo4j").password("secret").build().unwrap();
    match c.hello() {
        Request::Hello { extra } => {
            assert_eq!(extra.len(), 4);
            assert_eq!(extra[2].0, "principal");
            assert!(matches!(&extra[2].1, WireValue::String(u) if u == "neo4j"));
            assert!(matches!(&extra[3].1, WireValue::String(p) if p == "secret"));
        }
        _ => panic!("expected hello"),
    }
}

#[test]
fn query_collects_parameters() {
    let q = query("CREATE (n {name: $name})").param("name", s("Mr Mark"));
    match q.into_request() {
        Request::Run { query, params, extra } => {
            assert_eq!(query, "CREATE (n {name: $name})");
            assert_eq!(params.len(), 1);
            assert_eq!(params[0].0, "name");
            assert!(extra.is_empty());
        }
        _ => panic!("expected run"),
    }
}
