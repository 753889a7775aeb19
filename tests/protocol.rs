use neo4rs::codec::encodable;
use neo4rs::row::{Kind, Row, TypeError};
use neo4rs::stream::Feed;
use neo4rs::connection::{accept_version, after_summary, handshake_request, ConnState, HandshakeError};
use neo4rs::framing::{frame, unframe, FrameError};
use neo4rs::messages::{field_names, has_more, read_message, request_bytes, Request, Response};
use neo4rs::pool::{ConnectionPool, Lease, Returned};
use neo4rs::stream::{Next, RowStream};
use neo4rs::txn::{Txn, TxnError, TxnOp, TxnState};
use neo4rs::types::Node;
use neo4rs::codec::encode;
use neo4rs::value::WireValue;
use neo4rs::{config, query, Graph};

fn message(v: &WireValue) -> Vec<u8> {
    let mut out = Vec::new();
    encode(v, &mut out);
    frame(&out, 65535)
}

fn success(meta: Vec<(String, WireValue)>) -> Vec<u8> {
    message(&WireValue::Struct(0x70, vec![WireValue::Dict(meta)]))
}

fn record(values: Vec<WireValue>) -> Vec<u8> {
    message(&WireValue::Struct(0x71, vec![WireValue::List(values)]))
}

#[test]
fn framing_splits_and_rejoins() {
    let framed = frame(&vec![1, 2, 3], 2);
    assert_eq!(framed, vec![0, 2, 1, 2, 0, 1, 3, 0, 0]);
    let (msg, end) = unframe(&framed, 0).unwrap();
    assert_eq!(msg, vec![1, 2, 3]);
    assert_eq!(end, 9);
    assert!(matches!(unframe(&vec![0, 2, 1], 0), Err(FrameError::Incomplete)));
}

#[test]
fn handshake_negotiates_a_proposed_version() {
    let proposed = vec![4, 3, 2, 1];
    let req = handshake_request(&proposed);
    assert_eq!(&req[..4], &[0x60, 0x60, 0xB0, 0x17]);
    assert_eq!(&req[4..8], &[0, 0, 0, 4]);
    assert_eq!(&req[16..20], &[0, 0, 0, 1]);
    assert_eq!(accept_version(&vec![0, 0, 0, 3], &proposed), Ok(3));
    assert_eq!(
        accept_version(&vec![0, 0, 0, 0], &vec![5, 6]),
        Err(HandshakeError::NoCompatibleVersion)
    );
    assert_eq!(accept_version(&vec![0, 3], &proposed), Err(HandshakeError::Malformed));
    assert_eq!(handshake_request(&vec![4]).len(), 20);
}

#[test]
fn pool_never_exceeds_capacity_nor_reuses_a_failed_connection() {
    let mut pool = ConnectionPool::new(2);
    assert_eq!(pool.acquire(), Lease::Create(0));
    assert_eq!(pool.acquire(), Lease::Create(1));
    assert_eq!(pool.acquire(), Lease::Wait);
    assert_eq!(pool.release(0, false), Returned::Closed);
    assert_eq!(pool.acquire(), Lease::Create(2));
    assert_eq!(pool.release(1, true), Returned::Pooled);
    assert_eq!(pool.acquire(), Lease::Reuse(1));
    assert_eq!(pool.acquire(), Lease::Wait);
    assert_eq!(pool.release(1, true), Returned::Pooled);
    assert_eq!(pool.drain(), vec![1]);
}

#[test]
fn commit_after_rollback_is_refused() {
    let mut t = Txn::new(true);
    assert_eq!(t.request(TxnOp::Begin), Ok(()));
    t.on_success(TxnOp::Begin, None);
    assert_eq!(t.request(TxnOp::Rollback), Ok(()));
    t.on_success(TxnOp::Rollback, None);
    assert_eq!(t.state_now(), TxnState::RolledBack);
    assert_eq!(t.request(TxnOp::Commit), Err(TxnError::Closed));
}

#[test]
fn failed_transaction_refuses_all_but_rollback() {
    let mut t = Txn::new(true);
    t.on_success(TxnOp::Begin, None);
    t.on_failure();
    assert_eq!(t.request(TxnOp::Run), Err(TxnError::Poisoned));
    assert_eq!(t.request(TxnOp::Commit), Err(TxnError::Poisoned));
    assert_eq!(t.request(TxnOp::Rollback), Ok(()));
    t.on_success(TxnOp::Rollback, None);
    assert_eq!(t.state_now(), TxnState::RolledBack);
}

#[test]
fn commit_keeps_the_bookmark() {
    let mut t = Txn::new(true);
    t.on_success(TxnOp::Begin, None);
    t.on_success(TxnOp::Commit, Some("bm:1".to_string()));
    assert_eq!(t.bookmark_now().unwrap(), "bm:1");
    let auto = Txn::new(false);
    assert_eq!(auto.request(TxnOp::Run), Ok(()));
    assert_eq!(auto.request(TxnOp::Begin), Err(TxnError::Invalid));
}

#[test]
fn stream_returns_records_in_order_then_end() {
    let mut s = RowStream::new(vec!["x".to_string()], 2);
    assert!(matches!(s.next(), Next::Pull(2)));
    s.on_record(vec![WireValue::Integer(1)]).unwrap();
    s.on_record(vec![WireValue::Integer(2)]).unwrap();
    assert!(s.on_record(vec![]).is_err());
    s.on_summary(false);
    for expected in [1, 2] {
        match s.next() {
            Next::Row(r) => assert_eq!(r.get_int("x"), Ok(expected)),
            _ => panic!("expected a row"),
        }
    }
    assert!(matches!(s.next(), Next::End));
    assert!(matches!(s.next(), Next::End));
    assert!(s.is_exhausted());
}

#[test]
fn dropped_stream_is_discarded_and_connection_reused() {
    let mut s = RowStream::new(vec!["n".to_string()], 1);
    s.on_record(vec![WireValue::Integer(10)]).unwrap();
    s.on_summary(true);
    assert!(matches!(s.next(), Next::Row(_)));
    assert!(s.needs_discard());
    let discard = request_bytes(Request::Discard { n: -1, qid: -1 }).unwrap();
    assert!(!discard.is_empty());
    let state = after_summary(ConnState::Streaming, true);
    assert_eq!(state, ConnState::Ready);
    let mut again = RowStream::new(vec!["n".to_string()], 1);
    again.on_record(vec![WireValue::Integer(20)]).unwrap();
    again.on_summary(false);
    match again.next() {
        Next::Row(r) => assert_eq!(r.get_int("n"), Ok(20)),
        _ => panic!("expected a row"),
    }
    assert!(matches!(again.next(), Next::End));
}

#[test]
fn return_one_as_x_yields_one_record() {
    let q = query("RETURN 1 AS x");
    let run = request_bytes(q.into_request()).unwrap();
    assert!(run.len() > 2);
    let fields = match read_message(&success(vec![(
        "fields".to_string(),
        WireValue::List(vec![WireValue::String("x".to_string())]),
    )]))
    .unwrap()
    {
        Response::Success(meta) => meta,
        _ => panic!("expected success"),
    };
    let names = field_names(&fields).unwrap();
    assert_eq!(names, vec!["x".to_string()]);
    let mut s = RowStream::new(names, 100);
    match read_message(&record(vec![WireValue::Integer(1)])).unwrap() {
        Response::Record(values) => s.on_record(values).unwrap(),
        _ => panic!("expected a record"),
    }
    match read_message(&success(vec![])).unwrap() {
        Response::Success(meta) => s.on_summary(has_more(&meta)),
        _ => panic!("expected success"),
    }
    match s.next() {
        Next::Row(r) => {
            assert_eq!(r.len(), 1);
            assert_eq!(r.get_int("x"), Ok(1));
            assert!(r.get_str("x").is_err());
            assert!(r.get_int("y").is_err());
        }
        _ => panic!("expected a row"),
    }
    assert!(matches!(s.next(), Next::End));
}

#[test]
fn has_more_reads_the_summary() {
    assert!(has_more(&vec![("has_more".to_string(), WireValue::Bool(true))]));
    assert!(!has_more(&vec![("has_more".to_string(), WireValue::Bool(false))]));
    assert!(!has_more(&vec![]));
}

#[test]
fn node_keeps_identity_labels_and_properties() {
    let v = WireValue::Struct(
        0x4E,
        vec![
            WireValue::Integer(42),
            WireValue::List(vec![WireValue::String("A".to_string()), WireValue::String("B".to_string())]),
            WireValue::Dict(vec![("k".to_string(), WireValue::Integer(5))]),
        ],
    );
    let n = Node::from_value(v).unwrap();
    assert_eq!(n.id, 42);
    assert_eq!(n.labels, vec!["A".to_string(), "B".to_string()]);
    assert_eq!(n.properties[0].0, "k");
    assert!(Node::from_value(WireValue::Struct(0x4E, vec![])).is_err());
    assert!(Node::from_value(WireValue::Integer(1)).is_err());
}

#[test]
fn config_needs_address_user_and_password() {
    assert!(config().uri("127.0.0.1:7687").user("neo4j").build().is_err());
    let c = config().uri("127.0.0.1:7687").user("neo4j").password("neo").max_connections(3).build().unwrap();
    assert_eq!(c.user, "neo4j");
    let mut g = Graph::new(c);
    assert_eq!(g.acquire(), Lease::Create(0));
}

#[test]
fn failure_message_is_ignored_or_failure() {
    assert!(matches!(read_message(&message(&WireValue::Struct(0x7E, vec![]))), Ok(Response::Ignored)));
    assert!(read_message(&message(&WireValue::Integer(1))).is_err());
    assert!(read_message(&vec![0, 1]).is_err());
}

#[test]
fn field_names_need_a_list_of_strings() {
    assert!(field_names(&vec![]).is_none());
    assert!(field_names(&vec![("fields".to_string(), WireValue::List(vec![WireValue::Integer(1)]))]).is_none());
    assert_eq!(
        field_names(&vec![("fields".to_string(), WireValue::List(vec![]))]),
        Some(vec![])
    );
}

#[test]
fn getters_name_the_actual_kind_of_the_first_field() {
    let r = Row::new(
        vec!["a".to_string(), "a".to_string(), "b".to_string()],
        vec![WireValue::String("s".to_string()), WireValue::Integer(3), WireValue::Bool(true)],
    )
    .unwrap();
    assert_eq!(r.get_int("a"), Err(TypeError::Mismatch { expected: Kind::Integer, actual: Kind::String }));
    assert_eq!(r.get_str("a").unwrap(), "s");
    assert_eq!(r.get_bool("b"), Ok(true));
    assert_eq!(r.get_bool("a"), Err(TypeError::Mismatch { expected: Kind::Bool, actual: Kind::String }));
    assert_eq!(r.get_int("z"), Err(TypeError::Missing));
}

#[test]
fn feed_buffers_records_and_reads_the_summary() {
    let mut s = RowStream::new(vec!["x".to_string()], 5);
    assert!(matches!(s.feed(Response::Record(vec![WireValue::Integer(1)])), Feed::Buffered));
    assert!(matches!(s.feed(Response::Record(vec![])), Feed::Unexpected));
    assert!(matches!(s.feed(Response::Ignored), Feed::Unexpected));
    assert!(matches!(s.feed(Response::Failure(vec![])), Feed::Failed(_)));
    assert!(matches!(
        s.feed(Response::Success(vec![("has_more".to_string(), WireValue::Bool(true))])),
        Feed::Summary { has_more: true }
    ));
    assert!(matches!(s.next(), Next::Row(_)));
    assert!(matches!(s.next(), Next::Pull(5)));
}

#[test]
fn transaction_tracks_its_stream_and_drop_rollback() {
    let mut t = Txn::new(true);
    assert!(!t.rollback_on_drop());
    t.on_success(TxnOp::Begin, None);
    assert!(t.rollback_on_drop());
    t.on_success(TxnOp::Run, None);
    assert!(!t.may_release());
    t.on_success(TxnOp::Pull, None);
    assert!(!t.may_release());
    t.on_stream_end();
    assert!(t.may_release());
    t.on_failure();
    assert!(t.rollback_on_drop());
}

#[test]
fn requests_that_fit_are_encoded() {
    assert!(encodable(&WireValue::Struct(1, vec![WireValue::Null])));
    assert!(!encodable(&WireValue::Struct(1, (0..16).map(|_| WireValue::Null).collect())));
    assert!(request_bytes(Request::Commit).is_some());
    assert_eq!(request_bytes(Request::Commit).unwrap(), vec![0, 2, 0xB0, 0x12, 0, 0]);
}

#[test]
fn graph_keeps_its_configuration() {
    let c = config().uri("h:1").user("u").password("p").fetch_size(7).build().unwrap();
    let mut g = Graph::new(c);
    assert_eq!(g.config().uri, "h:1");
    assert_eq!(g.config().fetch_size, 7);
    assert_eq!(g.acquire(), Lease::Create(0));
    assert_eq!(g.release(0, true), Returned::Pooled);
    assert_eq!(g.shutdown(), vec![0]);
}

#[test]
fn graph_values_come_out_of_rows_checked() {
    let node = WireValue::Struct(
        0x4E,
        vec![WireValue::Integer(3), WireValue::List(vec![]), WireValue::Dict(vec![])],
    );
    let point = WireValue::Struct(0x58, vec![WireValue::Integer(7203), WireValue::Float(0), WireValue::Float(0)]);
    let r = Row::new(vec!["n".to_string(), "p".to_string()], vec![node, point]).unwrap();
    assert_eq!(r.get_point_2d("p").unwrap().srid, 7203);
    assert_eq!(
        r.get_point_2d("n").err(),
        Some(TypeError::Mismatch { expected: Kind::Point2D, actual: Kind::Node })
    );
    assert_eq!(r.into_node("n").unwrap().id, 3);
    let r = Row::new(vec!["n".to_string()], vec![WireValue::Integer(1)]).unwrap();
    assert_eq!(
        r.into_node("n").err(),
        Some(TypeError::Mismatch { expected: Kind::Node, actual: Kind::Integer })
    );
}

#[test]
fn relations_paths_and_3d_points_come_out_of_rows_checked() {
    let rel = WireValue::Struct(
        0x52,
        vec![
            WireValue::Integer(5),
            WireValue::Integer(1),
            WireValue::Integer(2),
            WireValue::String("R".to_string()),
            WireValue::Dict(vec![]),
        ],
    );
    let r = Row::new(vec!["r".to_string()], vec![rel]).unwrap();
    assert_eq!(r.into_relation("r").unwrap().end_node_id, 2);
    let pt = WireValue::Struct(
        0x59,
        vec![WireValue::Integer(9157), WireValue::Float(0), WireValue::Float(0), WireValue::Float(0)],
    );
    let r = Row::new(vec!["q".to_string()], vec![pt]).unwrap();
    assert_eq!(r.get_point_3d("q").unwrap().srid, 9157);
    assert_eq!(
        r.get_point_2d("q").err(),
        Some(TypeError::Mismatch { expected: Kind::Point2D, actual: Kind::Point3D })
    );
    let r = Row::new(vec!["p".to_string()], vec![WireValue::Null]).unwrap();
    assert_eq!(r.into_path("p").err(), Some(TypeError::Mismatch { expected: Kind::Path, actual: Kind::Null }));
}
