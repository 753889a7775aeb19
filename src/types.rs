use vstd::prelude::*;
use crate::codec::{enc, entries_view, items_view, lemma_round_trip, parse, wf, CodecError};
use crate::row::strings_view;
use crate::value::{Val, WireValue};

verus! {

/// The structure tag of a node.
pub const NODE_TAG: u8 = 0x4E;

/// The structure tag of a relationship.
pub const RELATION_TAG: u8 = 0x52;

/// The structure tag of a relationship inside a path.
pub const UNBOUNDED_RELATION_TAG: u8 = 0x72;

/// The structure tag of a path.
pub const PATH_TAG: u8 = 0x50;

/// The structure tag of a two-dimensional point.
pub const POINT_2D_TAG: u8 = 0x58;

/// The structure tag of a three-dimensional point.
pub const POINT_3D_TAG: u8 = 0x59;

/// Why a value is not the graph entity asked for.
#[derive(Debug, Clone, Copy, PartialEq, Eq, Structural)]
pub enum ShapeError {
    /// Not a structure with the expected tag and number of fields.
    WrongStructure,
    /// A field holds a value of another kind.
    WrongField,
    /// A path's index sequence does not describe a walk over its parts.
    InvalidWalk,
}

/// Whether `v` is a structure with tag `tag` and `n` fields.
pub open spec fn has_header(v: Val, tag: u8, n: nat) -> bool {
    v is Struct && v->Struct_0 == tag && v->Struct_1.len() == n
}

pub open spec fn str_list(s: Seq<Seq<char>>) -> Val {
    Val::List(Seq::new(s.len(), |i: int| Val::Str(s[i])))
}

pub open spec fn is_str_list(v: Val) -> bool {
    &&& v is List
    &&& forall|i: int| 0 <= i < v->List_0.len() ==> v->List_0[i] is Str
}

/// The strings of a list that holds only strings.
pub fn strings_of(list: Vec<WireValue>) -> (r: Option<Vec<String>>)
    ensures
        r is Some <==> is_str_list(Val::List(items_view(&list))),
        r is Some ==> str_list(strings_view(&r->Some_0)) == Val::List(items_view(&list)),
{
    let ghost orig = items_view(&list);
    let mut l = list;
    let mut out: Vec<String> = Vec::new();
    while l.len() > 0
        invariant
            orig == items_view(&list),
            orig == strings_view(&out).map_values(|s: Seq<char>| Val::Str(s)) + items_view(&l),
        decreases l.len(),
    {
        let ghost before = items_view(&l);
        let ghost sv = strings_view(&out);
        let x = l.remove(0);
        assert(items_view(&l) =~= before.drop_first());
        match x {
            WireValue::String(s) => {
                out.push(s);
                assert(strings_view(&out).map_values(|s: Seq<char>| Val::Str(s)) =~= sv.map_values(
                    |s: Seq<char>| Val::Str(s),
                ).push(before[0]));
                assert(orig =~= strings_view(&out).map_values(|s: Seq<char>| Val::Str(s)) + items_view(&l));
            },
            _ => {
                assert(orig[sv.len() as int] == before[0]);
                assert(!(orig[sv.len() as int] is Str));
                assert(Val::List(orig)->List_0[sv.len() as int] == before[0]);
                return None;
            },
        }
    }
    assert(orig =~= strings_view(&out).map_values(|s: Seq<char>| Val::Str(s)));
    assert(str_list(strings_view(&out)) =~= Val::List(orig)) by {
        assert(str_list(strings_view(&out))->List_0 =~= orig);
    }
    Some(out)
}

/// A node: its identity, labels and properties.
pub struct Node {
    pub id: i64,
    pub labels: Vec<String>,
    pub properties: Vec<(String, WireValue)>,
}

pub open spec fn node_val(id: int, labels: Seq<Seq<char>>, props: Seq<(Seq<char>, Val)>) -> Val {
    Val::Struct(NODE_TAG, seq![Val::Integer(id), str_list(labels), Val::Dict(props)])
}

/// Whether `v` has the shape of a node.
pub open spec fn is_node(v: Val) -> bool {
    &&& v is Struct
    &&& v->Struct_0 == NODE_TAG
    &&& v->Struct_1.len() == 3
    &&& v->Struct_1[0] is Integer
    &&& is_str_list(v->Struct_1[1])
    &&& v->Struct_1[2] is Dict
}

impl Node {
    /// The value that carries this node.
    pub open spec fn view(&self) -> Val {
        node_val(self.id as int, strings_view(&self.labels), entries_view(&self.properties))
    }

    /// Reads a node from its structure.
    pub fn from_value(v: WireValue) -> (r: Result<Node, ShapeError>)
        ensures
            r is Ok <==> is_node(v@),
            r is Ok ==> r->Ok_0@ == v@,
            r is Err ==> (r->Err_0 == ShapeError::WrongStructure <==> !has_header(v@, NODE_TAG, 3)),
    {
        let ghost vv = v@;
        match v {
            WireValue::Struct(tag, f) => {
                let ghost fv = items_view(&f);
                assert(vv->Struct_1 =~= fv);
                if tag != NODE_TAG || f.len() != 3 {
                    return Err(ShapeError::WrongStructure);
                }
                let mut f = f;
                let props = f.pop().unwrap();
                let labels = f.pop().unwrap();
                let id = f.pop().unwrap();
                assert(id@ == fv[0] && labels@ == fv[1] && props@ == fv[2]);
                match (id, labels, props) {
                    (WireValue::Integer(id), WireValue::List(labels), WireValue::Dict(props)) => {
                        assert(fv[1]->List_0 =~= items_view(&labels));
                        match strings_of(labels) {
                            Some(labels) => {
                                let n = Node { id, labels, properties: props };
                                assert(fv[2]->Dict_0 =~= entries_view(&n.properties));
                                assert(n@->Struct_1 =~= vv->Struct_1);
                                Ok(n)
                            },
                            None => Err(ShapeError::WrongField),
                        }
                    },
                    _ => Err(ShapeError::WrongField),
                }
            },
            _ => Err(ShapeError::WrongStructure),
        }
    }
}

/// A relationship: its identity, the identities of its two end nodes, its
/// type and its properties.
pub struct Relation {
    pub id: i64,
    pub start_node_id: i64,
    pub end_node_id: i64,
    pub typ: String,
    pub properties: Vec<(String, WireValue)>,
}

pub open spec fn is_relation(v: Val) -> bool {
    &&& v is Struct
    &&& v->Struct_0 == RELATION_TAG
    &&& v->Struct_1.len() == 5
    &&& v->Struct_1[0] is Integer
    &&& v->Struct_1[1] is Integer
    &&& v->Struct_1[2] is Integer
    &&& v->Struct_1[3] is Str
    &&& v->Struct_1[4] is Dict
}

impl Relation {
    pub open spec fn view(&self) -> Val {
        Val::Struct(
            RELATION_TAG,
            seq![
                Val::Integer(self.id as int),
                Val::Integer(self.start_node_id as int),
                Val::Integer(self.end_node_id as int),
                Val::Str(self.typ@),
                Val::Dict(entries_view(&self.properties)),
            ],
        )
    }

    /// Reads a relationship from its structure.
    pub fn from_value(v: WireValue) -> (r: Result<Relation, ShapeError>)
        ensures
            r is Ok <==> is_relation(v@),
            r is Ok ==> r->Ok_0@ == v@,
            r is Err ==> (r->Err_0 == ShapeError::WrongStructure <==> !has_header(v@, RELATION_TAG, 5)),
    {
        let ghost vv = v@;
        match v {
            WireValue::Struct(tag, f) => {
                let ghost fv = items_view(&f);
                assert(vv->Struct_1 =~= fv);
                if tag != RELATION_TAG || f.len() != 5 {
                    return Err(ShapeError::WrongStructure);
                }
                let mut f = f;
                let props = f.pop().unwrap();
                let typ = f.pop().unwrap();
                let end = f.pop().unwrap();
                let start = f.pop().unwrap();
                let id = f.pop().unwrap();
                assert(id@ == fv[0] && start@ == fv[1] && end@ == fv[2] && typ@ == fv[3] && props@ == fv[4]);
                match (id, start, end, typ, props) {
                    (
                        WireValue::Integer(id),
                        WireValue::Integer(start_node_id),
                        WireValue::Integer(end_node_id),
                        WireValue::String(typ),
                        WireValue::Dict(props),
                    ) => {
                        let r = Relation { id, start_node_id, end_node_id, typ, properties: props };
                        assert(fv[4]->Dict_0 =~= entries_view(&r.properties));
                        assert(r@->Struct_1 =~= vv->Struct_1);
                        Ok(r)
                    },
                    _ => Err(ShapeError::WrongField),
                }
            },
            _ => Err(ShapeError::WrongStructure),
        }
    }
}

/// A point in the plane: its spatial reference id and the bit patterns of
/// its two coordinates.
pub struct Point2D {
    pub srid: i64,
    pub x: u64,
    pub y: u64,
}

pub open spec fn is_point_2d(v: Val) -> bool {
    &&& v is Struct
    &&& v->Struct_0 == POINT_2D_TAG
    &&& v->Struct_1.len() == 3
    &&& v->Struct_1[0] is Integer
    &&& v->Struct_1[1] is Float
    &&& v->Struct_1[2] is Float
}

impl Point2D {
    pub open spec fn view(&self) -> Val {
        Val::Struct(POINT_2D_TAG, seq![Val::Integer(self.srid as int), Val::Float(self.x), Val::Float(self.y)])
    }

    /// Reads a point from its structure.
    pub fn from_value(v: &WireValue) -> (r: Result<Point2D, ShapeError>)
        ensures
            r is Ok <==> is_point_2d(v@),
            r is Ok ==> r->Ok_0@ == v@,
            r is Err ==> (r->Err_0 == ShapeError::WrongStructure <==> !has_header(v@, POINT_2D_TAG, 3)),
    {
        match v {
            WireValue::Struct(tag, f) => {
                assert(v@->Struct_1 =~= items_view(f));
                if *tag != POINT_2D_TAG || f.len() != 3 {
                    return Err(ShapeError::WrongStructure);
                }
                match (&f[0], &f[1], &f[2]) {
                    (WireValue::Integer(srid), WireValue::Float(x), WireValue::Float(y)) => {
                        let p = Point2D { srid: *srid, x: *x, y: *y };
                        assert(p@->Struct_1 =~= v@->Struct_1);
                        Ok(p)
                    },
                    _ => Err(ShapeError::WrongField),
                }
            },
            _ => Err(ShapeError::WrongStructure),
        }
    }

    pub fn to_value(&self) -> (r: WireValue)
        ensures
            r@ == self@,
    {
        let mut f: Vec<WireValue> = Vec::new();
        f.push(WireValue::Integer(self.srid));
        f.push(WireValue::Float(self.x));
        f.push(WireValue::Float(self.y));
        assert(f@[0]@ == Val::Integer(self.srid as int));
        assert(f@[1]@ == Val::Float(self.x));
        assert(f@[2]@ == Val::Float(self.y));
        let r = WireValue::Struct(POINT_2D_TAG, f);
        assert(r@->Struct_1 =~= self@->Struct_1);
        r
    }
}

/// A point in space: its spatial reference id and the bit patterns of its
/// three coordinates.
pub struct Point3D {
    pub srid: i64,
    pub x: u64,
    pub y: u64,
    pub z: u64,
}

pub open spec fn is_point_3d(v: Val) -> bool {
    &&& v is Struct
    &&& v->Struct_0 == POINT_3D_TAG
    &&& v->Struct_1.len() == 4
    &&& v->Struct_1[0] is Integer
    &&& v->Struct_1[1] is Float
    &&& v->Struct_1[2] is Float
    &&& v->Struct_1[3] is Float
}

impl Point3D {
    pub open spec fn view(&self) -> Val {
        Val::Struct(
            POINT_3D_TAG,
            seq![Val::Integer(self.srid as int), Val::Float(self.x), Val::Float(self.y), Val::Float(self.z)],
        )
    }

    /// Reads a point from its structure.
    pub fn from_value(v: &WireValue) -> (r: Result<Point3D, ShapeError>)
        ensures
            r is Ok <==> is_point_3d(v@),
            r is Ok ==> r->Ok_0@ == v@,
            r is Err ==> (r->Err_0 == ShapeError::WrongStructure <==> !has_header(v@, POINT_3D_TAG, 4)),
    {
        match v {
            WireValue::Struct(tag, f) => {
                assert(v@->Struct_1 =~= items_view(f));
                if *tag != POINT_3D_TAG || f.len() != 4 {
                    return Err(ShapeError::WrongStructure);
                }
                match (&f[0], &f[1], &f[2], &f[3]) {
                    (WireValue::Integer(srid), WireValue::Float(x), WireValue::Float(y), WireValue::Float(z)) => {
                        let p = Point3D { srid: *srid, x: *x, y: *y, z: *z };
                        assert(p@->Struct_1 =~= v@->Struct_1);
                        Ok(p)
                    },
                    _ => Err(ShapeError::WrongField),
                }
            },
            _ => Err(ShapeError::WrongStructure),
        }
    }
}

/// A relationship as it appears inside a path: without its end nodes.
pub struct UnboundedRelation {
    pub id: i64,
    pub typ: String,
    pub properties: Vec<(String, WireValue)>,
}

pub open spec fn is_unbounded_relation(v: Val) -> bool {
    &&& v is Struct
    &&& v->Struct_0 == UNBOUNDED_RELATION_TAG
    &&& v->Struct_1.len() == 3
    &&& v->Struct_1[0] is Integer
    &&& v->Struct_1[1] is Str
    &&& v->Struct_1[2] is Dict
}

impl UnboundedRelation {
    pub open spec fn view(&self) -> Val {
        Val::Struct(
            UNBOUNDED_RELATION_TAG,
            seq![Val::Integer(self.id as int), Val::Str(self.typ@), Val::Dict(entries_view(&self.properties))],
        )
    }

    /// Reads a relationship of a path from its structure.
    pub fn from_value(v: WireValue) -> (r: Result<UnboundedRelation, ShapeError>)
        ensures
            r is Ok <==> is_unbounded_relation(v@),
            r is Ok ==> r->Ok_0@ == v@,
            r is Err ==> (r->Err_0 == ShapeError::WrongStructure <==> !has_header(v@, UNBOUNDED_RELATION_TAG, 3)),
    {
        let ghost vv = v@;
        match v {
            WireValue::Struct(tag, f) => {
                let ghost fv = items_view(&f);
                assert(vv->Struct_1 =~= fv);
                if tag != UNBOUNDED_RELATION_TAG || f.len() != 3 {
                    return Err(ShapeError::WrongStructure);
                }
                let mut f = f;
                let props = f.pop().unwrap();
                let typ = f.pop().unwrap();
                let id = f.pop().unwrap();
                assert(id@ == fv[0] && typ@ == fv[1] && props@ == fv[2]);
                match (id, typ, props) {
                    (WireValue::Integer(id), WireValue::String(typ), WireValue::Dict(props)) => {
                        let r = UnboundedRelation { id, typ, properties: props };
                        assert(fv[2]->Dict_0 =~= entries_view(&r.properties));
                        assert(r@->Struct_1 =~= vv->Struct_1);
                        Ok(r)
                    },
                    _ => Err(ShapeError::WrongField),
                }
            },
            _ => Err(ShapeError::WrongStructure),
        }
    }
}

/// Whether `idx` describes a walk over `n_nodes` nodes and `n_rels`
/// relationships: it alternates a relationship index (1-based, negative when
/// the relationship is walked against its direction) and a node index, and
/// there is a first node to start from.
pub open spec fn valid_walk(n_nodes: nat, n_rels: nat, idx: Seq<i64>) -> bool {
    &&& n_nodes > 0
    &&& idx.len() % 2 == 0
    &&& forall|k: int|
        0 <= k < idx.len() ==> if k % 2 == 0 {
            idx[k] != 0 && -n_rels <= idx[k] <= n_rels
        } else {
            0 <= idx[k] < n_nodes
        }
}

/// Whether `idx` describes a walk (see `valid_walk`).
pub fn check_walk(n_nodes: usize, n_rels: usize, idx: &Vec<i64>) -> (r: bool)
    ensures
        r == valid_walk(n_nodes as nat, n_rels as nat, idx@),
{
    if n_nodes == 0 || idx.len() % 2 != 0 {
        return false;
    }
    let mut k: usize = 0;
    while k < idx.len()
        invariant
            n_nodes > 0,
            idx@.len() % 2 == 0,
            k <= idx.len(),
            forall|j: int|
                0 <= j < k ==> if j % 2 == 0 {
                    idx@[j] != 0 && -(n_rels as int) <= idx@[j] <= n_rels
                } else {
                    0 <= idx@[j] < n_nodes
                },
        decreases idx.len() - k,
    {
        let x = idx[k] as i128;
        if k % 2 == 0 {
            if x == 0 || x < -(n_rels as i128) || x > n_rels as i128 {
                return false;
            }
        } else {
            if x < 0 || x >= n_nodes as i128 {
                return false;
            }
        }
        k = k + 1;
    }
    true
}

/// A path: its nodes, its relationships, and the walk over them.
pub struct Path {
    pub nodes: Vec<Node>,
    pub rels: Vec<UnboundedRelation>,
    pub indices: Vec<i64>,
}

pub open spec fn is_path_shape(v: Val) -> bool {
    &&& v is Struct
    &&& v->Struct_0 == PATH_TAG
    &&& v->Struct_1.len() == 3
    &&& v->Struct_1[0] is List
    &&& v->Struct_1[1] is List
    &&& v->Struct_1[2] is List
    &&& forall|i: int| 0 <= i < v->Struct_1[0]->List_0.len() ==> is_node(#[trigger] v->Struct_1[0]->List_0[i])
    &&& forall|i: int|
        0 <= i < v->Struct_1[1]->List_0.len() ==> is_unbounded_relation(#[trigger] v->Struct_1[1]->List_0[i])
    &&& forall|i: int| 0 <= i < v->Struct_1[2]->List_0.len() ==> (#[trigger] v->Struct_1[2]->List_0[i]) is Integer
}

/// The index sequence of a path value of the right shape.
pub open spec fn walk_of(v: Val) -> Seq<i64> {
    Seq::new(v->Struct_1[2]->List_0.len(), |i: int| v->Struct_1[2]->List_0[i]->Integer_0 as i64)
}

/// Whether `v` is a path whose index sequence describes a walk over its parts.
pub open spec fn is_path(v: Val) -> bool {
    is_path_shape(v) && valid_walk(v->Struct_1[0]->List_0.len(), v->Struct_1[1]->List_0.len(), walk_of(v))
}

impl Path {
    pub open spec fn nodes_view(&self) -> Seq<Val> {
        Seq::new(self.nodes.len() as nat, |i: int| self.nodes[i]@)
    }

    pub open spec fn rels_view(&self) -> Seq<Val> {
        Seq::new(self.rels.len() as nat, |i: int| self.rels[i]@)
    }

    /// Reads a path from its structure; refuses one whose index sequence
    /// is no walk over its nodes and relationships.
    pub fn from_value(v: WireValue) -> (r: Result<Path, ShapeError>)
        ensures
            r is Ok <==> is_path(v@),
            r is Ok ==> {
                let p = r->Ok_0;
                &&& p.nodes_view() == v@->Struct_1[0]->List_0
                &&& p.rels_view() == v@->Struct_1[1]->List_0
                &&& p.indices@ == walk_of(v@)
                &&& valid_walk(p.nodes@.len(), p.rels@.len(), p.indices@)
            },
            r is Err ==> (r->Err_0 == ShapeError::WrongStructure <==> !has_header(v@, PATH_TAG, 3)),
            r is Err ==> (r->Err_0 == ShapeError::InvalidWalk <==> is_path_shape(v@) && !is_path(v@)),
    {
        let ghost vv = v@;
        match v {
            WireValue::Struct(tag, f) => {
                let ghost fv = items_view(&f);
                assert(vv->Struct_1 =~= fv);
                if tag != PATH_TAG || f.len() != 3 {
                    return Err(ShapeError::WrongStructure);
                }
                let mut f = f;
                let idx = f.pop().unwrap();
                let rels = f.pop().unwrap();
                let nodes = f.pop().unwrap();
                assert(nodes@ == fv[0] && rels@ == fv[1] && idx@ == fv[2]);
                match (nodes, rels, idx) {
                    (WireValue::List(nodes), WireValue::List(rels), WireValue::List(idx)) => {
                        assert(fv[0]->List_0 =~= items_view(&nodes));
                        assert(fv[1]->List_0 =~= items_view(&rels));
                        assert(fv[2]->List_0 =~= items_view(&idx));
                        let nodes = match nodes_of(nodes) {
                            Some(n) => n,
                            None => return Err(ShapeError::WrongField),
                        };
                        let rels = match rels_of(rels) {
                            Some(r) => r,
                            None => return Err(ShapeError::WrongField),
                        };
                        let indices = match ints_of(idx) {
                            Some(i) => i,
                            None => return Err(ShapeError::WrongField),
                        };
                        let p = Path { nodes, rels, indices };
                        assert(p.indices@ =~= walk_of(vv));
                        assert(p.nodes_view() =~= vv->Struct_1[0]->List_0);
                        assert(p.rels_view() =~= vv->Struct_1[1]->List_0);
                        if !check_walk(p.nodes.len(), p.rels.len(), &p.indices) {
                            return Err(ShapeError::InvalidWalk);
                        }
                        Ok(p)
                    },
                    _ => Err(ShapeError::WrongField),
                }
            },
            _ => Err(ShapeError::WrongStructure),
        }
    }
}

/// The nodes of a list that holds only nodes.
fn nodes_of(list: Vec<WireValue>) -> (r: Option<Vec<Node>>)
    ensures
        r is Some <==> forall|i: int| 0 <= i < list.len() ==> is_node(#[trigger] items_view(&list)[i]),
        r is Some ==> r->Some_0.len() == list.len() && forall|i: int|
            0 <= i < list.len() ==> (#[trigger] r->Some_0@[i])@ == items_view(&list)[i],
{
    let ghost orig = items_view(&list);
    let mut l = list;
    let mut out: Vec<Node> = Vec::new();
    while l.len() > 0
        invariant
            orig == items_view(&list),
            out.len() + l.len() == orig.len(),
            forall|i: int| 0 <= i < out.len() ==> (#[trigger] out@[i])@ == orig[i] && is_node(orig[i]),
            forall|i: int| 0 <= i < l.len() ==> #[trigger] items_view(&l)[i] == orig[out.len() + i],
        decreases l.len(),
    {
        let ghost before = items_view(&l);
        let x = l.remove(0);
        assert(x@ == before[0]);
        assert forall|i: int| 0 <= i < l.len() implies #[trigger] items_view(&l)[i] == orig[out.len() + 1 + i] by {
            assert(items_view(&l)[i] == before[i + 1]);
        }
        match Node::from_value(x) {
            Ok(n) => out.push(n),
            Err(_) => {
                assert(!is_node(items_view(&list)[out.len() as int]));
                return None;
            },
        }
    }
    assert forall|i: int| 0 <= i < list.len() implies is_node(#[trigger] items_view(&list)[i]) by {
        assert(out@[i]@ == orig[i]);
    }
    Some(out)
}

/// The relationships of a list that holds only relationships of a path.
fn rels_of(list: Vec<WireValue>) -> (r: Option<Vec<UnboundedRelation>>)
    ensures
        r is Some <==> forall|i: int| 0 <= i < list.len() ==> is_unbounded_relation(#[trigger] items_view(&list)[i]),
        r is Some ==> r->Some_0.len() == list.len() && forall|i: int|
            0 <= i < list.len() ==> (#[trigger] r->Some_0@[i])@ == items_view(&list)[i],
{
    let ghost orig = items_view(&list);
    let mut l = list;
    let mut out: Vec<UnboundedRelation> = Vec::new();
    while l.len() > 0
        invariant
            orig == items_view(&list),
            out.len() + l.len() == orig.len(),
            forall|i: int| 0 <= i < out.len() ==> (#[trigger] out@[i])@ == orig[i] && is_unbounded_relation(orig[i]),
            forall|i: int| 0 <= i < l.len() ==> #[trigger] items_view(&l)[i] == orig[out.len() + i],
        decreases l.len(),
    {
        let ghost before = items_view(&l);
        let x = l.remove(0);
        assert(x@ == before[0]);
        assert forall|i: int| 0 <= i < l.len() implies #[trigger] items_view(&l)[i] == orig[out.len() + 1 + i] by {
            assert(items_view(&l)[i] == before[i + 1]);
        }
        match UnboundedRelation::from_value(x) {
            Ok(n) => out.push(n),
            Err(_) => {
                assert(!is_unbounded_relation(items_view(&list)[out.len() as int]));
                return None;
            },
        }
    }
    assert forall|i: int| 0 <= i < list.len() implies is_unbounded_relation(#[trigger] items_view(&list)[i]) by {
        assert(out@[i]@ == orig[i]);
    }
    Some(out)
}

/// The integers of a list that holds only integers.
fn ints_of(list: Vec<WireValue>) -> (r: Option<Vec<i64>>)
    ensures
        r is Some <==> forall|i: int| 0 <= i < list.len() ==> (#[trigger] items_view(&list)[i]) is Integer,
        r is Some ==> r->Some_0.len() == list.len() && forall|i: int|
            0 <= i < list.len() ==> items_view(&list)[i] == Val::Integer(#[trigger] r->Some_0@[i] as int),
{
    let mut out: Vec<i64> = Vec::new();
    let mut i: usize = 0;
    while i < list.len()
        invariant
            i <= list.len(),
            out.len() == i,
            forall|j: int| 0 <= j < i ==> items_view(&list)[j] == Val::Integer(#[trigger] out@[j] as int),
        decreases list.len() - i,
    {
        match &list[i] {
            WireValue::Integer(n) => out.push(*n),
            _ => {
                assert(!(items_view(&list)[i as int] is Integer));
                return None;
            },
        }
        i = i + 1;
    }
    assert forall|j: int| 0 <= j < list.len() implies (#[trigger] items_view(&list)[j]) is Integer by {
        assert(items_view(&list)[j] == Val::Integer(out@[j] as int));
    }
    Some(out)
}

/// Decoding the encoding of a node gives back a value of node shape with
/// the same identity, labels and properties.
pub proof fn lemma_node_round_trip(id: int, labels: Seq<Seq<char>>, props: Seq<(Seq<char>, Val)>)
    requires
        wf(node_val(id, labels, props)),
    ensures
        parse(enc(node_val(id, labels, props)), 0) == Ok::<(Val, nat), CodecError>(
            (node_val(id, labels, props), enc(node_val(id, labels, props)).len()),
        ),
        is_node(node_val(id, labels, props)),
{
    let v = node_val(id, labels, props);
    assert(enc(v).subrange(0, enc(v).len() as int) =~= enc(v));
    lemma_round_trip(v, enc(v), 0);
}

} // verus!
