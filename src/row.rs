use vstd::prelude::*;
use vstd::utf8::*;
use crate::codec::items_view;
use crate::types::{
    is_node, is_path, is_point_2d, is_point_3d, is_relation, valid_walk, walk_of, Node, Path, Point2D, Point3D,
    Relation, NODE_TAG, PATH_TAG, POINT_2D_TAG, POINT_3D_TAG, RELATION_TAG,
    UNBOUNDED_RELATION_TAG,
};
use crate::value::{Val, WireValue};

verus! {

/// Whether two strings hold the same characters.
pub fn str_eq(a: &str, b: &str) -> (r: bool)
    ensures
        r == (a@ == b@),
{
    let x = a.as_bytes();
    let y = b.as_bytes();
    proof {
        encode_utf8_decode_utf8(a@);
        encode_utf8_decode_utf8(b@);
    }
    if x.len() != y.len() {
        return false;
    }
    let mut i: usize = 0;
    while i < x.len()
        invariant
            x@.len() == y@.len(),
            x@ == encode_utf8(a@),
            y@ == encode_utf8(b@),
            i <= x@.len(),
            forall|k: int| 0 <= k < i ==> x@[k] == y@[k],
        decreases x.len() - i,
    {
        if x[i] != y[i] {
            return false;
        }
        i = i + 1;
    }
    assert(x@ =~= y@);
    true
}

/// A copy of a list of strings.
pub fn copy_strings(v: &Vec<String>) -> (r: Vec<String>)
    ensures
        strings_view(&r) == strings_view(v),
{
    let mut r: Vec<String> = Vec::new();
    let mut i: usize = 0;
    while i < v.len()
        invariant
            i <= v.len(),
            strings_view(&r) == strings_view(v).take(i as int),
        decreases v.len() - i,
    {
        let ghost prev = strings_view(&r);
        let s = v[i].as_str().to_owned();
        assert(s@ == v@[i as int]@);
        r.push(s);
        assert(strings_view(&r) =~= prev.push(v@[i as int]@));
        i = i + 1;
        assert(strings_view(&r) =~= strings_view(v).take(i as int));
    }
    assert(strings_view(v).take(i as int) =~= strings_view(v));
    r
}

pub open spec fn strings_view(v: &Vec<String>) -> Seq<Seq<char>> {
    Seq::new(v.len() as nat, |i: int| v[i]@)
}

/// Where `name` first stands in `names`.
pub fn position(names: &Vec<String>, name: &str) -> (r: Option<usize>)
    ensures
        match r {
            Some(i) => i < names.len() && names@[i as int]@ == name@ && forall|j: int| 0 <= j < i ==> names@[j]@ != name@,
            None => forall|j: int| 0 <= j < names.len() ==> names@[j]@ != name@,
        },
{
    let mut i: usize = 0;
    while i < names.len()
        invariant
            i <= names.len(),
            forall|j: int| 0 <= j < i ==> names@[j]@ != name@,
        decreases names.len() - i,
    {
        if str_eq(names[i].as_str(), name) {
            return Some(i);
        }
        i = i + 1;
    }
    None
}

/// The kind of a wire value, named in type errors.
#[derive(Debug, Clone, Copy, PartialEq, Eq, Structural)]
pub enum Kind {
    Null,
    Bool,
    Integer,
    Float,
    Bytes,
    String,
    List,
    Dict,
    Node,
    Relation,
    UnboundedRelation,
    Path,
    Point2D,
    Point3D,
    Struct,
}

/// The kind that a structure's tag announces.
pub open spec fn struct_kind(t: u8) -> Kind {
    if t == NODE_TAG {
        Kind::Node
    } else if t == RELATION_TAG {
        Kind::Relation
    } else if t == UNBOUNDED_RELATION_TAG {
        Kind::UnboundedRelation
    } else if t == PATH_TAG {
        Kind::Path
    } else if t == POINT_2D_TAG {
        Kind::Point2D
    } else if t == POINT_3D_TAG {
        Kind::Point3D
    } else {
        Kind::Struct
    }
}

fn kind_of_tag(t: u8) -> (r: Kind)
    ensures
        r == struct_kind(t),
{
    if t == NODE_TAG {
        Kind::Node
    } else if t == RELATION_TAG {
        Kind::Relation
    } else if t == UNBOUNDED_RELATION_TAG {
        Kind::UnboundedRelation
    } else if t == PATH_TAG {
        Kind::Path
    } else if t == POINT_2D_TAG {
        Kind::Point2D
    } else if t == POINT_3D_TAG {
        Kind::Point3D
    } else {
        Kind::Struct
    }
}

pub open spec fn kind_of(v: Val) -> Kind {
    match v {
        Val::Null => Kind::Null,
        Val::Bool(_) => Kind::Bool,
        Val::Integer(_) => Kind::Integer,
        Val::Float(_) => Kind::Float,
        Val::Bytes(_) => Kind::Bytes,
        Val::Str(_) => Kind::String,
        Val::List(_) => Kind::List,
        Val::Dict(_) => Kind::Dict,
        Val::Struct(t, _) => struct_kind(t),
    }
}

pub fn kind(v: &WireValue) -> (r: Kind)
    ensures
        r == kind_of(v@),
{
    match v {
        WireValue::Null => Kind::Null,
        WireValue::Bool(_) => Kind::Bool,
        WireValue::Integer(_) => Kind::Integer,
        WireValue::Float(_) => Kind::Float,
        WireValue::Bytes(_) => Kind::Bytes,
        WireValue::String(_) => Kind::String,
        WireValue::List(_) => Kind::List,
        WireValue::Dict(_) => Kind::Dict,
        WireValue::Struct(t, _) => kind_of_tag(*t),
    }
}

/// Why a field could not be read as the type asked for.
#[derive(Debug, Clone, Copy, PartialEq, Eq, Structural)]
pub enum TypeError {
    /// No field has that name.
    Missing,
    /// The field holds a value of another kind.
    Mismatch { expected: Kind, actual: Kind },
}

/// One record of a result: field names and the values under them.
pub struct Row {
    names: Vec<String>,
    values: Vec<WireValue>,
}

impl Row {
    pub closed spec fn names(&self) -> Seq<Seq<char>> {
        strings_view(&self.names)
    }

    pub closed spec fn values(&self) -> Seq<Val> {
        items_view(&self.values)
    }

    pub closed spec fn wf(&self) -> bool {
        self.names.len() == self.values.len()
    }

    /// Whether `i` is the first field named `name`.
    pub open spec fn is_first(&self, name: Seq<char>, i: int) -> bool {
        &&& 0 <= i < self.names().len()
        &&& self.names()[i] == name
        &&& forall|j: int| 0 <= j < i ==> self.names()[j] != name
    }

    /// A row of `values` under `names`, when there are as many of each.
    pub fn new(names: Vec<String>, values: Vec<WireValue>) -> (r: Option<Row>)
        ensures
            r is Some <==> names.len() == values.len(),
            r is Some ==> r->Some_0.wf() && r->Some_0.names() == strings_view(&names)
                && r->Some_0.values() == items_view(&values),
    {
        if names.len() == values.len() {
            Some(Row { names, values })
        } else {
            None
        }
    }

    pub fn len(&self) -> (r: usize)
        requires
            self.wf(),
        ensures
            r == self.names().len(),
            r == self.values().len(),
    {
        self.names.len()
    }

    /// The value of the first field named `name`.
    pub fn get(&self, name: &str) -> (r: Option<&WireValue>)
        requires
            self.wf(),
        ensures
            match r {
                Some(v) => exists|i: int| self.is_first(name@, i) && v@ == self.values()[i],
                None => forall|j: int| 0 <= j < self.names().len() ==> self.names()[j] != name@,
            },
    {
        match position(&self.names, name) {
            Some(i) => {
                assert(self.names()[i as int] == name@);
                assert(self.is_first(name@, i as int));
                assert(self.values@[i as int]@ == self.values()[i as int]);
                Some(&self.values[i])
            },
            None => None,
        }
    }

    /// The field `name` as an integer.
    pub fn get_int(&self, name: &str) -> (r: Result<i64, TypeError>)
        requires
            self.wf(),
        ensures
            match r {
                Ok(n) => exists|i: int| self.is_first(name@, i) && self.values()[i] == Val::Integer(n as int),
                Err(TypeError::Missing) => forall|j: int| 0 <= j < self.names().len() ==> self.names()[j] != name@,
                Err(TypeError::Mismatch { expected, actual }) => expected == Kind::Integer && exists|i: int|
                    self.is_first(name@, i) && actual == kind_of(self.values()[i]) && !(self.values()[i] is Integer),
            },
    {
        match self.get(name) {
            None => Err(TypeError::Missing),
            Some(WireValue::Integer(n)) => Ok(*n),
            Some(v) => Err(TypeError::Mismatch { expected: Kind::Integer, actual: kind(v) }),
        }
    }

    /// The field `name` as a boolean.
    pub fn get_bool(&self, name: &str) -> (r: Result<bool, TypeError>)
        requires
            self.wf(),
        ensures
            match r {
                Ok(b) => exists|i: int| self.is_first(name@, i) && self.values()[i] == Val::Bool(b),
                Err(TypeError::Missing) => forall|j: int| 0 <= j < self.names().len() ==> self.names()[j] != name@,
                Err(TypeError::Mismatch { expected, actual }) => expected == Kind::Bool && exists|i: int|
                    self.is_first(name@, i) && actual == kind_of(self.values()[i]) && !(self.values()[i] is Bool),
            },
    {
        match self.get(name) {
            None => Err(TypeError::Missing),
            Some(WireValue::Bool(b)) => Ok(*b),
            Some(v) => Err(TypeError::Mismatch { expected: Kind::Bool, actual: kind(v) }),
        }
    }

    /// The field `name` as a string.
    pub fn get_str(&self, name: &str) -> (r: Result<&String, TypeError>)
        requires
            self.wf(),
        ensures
            match r {
                Ok(s) => exists|i: int| self.is_first(name@, i) && self.values()[i] == Val::Str(s@),
                Err(TypeError::Missing) => forall|j: int| 0 <= j < self.names().len() ==> self.names()[j] != name@,
                Err(TypeError::Mismatch { expected, actual }) => expected == Kind::String && exists|i: int|
                    self.is_first(name@, i) && actual == kind_of(self.values()[i]) && !(self.values()[i] is Str),
            },
    {
        match self.get(name) {
            None => Err(TypeError::Missing),
            Some(WireValue::String(s)) => Ok(s),
            Some(v) => Err(TypeError::Mismatch { expected: Kind::String, actual: kind(v) }),
        }
    }

    /// The field `name` as a point in the plane.
    pub fn get_point_2d(&self, name: &str) -> (r: Result<Point2D, TypeError>)
        requires
            self.wf(),
        ensures
            match r {
                Ok(p) => exists|i: int| self.is_first(name@, i) && self.values()[i] == p@,
                Err(TypeError::Missing) => forall|j: int| 0 <= j < self.names().len() ==> self.names()[j] != name@,
                Err(TypeError::Mismatch { expected, actual }) => expected == Kind::Point2D && exists|i: int|
                    self.is_first(name@, i) && actual == kind_of(self.values()[i]) && !is_point_2d(self.values()[i]),
            },
    {
        match self.get(name) {
            None => Err(TypeError::Missing),
            Some(v) => match Point2D::from_value(v) {
                Ok(p) => Ok(p),
                Err(_) => Err(TypeError::Mismatch { expected: Kind::Point2D, actual: kind(v) }),
            },
        }
    }

    /// Takes the row apart for its field `name` as a node.
    pub fn into_node(self, name: &str) -> (r: Result<Node, TypeError>)
        requires
            self.wf(),
        ensures
            match r {
                Ok(n) => exists|i: int| self.is_first(name@, i) && self.values()[i] == n@,
                Err(TypeError::Missing) => forall|j: int| 0 <= j < self.names().len() ==> self.names()[j] != name@,
                Err(TypeError::Mismatch { expected, actual }) => expected == Kind::Node && exists|i: int|
                    self.is_first(name@, i) && actual == kind_of(self.values()[i]) && !is_node(self.values()[i]),
            },
    {
        let ghost vals = self.values();
        match position(&self.names, name) {
            None => Err(TypeError::Missing),
            Some(i) => {
                assert(self.is_first(name@, i as int));
                let mut values = self.values;
                let v = values.remove(i);
                assert(v@ == vals[i as int]);
                let k = kind(&v);
                match Node::from_value(v) {
                    Ok(n) => Ok(n),
                    Err(_) => Err(TypeError::Mismatch { expected: Kind::Node, actual: k }),
                }
            },
        }
    }

    /// Takes the row apart for its field `name` as a relationship.
    pub fn into_relation(self, name: &str) -> (r: Result<Relation, TypeError>)
        requires
            self.wf(),
        ensures
            match r {
                Ok(n) => exists|i: int| self.is_first(name@, i) && self.values()[i] == n@,
                Err(TypeError::Missing) => forall|j: int| 0 <= j < self.names().len() ==> self.names()[j] != name@,
                Err(TypeError::Mismatch { expected, actual }) => expected == Kind::Relation && exists|i: int|
                    self.is_first(name@, i) && actual == kind_of(self.values()[i]) && !is_relation(self.values()[i]),
            },
    {
        let ghost vals = self.values();
        match position(&self.names, name) {
            None => Err(TypeError::Missing),
            Some(i) => {
                assert(self.is_first(name@, i as int));
                let mut values = self.values;
                let v = values.remove(i);
                assert(v@ == vals[i as int]);
                let k = kind(&v);
                match Relation::from_value(v) {
                    Ok(n) => Ok(n),
                    Err(_) => Err(TypeError::Mismatch { expected: Kind::Relation, actual: k }),
                }
            },
        }
    }

    /// Takes the row apart for its field `name` as a path.
    pub fn into_path(self, name: &str) -> (r: Result<Path, TypeError>)
        requires
            self.wf(),
        ensures
            match r {
                Ok(n) => exists|i: int| self.is_first(name@, i) && self.values()[i]->Struct_1[0]->List_0 == n.nodes_view()
                    && self.values()[i]->Struct_1[1]->List_0 == n.rels_view() && n.indices@ == walk_of(self.values()[i])
                    && valid_walk(n.nodes@.len(), n.rels@.len(), n.indices@),
                Err(TypeError::Missing) => forall|j: int| 0 <= j < self.names().len() ==> self.names()[j] != name@,
                Err(TypeError::Mismatch { expected, actual }) => expected == Kind::Path && exists|i: int|
                    self.is_first(name@, i) && actual == kind_of(self.values()[i]) && !is_path(self.values()[i]),
            },
    {
        let ghost vals = self.values();
        match position(&self.names, name) {
            None => Err(TypeError::Missing),
            Some(i) => {
                assert(self.is_first(name@, i as int));
                let mut values = self.values;
                let v = values.remove(i);
                assert(v@ == vals[i as int]);
                let k = kind(&v);
                match Path::from_value(v) {
                    Ok(n) => Ok(n),
                    Err(_) => Err(TypeError::Mismatch { expected: Kind::Path, actual: k }),
                }
            },
        }
    }

    /// The field `name` as a point in space.
    pub fn get_point_3d(&self, name: &str) -> (r: Result<Point3D, TypeError>)
        requires
            self.wf(),
        ensures
            match r {
                Ok(p) => exists|i: int| self.is_first(name@, i) && self.values()[i] == p@,
                Err(TypeError::Missing) => forall|j: int| 0 <= j < self.names().len() ==> self.names()[j] != name@,
                Err(TypeError::Mismatch { expected, actual }) => expected == Kind::Point3D && exists|i: int|
                    self.is_first(name@, i) && actual == kind_of(self.values()[i]) && !is_point_3d(self.values()[i]),
            },
    {
        match self.get(name) {
            None => Err(TypeError::Missing),
            Some(v) => match Point3D::from_value(v) {
                Ok(p) => Ok(p),
                Err(_) => Err(TypeError::Mismatch { expected: Kind::Point3D, actual: kind(v) }),
            },
        }
    }

    /// Takes the row apart into its values.
    pub fn into_values(self) -> (r: Vec<WireValue>)
        ensures
            items_view(&r) == self.values(),
    {
        self.values
    }
}

} // verus!
