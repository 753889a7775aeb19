use vstd::prelude::*;

verus! {

/// A value as it travels over the wire.
///
/// Floats are carried as their IEEE-754 bit pattern. A map is a list of
/// key/value entries; a structure is a one-byte tag and its fields.
pub enum WireValue {
    Null,
    Bool(bool),
    Integer(i64),
    Float(u64),
    Bytes(Vec<u8>),
    String(String),
    List(Vec<WireValue>),
    Dict(Vec<(String, WireValue)>),
    Struct(u8, Vec<WireValue>),
}

/// The mathematical model of a `WireValue`.
pub enum Val {
    Null,
    Bool(bool),
    Integer(int),
    Float(u64),
    Bytes(Seq<u8>),
    Str(Seq<char>),
    List(Seq<Val>),
    Dict(Seq<(Seq<char>, Val)>),
    Struct(u8, Seq<Val>),
}

impl WireValue {
    pub open spec fn view(&self) -> Val
        decreases self,
    {
        match self {
            WireValue::Null => Val::Null,
            WireValue::Bool(b) => Val::Bool(*b),
            WireValue::Integer(n) => Val::Integer(*n as int),
            WireValue::Float(f) => Val::Float(*f),
            WireValue::Bytes(b) => Val::Bytes(b@),
            WireValue::String(s) => Val::Str(s@),
            WireValue::List(l) => Val::List(
                Seq::new(
                    l.len() as nat,
                    |i: int|
                        if 0 <= i < l.len() {
                            l[i].view()
                        } else {
                            Val::Null
                        },
                ),
            ),
            WireValue::Dict(m) => Val::Dict(
                Seq::new(
                    m.len() as nat,
                    |i: int|
                        if 0 <= i < m.len() {
                            (m[i].0@, m[i].1.view())
                        } else {
                            (Seq::empty(), Val::Null)
                        },
                ),
            ),
            WireValue::Struct(t, l) => Val::Struct(
                *t,
                Seq::new(
                    l.len() as nat,
                    |i: int|
                        if 0 <= i < l.len() {
                            l[i].view()
                        } else {
                            Val::Null
                        },
                ),
            ),
        }
    }
}

} // verus!
