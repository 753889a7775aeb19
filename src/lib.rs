//! A client driver for a graph database: the binary value codec, message
//! framing, handshake, connection pool bookkeeping, transaction state machine,
//! pull cursor and typed access to results, each verified against its
//! contract. Sockets and waiting are the caller's part.
use vstd::prelude::*;
use crate::codec::entries_view;
use crate::connection::HandshakeError;
use crate::messages::{meta_get, ProtocolError, Request};
use crate::pool::{ConnectionPool, Lease, Returned};
use crate::row::TypeError;
use crate::txn::TxnError;
use crate::value::{Val, WireValue};

pub mod codec;
pub mod connection;
pub mod framing;
pub mod messages;
pub mod pool;
pub mod row;
pub mod stream;
pub mod txn;
pub mod types;
pub mod value;

verus! {

/// What a fallible operation of the driver reports.
#[derive(Debug)]
pub enum Error {
    /// The link failed.
    ConnectionError,
    /// The handshake settled on no version.
    Handshake(HandshakeError),
    /// The server's bytes are not a well-formed message.
    ProtocolError(ProtocolError),
    /// The server refused the credentials.
    AuthError,
    /// The server failed a query, with its code and message.
    QueryError { code: String, message: String },
    /// The transaction refused the operation.
    TransactionError(TxnError),
    /// A field is missing or of another type than the one asked for.
    TypeMismatch(TypeError),
    /// No connection became free in time.
    PoolExhausted,
    /// The configuration lacks the address, the user or the password.
    InvalidConfig,
    /// The server sent a message that does not fit the exchange.
    UnexpectedMessage,
}

/// Whether `i` is the first entry of `meta` under `key`.
pub open spec fn is_first(meta: Seq<(Seq<char>, Val)>, key: Seq<char>, i: int) -> bool {
    0 <= i < meta.len() && meta[i].0 == key && forall|j: int| 0 <= j < i ==> meta[j].0 != key
}

/// The string under the first entry named `key`, or the empty string when
/// there is none or it holds no string.
pub open spec fn meta_text(meta: Seq<(Seq<char>, Val)>, key: Seq<char>) -> Seq<char> {
    if exists|i: int| is_first(meta, key, i) {
        let i = choose|i: int| is_first(meta, key, i);
        match meta[i].1 {
            Val::Str(s) => s,
            _ => Seq::empty(),
        }
    } else {
        Seq::empty()
    }
}

/// The string under `key` in `meta`, or the empty string.
pub fn meta_str(meta: &Vec<(String, WireValue)>, key: &str) -> (r: String)
    ensures
        r@ == meta_text(entries_view(meta), key@),
{
    let ghost m = entries_view(meta);
    match meta_get(meta, key) {
        Some(v) => {
            proof {
                let i = choose|i: int|
                    0 <= i < meta.len() && meta@[i].0@ == key@ && v@ == meta@[i].1@ && forall|j: int|
                        0 <= j < i ==> meta@[j].0@ != key@;
                assert(is_first(m, key@, i));
                let c = choose|c: int| is_first(m, key@, c);
                if c < i {
                    assert(m[c].0 == meta@[c].0@);
                } else if c > i {
                    assert(m[i].0 == key@);
                }
                assert(c == i);
            }
            match v {
                WireValue::String(s) => s.as_str().to_owned(),
                _ => String::new(),
            }
        },
        None => {
            proof {
                assert forall|i: int| !is_first(m, key@, i) by {
                    if 0 <= i < m.len() {
                        assert(m[i].0 == meta@[i].0@);
                    }
                }
            }
            String::new()
        },
    }
}

/// The error that a FAILURE's metadata describes: its "code" and "message".
pub fn query_error(meta: &Vec<(String, WireValue)>) -> (r: Error)
    ensures
        match r {
            Error::QueryError { code, message } => code@ == meta_text(entries_view(meta), "code"@)
                && message@ == meta_text(entries_view(meta), "message"@),
            _ => false,
        },
{
    let code = meta_str(meta, "code");
    let message = meta_str(meta, "message");
    Error::QueryError { code, message }
}

/// A query text and its parameters.
pub struct Query {
    text: String,
    params: Vec<(String, WireValue)>,
}

impl Query {
    pub closed spec fn text(&self) -> Seq<char> {
        self.text@
    }

    pub closed spec fn params(&self) -> Seq<(Seq<char>, Val)> {
        entries_view(&self.params)
    }

    /// A query with no parameters.
    pub fn new(text: String) -> (r: Query)
        ensures
            r.text() == text@,
            r.params().len() == 0,
    {
        let r = Query { text, params: Vec::new() };
        assert(r.params() =~= Seq::<(Seq<char>, Val)>::empty());
        r
    }

    /// The query with one more parameter.
    pub fn param(self, key: &str, value: WireValue) -> (r: Query)
        ensures
            r.text() == self.text(),
            r.params() == self.params().push((key@, value@)),
    {
        let ghost before = self.params();
        let mut params = self.params;
        params.push((key.to_owned(), value));
        let r = Query { text: self.text, params };
        assert(r.params() =~= before.push((key@, value@)));
        r
    }

    /// The RUN request that submits the query.
    pub fn into_request(self) -> (r: Request)
        ensures
            r@ == Val::Struct(
                crate::messages::RUN,
                seq![Val::Str(self.text()), Val::Dict(self.params()), Val::Dict(Seq::empty())],
            ),
    {
        let r = Request::Run { query: self.text, params: self.params, extra: Vec::new() };
        assert(r@->Struct_1[2]->Dict_0 =~= Seq::<(Seq<char>, Val)>::empty());
        assert(r@->Struct_1 =~= seq![Val::Str(self.text()), Val::Dict(self.params()), Val::Dict(Seq::empty())]);
        r
    }
}

/// A query with the text `q` and no parameters.
pub fn query(q: &str) -> (r: Query)
    ensures
        r.text() == q@,
        r.params().len() == 0,
{
    Query::new(q.to_owned())
}

/// Where and as whom to connect, and how much to fetch at a time.
pub struct Config {
    pub uri: String,
    pub user: String,
    pub password: String,
    pub fetch_size: i64,
    pub max_connections: usize,
}

/// Collects the settings of a `Config`.
pub struct ConfigBuilder {
    pub uri: Option<String>,
    pub user: Option<String>,
    pub password: Option<String>,
    pub fetch_size: i64,
    pub max_connections: usize,
}

/// The records asked for by each PULL, unless set otherwise.
pub const DEFAULT_FETCH_SIZE: i64 = 200;

/// The connections a pool may open, unless set otherwise.
pub const DEFAULT_MAX_CONNECTIONS: usize = 16;

/// A builder with nothing set.
pub fn config() -> (r: ConfigBuilder)
    ensures
        r.uri is None && r.user is None && r.password is None,
        r.fetch_size == DEFAULT_FETCH_SIZE,
        r.max_connections == DEFAULT_MAX_CONNECTIONS,
{
    ConfigBuilder {
        uri: None,
        user: None,
        password: None,
        fetch_size: DEFAULT_FETCH_SIZE,
        max_connections: DEFAULT_MAX_CONNECTIONS,
    }
}

impl ConfigBuilder {
    pub fn uri(self, uri: &str) -> (r: ConfigBuilder)
        ensures
            r.uri is Some && r.uri->Some_0@ == uri@,
            r.user == self.user && r.password == self.password,
            r.fetch_size == self.fetch_size && r.max_connections == self.max_connections,
    {
        ConfigBuilder { uri: Some(uri.to_owned()), ..self }
    }

    pub fn user(self, user: &str) -> (r: ConfigBuilder)
        ensures
            r.user is Some && r.user->Some_0@ == user@,
            r.uri == self.uri && r.password == self.password,
            r.fetch_size == self.fetch_size && r.max_connections == self.max_connections,
    {
        ConfigBuilder { user: Some(user.to_owned()), ..self }
    }

    pub fn password(self, password: &str) -> (r: ConfigBuilder)
        ensures
            r.password is Some && r.password->Some_0@ == password@,
            r.uri == self.uri && r.user == self.user,
            r.fetch_size == self.fetch_size && r.max_connections == self.max_connections,
    {
        ConfigBuilder { password: Some(password.to_owned()), ..self }
    }

    pub fn fetch_size(self, fetch_size: i64) -> (r: ConfigBuilder)
        ensures
            r.fetch_size == fetch_size,
            r.uri == self.uri && r.user == self.user && r.password == self.password,
            r.max_connections == self.max_connections,
    {
        ConfigBuilder { fetch_size, ..self }
    }

    pub fn max_connections(self, max_connections: usize) -> (r: ConfigBuilder)
        ensures
            r.max_connections == max_connections,
            r.uri == self.uri && r.user == self.user && r.password == self.password,
            r.fetch_size == self.fetch_size,
    {
        ConfigBuilder { max_connections, ..self }
    }

    /// The configuration, once the address, the user and the password are set.
    pub fn build(self) -> (r: Result<Config, Error>)
        ensures
            r is Ok <==> self.uri is Some && self.user is Some && self.password is Some,
            r is Ok ==> {
                let c = r->Ok_0;
                &&& Some(c.uri) == self.uri
                &&& Some(c.user) == self.user
                &&& Some(c.password) == self.password
                &&& c.fetch_size == self.fetch_size
                &&& c.max_connections == self.max_connections
            },
            r is Err ==> r->Err_0 is InvalidConfig,
    {
        match (self.uri, self.user, self.password) {
            (Some(uri), Some(user), Some(password)) => Ok(
                Config {
                    uri,
                    user,
                    password,
                    fetch_size: self.fetch_size,
                    max_connections: self.max_connections,
                },
            ),
            _ => Err(Error::InvalidConfig),
        }
    }
}

impl Config {
    /// The HELLO that introduces this client with basic credentials.
    pub fn hello(&self) -> (r: Request)
        ensures
            r@ == Val::Struct(
                crate::messages::HELLO,
                seq![
                    Val::Dict(
                        seq![
                            ("user_agent"@, Val::Str("neo4rs"@)),
                            ("scheme"@, Val::Str("basic"@)),
                            ("principal"@, Val::Str(self.user@)),
                            ("credentials"@, Val::Str(self.password@)),
                        ],
                    ),
                ],
            ),
    {
        let mut extra: Vec<(String, WireValue)> = Vec::new();
        extra.push(("user_agent".to_owned(), WireValue::String("neo4rs".to_owned())));
        extra.push(("scheme".to_owned(), WireValue::String("basic".to_owned())));
        extra.push(("principal".to_owned(), WireValue::String(self.user.as_str().to_owned())));
        extra.push(("credentials".to_owned(), WireValue::String(self.password.as_str().to_owned())));
        let r = Request::Hello { extra };
        assert(r@->Struct_1[0]->Dict_0 =~= seq![
            ("user_agent"@, Val::Str("neo4rs"@)),
            ("scheme"@, Val::Str("basic"@)),
            ("principal"@, Val::Str(self.user@)),
            ("credentials"@, Val::Str(self.password@)),
        ]);
        assert(r@->Struct_1 =~= seq![
            Val::Dict(
                seq![
                    ("user_agent"@, Val::Str("neo4rs"@)),
                    ("scheme"@, Val::Str("basic"@)),
                    ("principal"@, Val::Str(self.user@)),
                    ("credentials"@, Val::Str(self.password@)),
                ],
            ),
        ]);
        r
    }
}

/// A driver instance: its configuration and its pool's bookkeeping.
pub struct Graph {
    config: Config,
    pool: ConnectionPool,
}

impl Graph {
    pub closed spec fn pool(&self) -> ConnectionPool {
        self.pool
    }

    /// The configuration the driver was made with.
    pub closed spec fn config_spec(&self) -> Config {
        self.config
    }

    pub open spec fn max_connections(&self) -> nat {
        self.config_spec().max_connections as nat
    }

    pub open spec fn wf(&self) -> bool {
        self.pool().wf() && self.pool().capacity() == self.max_connections()
    }

    /// A driver with an empty pool sized by the configuration; it opens no
    /// connection yet.
    pub fn new(config: Config) -> (r: Graph)
        ensures
            r.wf(),
            r.config_spec() == config,
            r.pool().idle().len() == 0,
            r.pool().in_use().len() == 0,
            r.pool().retired().is_empty(),
    {
        let pool = ConnectionPool::new(config.max_connections);
        Graph { config, pool }
    }

    pub fn config(&self) -> (r: &Config)
        ensures
            *r == self.config_spec(),
    {
        &self.config
    }

    /// Decides how a caller gets a connection: the most recently pooled idle
    /// one if any; else a new one while below capacity; else it waits.
    pub fn acquire(&mut self) -> (r: Lease)
        requires
            old(self).wf(),
        ensures
            final(self).wf(),
            final(self).config_spec() == old(self).config_spec(),
            final(self).pool().open_count() <= final(self).max_connections(),
            final(self).pool().retired() == old(self).pool().retired(),
            old(self).pool().idle().len() > 0 ==> {
                let id = old(self).pool().idle().last();
                &&& r == Lease::Reuse(id)
                &&& final(self).pool().idle() == old(self).pool().idle().drop_last()
                &&& final(self).pool().in_use() == old(self).pool().in_use().push(id)
                &&& final(self).pool().next_id() == old(self).pool().next_id()
            },
            old(self).pool().idle().len() == 0 && old(self).pool().open_count() < old(self).max_connections()
                && old(self).pool().next_id() < u64::MAX ==> {
                &&& r == Lease::Create(old(self).pool().next_id())
                &&& final(self).pool().idle() == old(self).pool().idle()
                &&& final(self).pool().in_use() == old(self).pool().in_use().push(old(self).pool().next_id())
                &&& final(self).pool().next_id() == old(self).pool().next_id() + 1
            },
            r is Wait <==> old(self).pool().idle().len() == 0 && (old(self).pool().open_count()
                >= old(self).max_connections() || old(self).pool().next_id() == u64::MAX),
            r is Wait ==> *final(self) == *old(self),
            forall|id: u64|
                (r == Lease::Reuse(id) || r == Lease::Create(id)) ==> !final(self).pool().retired().contains(id)
                    && !old(self).pool().in_use().contains(id),
    {
        let r = self.pool.acquire();
        proof {
            self.pool.lemma_bounded();
        }
        r
    }

    /// Takes back a leased connection: a ready one joins the idle set, any
    /// other is retired and must be closed.
    pub fn release(&mut self, id: u64, ready: bool) -> (r: Returned)
        requires
            old(self).wf(),
            old(self).pool().in_use().contains(id),
        ensures
            final(self).wf(),
            final(self).config_spec() == old(self).config_spec(),
            final(self).pool().next_id() == old(self).pool().next_id(),
            final(self).pool().in_use().len() == old(self).pool().in_use().len() - 1,
            final(self).pool().in_use().to_set() == old(self).pool().in_use().to_set().remove(id),
            ready ==> r == Returned::Pooled && final(self).pool().idle() == old(self).pool().idle().push(id)
                && final(self).pool().retired() == old(self).pool().retired(),
            !ready ==> r == Returned::Closed && final(self).pool().idle() == old(self).pool().idle()
                && final(self).pool().retired() == old(self).pool().retired().insert(id),
    {
        self.pool.release(id, ready)
    }

    /// Empties the idle set on shutdown; gives the ids whose sockets to close.
    pub fn shutdown(&mut self) -> (r: Vec<u64>)
        requires
            old(self).wf(),
        ensures
            final(self).wf(),
            final(self).config_spec() == old(self).config_spec(),
            r@ == old(self).pool().idle(),
            final(self).pool().idle().len() == 0,
            final(self).pool().in_use() == old(self).pool().in_use(),
    {
        self.pool.drain()
    }
}

} // verus!
