use vstd::prelude::*;

verus! {

broadcast use vstd::std_specs::vec::group_vec_axioms;

/// A stored or transported payload: a tagged union over the wire-value kinds.
/// A floating-point payload is carried as its IEEE-754 bit pattern, so that
/// the library itself never computes on floats; callers that want an `f64`
/// convert to and from the bits at the boundary.
#[derive(Debug, Clone, PartialEq)]
pub enum Value {
    Empty,
    Str(String),
    Int(i64),
    Double(u64),
    Bool(bool),
    Bytes(Vec<u8>),
}

/// The mathematical model of a `Value`.
pub enum ValueV {
    Empty,
    Str(Seq<char>),
    Int(i64),
    Double(u64),
    Bool(bool),
    Bytes(Seq<u8>),
}

impl View for Value {
    type V = ValueV;

    open spec fn view(&self) -> ValueV {
        match self {
            Value::Empty => ValueV::Empty,
            Value::Str(s) => ValueV::Str(s@),
            Value::Int(n) => ValueV::Int(*n),
            Value::Double(bits) => ValueV::Double(*bits),
            Value::Bool(b) => ValueV::Bool(*b),
            Value::Bytes(b) => ValueV::Bytes(b@),
        }
    }
}

impl Default for Value {
    fn default() -> (r: Self)
        ensures
            r@ == ValueV::Empty,
    {
        Value::Empty
    }
}

impl From<&str> for Value {
    fn from(v: &str) -> (r: Self)
        ensures
            r@ == ValueV::Str(v@),
    {
        Value::Str(v.to_owned())
    }
}

impl vstd::std_specs::convert::FromSpecImpl<&str> for Value {
    open spec fn obeys_from_spec() -> bool {
        false
    }

    closed spec fn from_spec(v: &str) -> Self {
        vstd::pervasive::arbitrary()
    }
}

impl From<String> for Value {
    fn from(v: String) -> (r: Self)
        ensures
            r@ == ValueV::Str(v@),
    {
        Value::Str(v)
    }
}

impl vstd::std_specs::convert::FromSpecImpl<String> for Value {
    open spec fn obeys_from_spec() -> bool {
        true
    }

    open spec fn from_spec(v: String) -> Self {
        Value::Str(v)
    }
}

impl From<i64> for Value {
    fn from(v: i64) -> (r: Self)
        ensures
            r@ == ValueV::Int(v),
    {
        Value::Int(v)
    }
}

impl vstd::std_specs::convert::FromSpecImpl<i64> for Value {
    open spec fn obeys_from_spec() -> bool {
        true
    }

    open spec fn from_spec(v: i64) -> Self {
        Value::Int(v)
    }
}

impl From<bool> for Value {
    fn from(v: bool) -> (r: Self)
        ensures
            r@ == ValueV::Bool(v),
    {
        Value::Bool(v)
    }
}

impl vstd::std_specs::convert::FromSpecImpl<bool> for Value {
    open spec fn obeys_from_spec() -> bool {
        true
    }

    open spec fn from_spec(v: bool) -> Self {
        Value::Bool(v)
    }
}

impl From<&[u8]> for Value {
    fn from(v: &[u8]) -> (r: Self)
        ensures
            r@ == ValueV::Bytes(v@),
    {
        Value::Bytes(vstd::slice::slice_to_vec(v))
    }
}

impl vstd::std_specs::convert::FromSpecImpl<&[u8]> for Value {
    open spec fn obeys_from_spec() -> bool {
        false
    }

    closed spec fn from_spec(v: &[u8]) -> Self {
        vstd::pervasive::arbitrary()
    }
}

/// One key together with its value, as stored in a table and carried in a
/// `Hset` request or a `Hgetall` response. The value is optional on the wire;
/// a request whose pair has no value fails validation during dispatch.
#[derive(Debug, Clone, PartialEq)]
pub struct Kvpair {
    pub key: String,
    pub value: Option<Value>,
}

/// The mathematical model of a `Kvpair`.
pub struct KvpairV {
    pub key: Seq<char>,
    pub value: Option<ValueV>,
}

impl View for Kvpair {
    type V = KvpairV;

    open spec fn view(&self) -> KvpairV {
        KvpairV {
            key: self.key@,
            value: match self.value {
                Option::Some(v) => Option::Some(v@),
                Option::None => Option::None,
            },
        }
    }
}

impl Kvpair {
    pub fn new(key: &str, value: Value) -> (r: Self)
        ensures
            r@ == (KvpairV { key: key@, value: Option::Some(value@) }),
    {
        Kvpair { key: key.to_owned(), value: Option::Some(value) }
    }
}

/// A lookup of one key in one table.
#[derive(Debug, Clone, PartialEq)]
pub struct Hget {
    pub table: String,
    pub key: String,
}

/// A write of one pair into one table.
#[derive(Debug, Clone, PartialEq)]
pub struct Hset {
    pub table: String,
    pub pair: Option<Kvpair>,
}

/// A snapshot read of every pair in one table.
#[derive(Debug, Clone, PartialEq)]
pub struct Hgetall {
    pub table: String,
}

/// The command payload: exactly one variant is active per request.
#[derive(Debug, Clone, PartialEq)]
pub enum RequestData {
    Hget(Hget),
    Hgetall(Hgetall),
    Hset(Hset),
}

/// The mathematical model of a request's payload.
pub enum ReqV {
    Hget { table: Seq<char>, key: Seq<char> },
    Hgetall { table: Seq<char> },
    Hset { table: Seq<char>, pair: Option<KvpairV> },
}

impl View for RequestData {
    type V = ReqV;

    open spec fn view(&self) -> ReqV {
        match self {
            RequestData::Hget(h) => ReqV::Hget { table: h.table@, key: h.key@ },
            RequestData::Hgetall(h) => ReqV::Hgetall { table: h.table@ },
            RequestData::Hset(h) => ReqV::Hset {
                table: h.table@,
                pair: match h.pair {
                    Option::Some(p) => Option::Some(p@),
                    Option::None => Option::None,
                },
            },
        }
    }
}

/// One decoded client request. `request_data` is absent when a frame decodes
/// to an empty request; dispatch answers such a request with an error.
#[derive(Debug, Clone, PartialEq)]
pub struct CommandRequest {
    pub request_data: Option<RequestData>,
}

impl View for CommandRequest {
    type V = Option<ReqV>;

    open spec fn view(&self) -> Option<ReqV> {
        match self.request_data {
            Option::Some(d) => Option::Some(d@),
            Option::None => Option::None,
        }
    }
}

impl CommandRequest {
    pub fn new_hget(table: &str, key: &str) -> (r: Self)
        ensures
            r@ == Option::Some(ReqV::Hget { table: table@, key: key@ }),
    {
        CommandRequest {
            request_data: Option::Some(RequestData::Hget(Hget {
                table: table.to_owned(),
                key: key.to_owned(),
            })),
        }
    }

    pub fn new_hgetall(table: &str) -> (r: Self)
        ensures
            r@ == Option::Some(ReqV::Hgetall { table: table@ }),
    {
        CommandRequest {
            request_data: Option::Some(RequestData::Hgetall(Hgetall { table: table.to_owned() })),
        }
    }

    pub fn new_hset(table: &str, key: &str, value: Value) -> (r: Self)
        ensures
            r@ == Option::Some(ReqV::Hset {
                table: table@,
                pair: Option::Some(KvpairV { key: key@, value: Option::Some(value@) }),
            }),
    {
        CommandRequest {
            request_data: Option::Some(RequestData::Hset(Hset {
                table: table.to_owned(),
                pair: Option::Some(Kvpair::new(key, value)),
            })),
        }
    }
}

/// One reply to a request: an HTTP-style status, a human-readable message,
/// and either plain values (`Hget`/`Hset`) or pairs (`Hgetall`), never both.
#[derive(Debug, Clone, PartialEq)]
pub struct CommandResponse {
    pub status: u32,
    pub message: String,
    pub values: Vec<Value>,
    pub pairs: Vec<Kvpair>,
}

/// The mathematical model of a `CommandResponse`.
pub struct RespV {
    pub status: u32,
    pub message: Seq<char>,
    pub values: Seq<ValueV>,
    pub pairs: Seq<KvpairV>,
}

impl View for CommandResponse {
    type V = RespV;

    open spec fn view(&self) -> RespV {
        RespV {
            status: self.status,
            message: self.message@,
            values: self.values@.map_values(|v: Value| v@),
            pairs: self.pairs@.map_values(|p: Kvpair| p@),
        }
    }
}

impl CommandResponse {
    /// The successful reply carrying plain values: status 200, message "success".
    pub fn ok_with_values(values: Vec<Value>) -> (r: Self)
        ensures
            r@.status == 200u32,
            r@.message == "success"@,
            r@.values == values@.map_values(|v: Value| v@),
            r@.pairs == Seq::<KvpairV>::empty(),
    {
        let r = CommandResponse {
            status: 200,
            message: "success".to_owned(),
            values,
            pairs: Vec::new(),
        };
        proof {
            assert(r@.pairs =~= Seq::<KvpairV>::empty());
        }
        r
    }

    /// The successful reply carrying pairs: status 200, message "success".
    pub fn ok_with_pairs(pairs: Vec<Kvpair>) -> (r: Self)
        ensures
            r@.status == 200u32,
            r@.message == "success"@,
            r@.values == Seq::<ValueV>::empty(),
            r@.pairs == pairs@.map_values(|p: Kvpair| p@),
    {
        let r = CommandResponse {
            status: 200,
            message: "success".to_owned(),
            values: Vec::new(),
            pairs,
        };
        proof {
            assert(r@.values =~= Seq::<ValueV>::empty());
        }
        r
    }
}

impl From<Value> for CommandResponse {
    fn from(v: Value) -> (r: Self)
        ensures
            r@.status == 200u32,
            r@.message == "success"@,
            r@.values == seq![v@],
            r@.pairs == Seq::<KvpairV>::empty(),
    {
        let ghost gv = v@;
        let mut values: Vec<Value> = Vec::new();
        values.push(v);
        let r = CommandResponse::ok_with_values(values);
        proof {
            assert(r@.values =~= seq![gv]);
        }
        r
    }
}

impl vstd::std_specs::convert::FromSpecImpl<Value> for CommandResponse {
    open spec fn obeys_from_spec() -> bool {
        false
    }

    closed spec fn from_spec(v: Value) -> Self {
        vstd::pervasive::arbitrary()
    }
}

impl From<Vec<Value>> for CommandResponse {
    fn from(values: Vec<Value>) -> (r: Self)
        ensures
            r@.status == 200u32,
            r@.message == "success"@,
            r@.values == values@.map_values(|v: Value| v@),
            r@.pairs == Seq::<KvpairV>::empty(),
    {
        CommandResponse::ok_with_values(values)
    }
}

impl vstd::std_specs::convert::FromSpecImpl<Vec<Value>> for CommandResponse {
    open spec fn obeys_from_spec() -> bool {
        false
    }

    closed spec fn from_spec(v: Vec<Value>) -> Self {
        vstd::pervasive::arbitrary()
    }
}

impl From<Vec<Kvpair>> for CommandResponse {
    fn from(pairs: Vec<Kvpair>) -> (r: Self)
        ensures
            r@.status == 200u32,
            r@.message == "success"@,
            r@.values == Seq::<ValueV>::empty(),
            r@.pairs == pairs@.map_values(|p: Kvpair| p@),
    {
        CommandResponse::ok_with_pairs(pairs)
    }
}

impl vstd::std_specs::convert::FromSpecImpl<Vec<Kvpair>> for CommandResponse {
    open spec fn obeys_from_spec() -> bool {
        false
    }

    closed spec fn from_spec(v: Vec<Kvpair>) -> Self {
        vstd::pervasive::arbitrary()
    }
}

} // verus!
