use vstd::prelude::*;
use vstd::string::StringExecFns;
use crate::error::{KvError, describe_spec};
use crate::value::{Value, ValueV, KvpairV, CommandRequest, CommandResponse, RequestData,
    ReqV, RespV};
use crate::storage::Storage;

verus! {

broadcast use vstd::std_specs::vec::group_vec_axioms;

/// The successful reply carrying the given values.
pub open spec fn ok_values_resp(vs: Seq<ValueV>) -> RespV {
    RespV { status: 200u32, message: "success"@, values: vs, pairs: Seq::<KvpairV>::empty() }
}

/// The reply for a key that holds nothing.
pub open spec fn notfound_resp() -> RespV {
    RespV {
        status: 404u32,
        message: "not found"@,
        values: Seq::<ValueV>::empty(),
        pairs: Seq::<KvpairV>::empty(),
    }
}

/// The reply for an internal, storage or validation failure.
pub open spec fn err_resp(msg: Seq<char>) -> RespV {
    RespV {
        status: 500u32,
        message: msg,
        values: Seq::<ValueV>::empty(),
        pairs: Seq::<KvpairV>::empty(),
    }
}

/// A snapshot reply whose pairs are exactly the keys a table holds, each
/// once, with its value; the order is the backend's.
pub open spec fn snapshot_resp<S: Storage>(m: S, t: Seq<char>, resp: RespV) -> bool {
    &&& resp.status == 200u32
    &&& resp.message == "success"@
    &&& resp.values == Seq::<ValueV>::empty()
    &&& forall|a: int|
        0 <= a < resp.pairs.len() ==> m.st_lookup(t, #[trigger] resp.pairs[a].key)
            == resp.pairs[a].value
    &&& forall|a: int| 0 <= a < resp.pairs.len() ==> (#[trigger] resp.pairs[a].value) is Some
    &&& forall|k: Seq<char>|
        (#[trigger] m.st_lookup(t, k)) is Some ==> exists|a: int|
            0 <= a < resp.pairs.len() && resp.pairs[a].key == k
    &&& forall|a: int, b: int|
        0 <= a < b < resp.pairs.len() ==> (#[trigger] resp.pairs[a].key) != (
        #[trigger] resp.pairs[b].key)
}

/// Every lookup unchanged between two storage states.
pub open spec fn storage_unchanged<S: Storage>(m0: S, m1: S) -> bool {
    forall|t: Seq<char>, k: Seq<char>| #[trigger] m1.st_lookup(t, k) == m0.st_lookup(t, k)
}

/// Lookups after a write: the written key holds the value, the rest stand.
pub open spec fn storage_written<S: Storage>(m0: S, m1: S, t: Seq<char>, k: Seq<char>, v: ValueV) -> bool {
    forall|t2: Seq<char>, k2: Seq<char>|
        #[trigger] m1.st_lookup(t2, k2) == (if t2 == t && k2 == k {
            Option::Some(v)
        } else {
            m0.st_lookup(t2, k2)
        })
}

/// What dispatching one command does: how the reply reads and how the
/// storage state moves, for every command kind.
pub open spec fn dispatch_rel<S: Storage>(cmd: Option<ReqV>, m0: S, m1: S, resp: RespV) -> bool {
    match cmd {
        Option::None => storage_unchanged(m0, m1) && resp == err_resp(
            "Internal error: Not implemented"@,
        ),
        Option::Some(ReqV::Hget { table, key }) => {
            &&& storage_unchanged(m0, m1)
            &&& resp == (match m0.st_lookup(table, key) {
                Option::Some(v) => ok_values_resp(seq![v]),
                Option::None => notfound_resp(),
            })
        },
        Option::Some(ReqV::Hgetall { table }) => storage_unchanged(m0, m1) && snapshot_resp(
            m0,
            table,
            resp,
        ),
        Option::Some(ReqV::Hset { table, pair }) => {
            match pair {
                Option::None => storage_unchanged(m0, m1) && resp == err_resp(
                    "Internal error: pair is required"@,
                ),
                Option::Some(p) => {
                    match p.value {
                        Option::None => storage_unchanged(m0, m1) && resp == err_resp(
                            "Internal error: value is required"@,
                        ),
                        Option::Some(v) => {
                            &&& storage_written(m0, m1, table, p.key, v)
                            &&& resp == (match m0.st_lookup(table, p.key) {
                                Option::Some(prev) => ok_values_resp(seq![prev]),
                                Option::None => ok_values_resp(seq![ValueV::Empty]),
                            })
                        },
                    }
                },
            }
        },
    }
}

/// The reply a command is owed without any storage involvement: validation
/// failures and the empty request are answered before a backend is touched,
/// so these replies hold for every backend, fallible or not.
pub open spec fn storage_free_reply(cmd: Option<ReqV>) -> Option<RespV> {
    match cmd {
        Option::None => Option::Some(err_resp("Internal error: Not implemented"@)),
        Option::Some(ReqV::Hset { table, pair: Option::None }) => Option::Some(
            err_resp("Internal error: pair is required"@),
        ),
        Option::Some(
            ReqV::Hset { table, pair: Option::Some(KvpairV { key, value: Option::None }) },
        ) => Option::Some(err_resp("Internal error: value is required"@)),
        _ => Option::None,
    }
}

/// The reply built from a failure: the expected-absence case answers 404
/// with "not found", every other failure answers 500 with its description.
pub fn error_response(e: KvError) -> (r: CommandResponse)
    ensures
        e is KeyNotFound ==> r@ == notfound_resp(),
        !(e is KeyNotFound) ==> r@ == err_resp(describe_spec(e)),
        r@.status == 404u32 || r@.status == 500u32,
{
    match e {
        KvError::KeyNotFound => {
            let r = CommandResponse {
                status: 404,
                message: "not found".to_owned(),
                values: Vec::new(),
                pairs: Vec::new(),
            };
            proof {
                assert(r@.values =~= Seq::<ValueV>::empty());
                assert(r@.pairs =~= Seq::<KvpairV>::empty());
            }
            r
        },
        other => {
            let r = CommandResponse {
                status: 500,
                message: other.describe(),
                values: Vec::new(),
                pairs: Vec::new(),
            };
            proof {
                assert(r@.values =~= Seq::<ValueV>::empty());
                assert(r@.pairs =~= Seq::<KvpairV>::empty());
            }
            r
        },
    }
}

impl From<KvError> for CommandResponse {
    fn from(e: KvError) -> (r: Self)
        ensures
            e is KeyNotFound ==> r@ == notfound_resp(),
            !(e is KeyNotFound) ==> r@ == err_resp(describe_spec(e)),
    {
        error_response(e)
    }
}

impl vstd::std_specs::convert::FromSpecImpl<KvError> for CommandResponse {
    open spec fn obeys_from_spec() -> bool {
        false
    }

    closed spec fn from_spec(v: KvError) -> Self {
        vstd::pervasive::arbitrary()
    }
}

/// One command's own execution against a storage backend.
pub trait CommandService {
    /// The view of the command, as dispatch sees it.
    spec fn cmd_view(&self) -> Option<ReqV>;

    /// Runs the command; for a backend that cannot fail the outcome follows
    /// `dispatch_rel` exactly; a reply that owes nothing to storage holds
    /// unconditionally; and whatever the backend did, the reply is either
    /// the dispatch relation's or a plain error reply.
    fn exec<S: Storage>(&self, store: &mut S) -> (r: CommandResponse)
        ensures
            !S::st_fallible() ==> dispatch_rel(
                self.cmd_view(),
                *old(store),
                *final(store),
                r@,
            ),
            storage_free_reply(self.cmd_view()) matches Some(vr) ==> r@ == vr
                && storage_unchanged(*old(store), *final(store)),
            dispatch_rel(self.cmd_view(), *old(store), *final(store), r@) || (exists|msg: Seq<char>|
                r@ == err_resp(msg)),
    ;
}

impl CommandService for crate::value::Hget {
    open spec fn cmd_view(&self) -> Option<ReqV> {
        Option::Some(ReqV::Hget { table: self.table@, key: self.key@ })
    }

    fn exec<S: Storage>(&self, store: &mut S) -> (r: CommandResponse) {
        match store.get(self.table.as_str(), self.key.as_str()) {
            Ok(Some(v)) => {
                let ghost gv = v@;
                let mut values: Vec<Value> = Vec::new();
                values.push(v);
                let r = CommandResponse::ok_with_values(values);
                proof {
                    assert(r@.values =~= seq![gv]);
                    assert(r@.pairs =~= Seq::<KvpairV>::empty());
                    assert(storage_unchanged(*old(store), *store));
                    assert(store.st_lookup(self.table@, self.key@) == Option::Some(gv));
                    assert(r@ == ok_values_resp(seq![gv]));
                    assert(dispatch_rel(self.cmd_view(), *old(store), *store, r@));
                }
                r
            },
            Ok(None) => {
                let r = error_response(KvError::KeyNotFound);
                proof {
                    assert(storage_unchanged(*old(store), *store));
                    assert(dispatch_rel(self.cmd_view(), *old(store), *store, r@));
                }
                r
            },
            Err(e) => {
                let r = error_response(e);
                proof {
                    assert(r@.status == 404u32 || r@.status == 500u32);
                    if r@.status == 404u32 {
                        assert(r@ == notfound_resp());
                    }
                }
                if r.status == 404 {
                    let patched = CommandResponse { status: 500, ..r };
                    proof {
                        assert(patched@ == err_resp(patched@.message));
                    }
                    patched
                } else {
                    proof {
                        assert(r@ == err_resp(r@.message));
                    }
                    r
                }
            },
        }
    }
}

impl CommandService for crate::value::Hgetall {
    open spec fn cmd_view(&self) -> Option<ReqV> {
        Option::Some(ReqV::Hgetall { table: self.table@ })
    }

    fn exec<S: Storage>(&self, store: &mut S) -> (r: CommandResponse) {
        match store.get_all(self.table.as_str()) {
            Ok(ps) => {
                let ghost gps = ps@;
                let r = CommandResponse::ok_with_pairs(ps);
                proof {
                    assert forall|a: int| 0 <= a < r@.pairs.len() implies store.st_lookup(
                        self.table@,
                        #[trigger] r@.pairs[a].key,
                    ) == r@.pairs[a].value && (r@.pairs[a].value) is Some by {
                        assert(r@.pairs[a] == gps[a]@);
                    }
                    assert forall|k: Seq<char>|
                        (#[trigger] store.st_lookup(self.table@, k)) is Some implies exists|a: int|
                        0 <= a < r@.pairs.len() && r@.pairs[a].key == k by {
                        let a = choose|a: int|
                            0 <= a < gps.len() && #[trigger] gps[a]@.key == k;
                        assert(r@.pairs[a].key == k);
                    }
                    assert forall|a: int, b: int| 0 <= a < b < r@.pairs.len() implies (
                    #[trigger] r@.pairs[a].key) != (#[trigger] r@.pairs[b].key) by {
                        assert(r@.pairs[a] == gps[a]@);
                        assert(r@.pairs[b] == gps[b]@);
                    }
                }
                r
            },
            Err(e) => {
                let r = error_response(e);
                if r.status == 404 {
                    let patched = CommandResponse { status: 500, ..r };
                    proof {
                        assert(patched@ == err_resp(patched@.message));
                    }
                    patched
                } else {
                    proof {
                        assert(r@ == err_resp(r@.message));
                    }
                    r
                }
            },
        }
    }
}

impl CommandService for crate::value::Hset {
    open spec fn cmd_view(&self) -> Option<ReqV> {
        Option::Some(ReqV::Hset {
            table: self.table@,
            pair: match self.pair {
                Option::Some(p) => Option::Some(p@),
                Option::None => Option::None,
            },
        })
    }

    fn exec<S: Storage>(&self, store: &mut S) -> (r: CommandResponse) {
        match &self.pair {
            Option::None => {
                let r = error_response(KvError::Internal("pair is required".to_owned()));
                proof {
                    reveal_strlit("Internal error: ");
                    reveal_strlit("pair is required");
                    reveal_strlit("Internal error: pair is required");
                    assert("Internal error: "@ + "pair is required"@
                        =~= "Internal error: pair is required"@);
                }
                r
            },
            Option::Some(pair) => {
                match &pair.value {
                    Option::None => {
                        let r = error_response(
                            KvError::Internal("value is required".to_owned()),
                        );
                        proof {
                            reveal_strlit("Internal error: ");
                            reveal_strlit("value is required");
                            reveal_strlit("Internal error: value is required");
                            assert("Internal error: "@ + "value is required"@
                                =~= "Internal error: value is required"@);
                        }
                        r
                    },
                    Option::Some(v) => {
                        let value = crate::storage::clone_value(v);
                        match store.set(self.table.as_str(), pair.key.as_str(), value) {
                            Ok(prev) => {
                                let ghost gprev = crate::wire::ov_view(prev);
                                let mut values: Vec<Value> = Vec::new();
                                match prev {
                                    Some(p) => values.push(p),
                                    None => values.push(Value::Empty),
                                }
                                let r = CommandResponse::ok_with_values(values);
                                proof {
                                    match gprev {
                                        Option::Some(pv) => {
                                            assert(r@.values =~= seq![pv]);
                                        },
                                        Option::None => {
                                            assert(r@.values =~= seq![ValueV::Empty]);
                                        },
                                    }
                                }
                                r
                            },
                            Err(e) => {
                                let r = error_response(e);
                                if r.status == 404 {
                                    let patched = CommandResponse { status: 500, ..r };
                                    proof {
                                        assert(patched@ == err_resp(patched@.message));
                                    }
                                    patched
                                } else {
                                    proof {
                                        assert(r@ == err_resp(r@.message));
                                    }
                                    r
                                }
                            },
                        }
                    },
                }
            },
        }
    }
}

/// Routes one decoded command to the matching storage operation and shapes
/// its outcome as a reply.
pub fn dispatch<S: Storage>(cmd: CommandRequest, store: &mut S) -> (r: CommandResponse)
    ensures
        !S::st_fallible() ==> dispatch_rel(cmd@, *old(store), *final(store), r@),
        storage_free_reply(cmd@) matches Some(vr) ==> r@ == vr && storage_unchanged(
            *old(store),
            *final(store),
        ),
        dispatch_rel(cmd@, *old(store), *final(store), r@) || (exists|msg: Seq<char>|
            r@ == err_resp(msg)),
{
    match cmd.request_data {
        Some(RequestData::Hget(params)) => params.exec(store),
        Some(RequestData::Hgetall(params)) => params.exec(store),
        Some(RequestData::Hset(params)) => params.exec(store),
        None => {
            let r = error_response(KvError::Internal("Not implemented".to_owned()));
            proof {
                reveal_strlit("Internal error: ");
                reveal_strlit("Not implemented");
                reveal_strlit("Internal error: Not implemented");
                assert("Internal error: "@ + "Not implemented"@
                    =~= "Internal error: Not implemented"@);
            }
            r
        },
    }
}

/// A read-only lifecycle hook.
pub trait Nofiy<Arg> {
    /// Observes the argument; it cannot change it.
    fn notify(&self, arg: &Arg);
}

/// A mutating lifecycle hook, with its effect stated as a relation between
/// the reply it was given and the reply it leaves.
pub trait NotifyMut<Arg> {
    /// How the reply after the hook relates to the reply before it.
    spec fn effect(&self, pre: Arg, post: Arg) -> bool;

    /// Rewrites the argument within the stated effect.
    fn notify(&self, arg: &mut Arg)
        ensures
            self.effect(*old(arg), *final(arg)),
    ;
}

/// The replies reachable by running the hooks from index `k` on, in order.
pub open spec fn chain_from(hooks: Seq<Box<dyn NotifyMut<CommandResponse>>>, k: int, r0: CommandResponse, rn: CommandResponse) -> bool
    decreases hooks.len() - k,
{
    if k < 0 || k >= hooks.len() {
        rn == r0
    } else {
        exists|mid: CommandResponse|
            #[trigger] hooks[k].effect(r0, mid) && chain_from(hooks, k + 1, mid, rn)
    }
}

/// The replies reachable by running all the hooks, in registration order.
pub open spec fn hooks_chain(hooks: Seq<Box<dyn NotifyMut<CommandResponse>>>, r0: CommandResponse, rn: CommandResponse) -> bool {
    chain_from(hooks, 0, r0, rn)
}

/// The storage backend together with the hooks registered around execution.
pub struct ServiceInner<S> {
    pub store: S,
    pub on_received: Vec<Box<dyn Nofiy<CommandRequest>>>,
    pub on_executed: Vec<Box<dyn Nofiy<CommandResponse>>>,
    pub on_berfore_send: Vec<Box<dyn NotifyMut<CommandResponse>>>,
    pub on_after_send: Vec<Box<dyn Nofiy<()>>>,
}

impl<S: Storage> ServiceInner<S> {
    pub fn new(store: S) -> (r: Self)
        ensures
            r.store == store,
            r.on_received@.len() == 0,
            r.on_executed@.len() == 0,
            r.on_berfore_send@.len() == 0,
            r.on_after_send@.len() == 0,
    {
        ServiceInner {
            store,
            on_received: Vec::new(),
            on_executed: Vec::new(),
            on_berfore_send: Vec::new(),
            on_after_send: Vec::new(),
        }
    }

    pub fn fn_received(self, f: Box<dyn Nofiy<CommandRequest>>) -> (r: Self)
        ensures
            r.store == self.store,
            r.on_received@ == self.on_received@.push(f),
            r.on_executed@ == self.on_executed@,
            r.on_berfore_send@ == self.on_berfore_send@,
            r.on_after_send@ == self.on_after_send@,
    {
        let mut s = self;
        s.on_received.push(f);
        s
    }

    pub fn fn_executed(self, f: Box<dyn Nofiy<CommandResponse>>) -> (r: Self)
        ensures
            r.store == self.store,
            r.on_received@ == self.on_received@,
            r.on_executed@ == self.on_executed@.push(f),
            r.on_berfore_send@ == self.on_berfore_send@,
            r.on_after_send@ == self.on_after_send@,
    {
        let mut s = self;
        s.on_executed.push(f);
        s
    }

    pub fn fn_berfore_send(self, f: Box<dyn NotifyMut<CommandResponse>>) -> (r: Self)
        ensures
            r.store == self.store,
            r.on_received@ == self.on_received@,
            r.on_executed@ == self.on_executed@,
            r.on_berfore_send@ == self.on_berfore_send@.push(f),
            r.on_after_send@ == self.on_after_send@,
    {
        let mut s = self;
        s.on_berfore_send.push(f);
        s
    }

    pub fn fn_after_send(self, f: Box<dyn Nofiy<()>>) -> (r: Self)
        ensures
            r.store == self.store,
            r.on_received@ == self.on_received@,
            r.on_executed@ == self.on_executed@,
            r.on_berfore_send@ == self.on_berfore_send@,
            r.on_after_send@ == self.on_after_send@.push(f),
    {
        let mut s = self;
        s.on_after_send.push(f);
        s
    }
}

/// The service: dispatches commands against its backend and runs the hook
/// pipeline around each execution. It owns its backend and hooks outright;
/// a program serving several connections shares one service behind its own
/// lock, rather than through a clonable handle.
pub struct Service<S> {
    pub inner: ServiceInner<S>,
}

impl<S: Storage> From<ServiceInner<S>> for Service<S> {
    fn from(inner: ServiceInner<S>) -> (r: Self)
        ensures
            r.inner == inner,
    {
        Service { inner }
    }
}

impl<S: Storage> vstd::std_specs::convert::FromSpecImpl<ServiceInner<S>> for Service<S> {
    open spec fn obeys_from_spec() -> bool {
        true
    }

    open spec fn from_spec(inner: ServiceInner<S>) -> Self {
        Service { inner }
    }
}

impl<S: Storage> Service<S> {
    /// Runs one command: the received hooks see the request, dispatch runs
    /// it, the executed hooks see the raw reply, the before-send hooks
    /// rewrite it in registration order, and the after-send hooks are told,
    /// with no payload, when at least one is registered.
    pub fn exec(&mut self, cmd: CommandRequest) -> (res: CommandResponse)
        ensures
            final(self).inner.on_received@ == old(self).inner.on_received@,
            final(self).inner.on_executed@ == old(self).inner.on_executed@,
            final(self).inner.on_berfore_send@ == old(self).inner.on_berfore_send@,
            final(self).inner.on_after_send@ == old(self).inner.on_after_send@,
            exists|mid: CommandResponse|
                {
                    &&& (!S::st_fallible() ==> dispatch_rel(
                        cmd@,
                        old(self).inner.store,
                        final(self).inner.store,
                        mid@,
                    ))
                    &&& (storage_free_reply(cmd@) matches Some(vr) ==> mid@ == vr
                        && storage_unchanged(old(self).inner.store, final(self).inner.store))
                    &&& (dispatch_rel(cmd@, old(self).inner.store, final(self).inner.store, mid@)
                        || (exists|msg: Seq<char>| mid@ == err_resp(msg)))
                    &&& #[trigger] hooks_chain(old(self).inner.on_berfore_send@, mid, res)
                },
    {
        let mut i: usize = 0;
        let n = self.inner.on_received.len();
        while i < n
            invariant
                n == self.inner.on_received@.len(),
            decreases n - i,
        {
            self.inner.on_received[i].notify(&cmd);
            i = i + 1;
        }
        let mut res = dispatch(cmd, &mut self.inner.store);
        let ghost mid = res;
        let mut j: usize = 0;
        let m = self.inner.on_executed.len();
        while j < m
            invariant
                m == self.inner.on_executed@.len(),
            decreases m - j,
        {
            self.inner.on_executed[j].notify(&res);
            j = j + 1;
        }
        let ghost hooks = self.inner.on_berfore_send@;
        let mut k: usize = 0;
        let h = self.inner.on_berfore_send.len();
        while k < h
            invariant
                h == self.inner.on_berfore_send@.len(),
                hooks == self.inner.on_berfore_send@,
                0 <= k <= h,
                forall|rend: CommandResponse|
                    chain_from(hooks, k as int, res, rend) ==> chain_from(hooks, 0, mid, rend),
            decreases h - k,
        {
            let ghost pre = res;
            self.inner.on_berfore_send[k].notify(&mut res);
            proof {
                assert forall|rend: CommandResponse|
                    chain_from(hooks, k + 1, res, rend) implies chain_from(
                    hooks,
                    0,
                    mid,
                    rend,
                ) by {
                    assert(hooks[k as int].effect(pre, res) && chain_from(hooks, k + 1, res, rend));
                    assert(chain_from(hooks, k as int, pre, rend));
                }
            }
            k = k + 1;
        }
        proof {
            assert(chain_from(hooks, hooks.len() as int, res, res));
            assert(hooks_chain(hooks, mid, res));
        }
        let mut a: usize = 0;
        let q = self.inner.on_after_send.len();
        while a < q
            invariant
                q == self.inner.on_after_send@.len(),
            decreases q - a,
        {
            self.inner.on_after_send[a].notify(&());
            a = a + 1;
        }
        res
    }
}

/// A before-send hook that overwrites the status code.
pub struct StatusHook {
    pub code: u32,
}

impl NotifyMut<CommandResponse> for StatusHook {
    open spec fn effect(&self, pre: CommandResponse, post: CommandResponse) -> bool {
        post@ == (RespV { status: self.code, ..pre@ })
    }

    fn notify(&self, arg: &mut CommandResponse) {
        arg.status = self.code;
    }
}

/// A before-send hook that appends a suffix to the message when the status
/// matches what it expects, and otherwise leaves the reply alone.
pub struct SuffixHook {
    pub expect: u32,
    pub suffix: String,
}

impl NotifyMut<CommandResponse> for SuffixHook {
    open spec fn effect(&self, pre: CommandResponse, post: CommandResponse) -> bool {
        if pre.status == self.expect {
            post@ == (RespV { message: pre@.message + self.suffix@, ..pre@ })
        } else {
            post == pre
        }
    }

    fn notify(&self, arg: &mut CommandResponse) {
        if arg.status == self.expect {
            arg.message.append(self.suffix.as_str());
        }
    }
}

/// Hooks run in registration order on the same reply: when the first hook
/// pins the status and the second appends to the message exactly on that
/// status, the reply leaving the pipeline carries both marks.
pub proof fn lemma_hook_order(hooks: Seq<Box<dyn NotifyMut<CommandResponse>>>, code: u32, suffix: Seq<char>, r0: CommandResponse, rn: CommandResponse)
    requires
        hooks.len() == 2,
        forall|pre: CommandResponse, post: CommandResponse|
            #[trigger] hooks[0].effect(pre, post) ==> post@ == (RespV { status: code, ..pre@ }),
        forall|pre: CommandResponse, post: CommandResponse|
            #[trigger] hooks[1].effect(pre, post) ==> (if pre.status == code {
                post@ == (RespV { message: pre@.message + suffix, ..pre@ })
            } else {
                post == pre
            }),
        hooks_chain(hooks, r0, rn),
    ensures
        rn@.status == code,
        rn@.message == r0@.message + suffix,
{
    assert(chain_from(hooks, 0, r0, rn));
    assert(exists|mid: CommandResponse|
        #[trigger] hooks[0].effect(r0, mid) && chain_from(hooks, 1int, mid, rn));
    let m1 = choose|mid: CommandResponse|
        #[trigger] hooks[0].effect(r0, mid) && chain_from(hooks, 1int, mid, rn);
    assert(m1@ == (RespV { status: code, ..r0@ }));
    assert(exists|mid: CommandResponse|
        #[trigger] hooks[1].effect(m1, mid) && chain_from(hooks, 2int, mid, rn));
    let m2 = choose|mid: CommandResponse|
        #[trigger] hooks[1].effect(m1, mid) && chain_from(hooks, 2int, mid, rn);
    assert(m1.status == code) by {
        assert(m1@.status == code);
    }
    assert(m2@ == (RespV { message: m1@.message + suffix, ..m1@ }));
    assert(rn == m2);
}

} // verus!
