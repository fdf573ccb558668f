use vstd::prelude::*;
use vstd::pervasive::VecAdditionalExecFns;
use crate::error::KvError;
use crate::value::{Value, ValueV, Kvpair, KvpairV};
use crate::wire::ov_view;

verus! {

broadcast use vstd::std_specs::vec::group_vec_axioms;

/// One stored row: table name, key, value.
pub type RowV = (Seq<char>, Seq<char>, ValueV);

/// First-match lookup of a table and key among rows.
pub open spec fn rows_lookup(rows: Seq<RowV>, t: Seq<char>, k: Seq<char>) -> Option<ValueV>
    decreases rows.len(),
{
    if rows.len() == 0 {
        Option::None
    } else if rows[0].0 == t && rows[0].1 == k {
        Option::Some(rows[0].2)
    } else {
        rows_lookup(rows.drop_first(), t, k)
    }
}

/// The first matching row is what lookup finds for its table and key.
pub proof fn lemma_rows_lookup_first(rows: Seq<RowV>, j: int, t: Seq<char>, k: Seq<char>)
    requires
        0 <= j < rows.len(),
        rows[j].0 == t && rows[j].1 == k,
        forall|a: int| 0 <= a < j ==> !(#[trigger] rows[a].0 == t && rows[a].1 == k),
    ensures
        rows_lookup(rows, t, k) == Option::Some(rows[j].2),
    decreases rows.len(),
{
    if j == 0 {
    } else {
        assert(rows.drop_first()[j - 1] == rows[j]);
        assert forall|a: int| 0 <= a < j - 1 implies !(#[trigger] rows.drop_first()[a].0 == t
            && rows.drop_first()[a].1 == k) by {
            assert(rows.drop_first()[a] == rows[a + 1]);
        }
        lemma_rows_lookup_first(rows.drop_first(), j - 1, t, k);
    }
}

/// Where no row matches, lookup finds nothing.
pub proof fn lemma_rows_lookup_none(rows: Seq<RowV>, t: Seq<char>, k: Seq<char>)
    requires
        forall|j: int| 0 <= j < rows.len() ==> !(#[trigger] rows[j].0 == t && rows[j].1 == k),
    ensures
        rows_lookup(rows, t, k) is None,
    decreases rows.len(),
{
    if rows.len() > 0 {
        assert forall|j: int|
            0 <= j < rows.drop_first().len() implies !(#[trigger] rows.drop_first()[j].0 == t
            && rows.drop_first()[j].1 == k) by {
            assert(rows.drop_first()[j] == rows[j + 1]);
        }
        lemma_rows_lookup_none(rows.drop_first(), t, k);
    }
}

/// The storage capability: point reads and writes on named tables, and a
/// snapshot of one whole table. A backend may fail on its own account; one
/// that cannot says so through `st_fallible`, and then every operation is
/// owed a success.
pub trait Storage: Sized {
    /// The value standing under a table and key, if any.
    spec fn st_lookup(&self, t: Seq<char>, k: Seq<char>) -> Option<ValueV>;

    /// Whether operations of this backend may fail at all.
    spec fn st_fallible() -> bool;

    /// Reads one key; absence is a normal `None`, never an error.
    fn get(&self, table: &str, key: &str) -> (r: Result<Option<Value>, KvError>)
        ensures
            !Self::st_fallible() ==> r is Ok,
            r matches Ok(v) ==> ov_view(v) == self.st_lookup(table@, key@),
    ;

    /// Inserts or replaces one key, returning the value it replaced.
    fn set(&mut self, table: &str, key: &str, value: Value) -> (r: Result<Option<Value>, KvError>)
        ensures
            !Self::st_fallible() ==> r is Ok,
            r matches Ok(prev) ==> {
                &&& ov_view(prev) == old(self).st_lookup(table@, key@)
                &&& forall|t2: Seq<char>, k2: Seq<char>|
                    #[trigger] final(self).st_lookup(t2, k2) == (if t2 == table@ && k2 == key@ {
                        Option::Some(value@)
                    } else {
                        old(self).st_lookup(t2, k2)
                    })
            },
    ;

    /// Removes one key, returning the value that stood there.
    fn delete(&mut self, table: &str, key: &str) -> (r: Result<Option<Value>, KvError>)
        ensures
            !Self::st_fallible() ==> r is Ok,
            r matches Ok(prev) ==> {
                &&& ov_view(prev) == old(self).st_lookup(table@, key@)
                &&& forall|t2: Seq<char>, k2: Seq<char>|
                    #[trigger] final(self).st_lookup(t2, k2) == (if t2 == table@ && k2 == key@ {
                        Option::None
                    } else {
                        old(self).st_lookup(t2, k2)
                    })
            },
    ;

    fn contains(&self, table: &str, key: &str) -> (r: Result<bool, KvError>)
        ensures
            !Self::st_fallible() ==> r is Ok,
            r matches Ok(b) ==> b == self.st_lookup(table@, key@) is Some,
    ;

    /// A snapshot of one table: each held key exactly once, with its value;
    /// the order is the backend's own.
    fn get_all(&self, table: &str) -> (r: Result<Vec<Kvpair>, KvError>)
        ensures
            !Self::st_fallible() ==> r is Ok,
            r matches Ok(ps) ==> {
                &&& forall|a: int|
                    0 <= a < ps@.len() ==> self.st_lookup(table@, #[trigger] ps@[a]@.key)
                        == ps@[a]@.value
                &&& forall|a: int| 0 <= a < ps@.len() ==> (#[trigger] ps@[a]@.value) is Some
                &&& forall|k: Seq<char>|
                    (#[trigger] self.st_lookup(table@, k)) is Some ==> exists|a: int|
                        0 <= a < ps@.len() && ps@[a]@.key == k
                &&& forall|a: int, b: int|
                    0 <= a < b < ps@.len() ==> (#[trigger] ps@[a]@.key) != (#[trigger] ps@[b]@.key)
            },
    ;

    /// A single-pass walk over the same snapshot that `get_all` yields:
    /// each held key exactly once, with its value.
    fn get_iter(&self, table: &str) -> (r: Result<StorageIter, KvError>)
        ensures
            !Self::st_fallible() ==> r is Ok,
            r matches Ok(it) ==> {
                &&& forall|a: int|
                    0 <= a < it.remaining().len() ==> self.st_lookup(
                        table@,
                        #[trigger] it.remaining()[a].key,
                    ) == it.remaining()[a].value
                &&& forall|a: int|
                    0 <= a < it.remaining().len() ==> (#[trigger] it.remaining()[a].value) is Some
                &&& forall|k: Seq<char>|
                    (#[trigger] self.st_lookup(table@, k)) is Some ==> exists|a: int|
                        0 <= a < it.remaining().len() && it.remaining()[a].key == k
                &&& forall|a: int, b: int|
                    0 <= a < b < it.remaining().len() ==> (#[trigger] it.remaining()[a].key) != (
                    #[trigger] it.remaining()[b].key)
            },
    ;
}

/// A finite, single-pass walk over a snapshot of pairs.
pub struct StorageIter {
    data: Vec<Kvpair>,
    pos: usize,
}

impl StorageIter {
    /// The pairs not yet handed out.
    pub closed spec fn remaining(&self) -> Seq<KvpairV> {
        let m = self.data@.map_values(|p: Kvpair| p@);
        if self.pos as int <= m.len() {
            m.skip(self.pos as int)
        } else {
            Seq::<KvpairV>::empty()
        }
    }

    pub fn new(data: Vec<Kvpair>) -> (r: Self)
        ensures
            r.remaining() == data@.map_values(|p: Kvpair| p@),
    {
        let r = StorageIter { data, pos: 0 };
        proof {
            assert(r.remaining() =~= r.data@.map_values(|p: Kvpair| p@));
        }
        r
    }

    /// The next pair of the snapshot, or nothing when it is exhausted.
    pub fn next(&mut self) -> (r: Option<Kvpair>)
        ensures
            old(self).remaining().len() == 0 ==> r is None && final(self).remaining()
                == old(self).remaining(),
            old(self).remaining().len() > 0 ==> {
                &&& r matches Some(p) && p@ == old(self).remaining()[0]
                &&& final(self).remaining() == old(self).remaining().drop_first()
            },
    {
        if self.pos < self.data.len() {
            let p = clone_pair(&self.data[self.pos]);
            self.pos = self.pos + 1;
            proof {
                let m = old(self).data@.map_values(|q: Kvpair| q@);
                assert(old(self).remaining().len() == m.len() - old(self).pos);
                assert(final(self).remaining() =~= old(self).remaining().drop_first());
                assert(old(self).remaining()[0] == m[old(self).pos as int]);
                assert(m[old(self).pos as int] == old(self).data@[old(self).pos as int]@);
                assert(p@ == old(self).remaining()[0]);
            }
            Some(p)
        } else {
            proof {
                assert(old(self).remaining().len() == 0);
            }
            None
        }
    }
}

/// A copy of a value, equal to the original in the model.
pub fn clone_value(v: &Value) -> (r: Value)
    ensures
        r@ == v@,
{
    match v {
        Value::Empty => Value::Empty,
        Value::Str(s) => Value::Str(s.clone()),
        Value::Int(n) => Value::Int(*n),
        Value::Double(bits) => Value::Double(*bits),
        Value::Bool(b) => Value::Bool(*b),
        Value::Bytes(b) => Value::Bytes(vstd::slice::slice_to_vec(b.as_slice())),
    }
}

/// A copy of a pair, equal to the original in the model.
pub fn clone_pair(p: &Kvpair) -> (r: Kvpair)
    ensures
        r@ == p@,
{
    match &p.value {
        Option::None => Kvpair { key: p.key.clone(), value: Option::None },
        Option::Some(v) => Kvpair { key: p.key.clone(), value: Option::Some(clone_value(v)) },
    }
}

/// The in-memory backend: one flat list of rows, each naming its table, in
/// insertion order; a table exists exactly as far as rows name it.
///
/// A concurrent map mutated through `&self` cannot carry contracts here: a
/// spec function of the handle's value could not change across an insert,
/// so naming such a map's contents would be unsound, and a string-keyed
/// standard map has no usable specification either. The rows therefore
/// live in one owned list, writers hold the backend exclusively, and any
/// sharing is the embedding program's concern.
pub struct MemTable {
    rows: Vec<(String, String, Value)>,
}

impl MemTable {
    /// The rows as their model: table name, key, value.
    pub closed spec fn rows_view(&self) -> Seq<RowV> {
        self.rows@.map_values(|r: (String, String, Value)| (r.0@, r.1@, r.2@))
    }

    pub fn new() -> (r: Self)
        ensures
            forall|t: Seq<char>, k: Seq<char>| #[trigger] r.st_lookup(t, k) is None,
            r.rows_view() == Seq::<RowV>::empty(),
    {
        let r = MemTable { rows: Vec::new() };
        proof {
            assert(r.rows_view() =~= Seq::<RowV>::empty());
        }
        r
    }

    /// The index of the first row holding a table and key, if one does.
    fn find_row(&self, table: &str, key: &str) -> (r: Option<usize>)
        ensures
            r matches Some(i) ==> {
                &&& i < self.rows@.len()
                &&& self.rows_view()[i as int].0 == table@
                &&& self.rows_view()[i as int].1 == key@
                &&& forall|j: int|
                    0 <= j < i ==> !(#[trigger] self.rows_view()[j].0 == table@
                        && self.rows_view()[j].1 == key@)
            },
            r is None ==> forall|j: int|
                0 <= j < self.rows_view().len() ==> !(#[trigger] self.rows_view()[j].0 == table@
                    && self.rows_view()[j].1 == key@),
    {
        let t = table.to_owned();
        let k = key.to_owned();
        let mut i: usize = 0;
        while i < self.rows.len()
            invariant
                0 <= i <= self.rows@.len(),
                t@ == table@,
                k@ == key@,
                forall|j: int|
                    0 <= j < i ==> !(#[trigger] self.rows_view()[j].0 == table@
                        && self.rows_view()[j].1 == key@),
            decreases self.rows@.len() - i,
        {
            if self.rows[i].0 == t && self.rows[i].1 == k {
                proof {
                    assert(self.rows_view()[i as int].0 == table@);
                }
                return Some(i);
            }
            proof {
                assert(self.rows_view()[i as int] == (self.rows@[i as int].0@,
                self.rows@[i as int].1@, self.rows@[i as int].2@));
            }
            i = i + 1;
        }
        None
    }
}

impl Default for MemTable {
    fn default() -> (r: Self)
        ensures
            forall|t: Seq<char>, k: Seq<char>| #[trigger] r.st_lookup(t, k) is None,
    {
        MemTable::new()
    }
}

impl Storage for MemTable {
    closed spec fn st_lookup(&self, t: Seq<char>, k: Seq<char>) -> Option<ValueV> {
        rows_lookup(self.rows_view(), t, k)
    }

    open spec fn st_fallible() -> bool {
        false
    }

    fn get(&self, table: &str, key: &str) -> (r: Result<Option<Value>, KvError>) {
        match self.find_row(table, key) {
            Some(i) => {
                let v = clone_value(&self.rows[i].2);
                proof {
                    lemma_rows_lookup_first(self.rows_view(), i as int, table@, key@);
                }
                Ok(Some(v))
            },
            None => {
                proof {
                    lemma_rows_lookup_none(self.rows_view(), table@, key@);
                }
                Ok(None)
            },
        }
    }

    fn set(&mut self, table: &str, key: &str, value: Value) -> (r: Result<
        Option<Value>,
        KvError,
    >) {
        let ghost oldrows = self.rows_view();
        match self.find_row(table, key) {
            Some(i) => {
                let prev = clone_value(&self.rows[i].2);
                self.rows.set(i, (table.to_owned(), key.to_owned(), value));
                proof {
                    lemma_rows_lookup_first(oldrows, i as int, table@, key@);
                    let newrows = self.rows_view();
                    assert(newrows =~= oldrows.update(i as int, (table@, key@, value@)));
                    assert forall|j: int| 0 <= j < i implies !(#[trigger] newrows[j].0 == table@
                        && newrows[j].1 == key@) by {
                        assert(newrows[j] == oldrows[j]);
                    }
                    lemma_rows_lookup_first(newrows, i as int, table@, key@);
                    assert forall|t2: Seq<char>, k2: Seq<char>|
                        #[trigger] rows_lookup(newrows, t2, k2) == (if t2 == table@ && k2 == key@ {
                            Option::Some(value@)
                        } else {
                            rows_lookup(oldrows, t2, k2)
                        }) by {
                        if !(t2 == table@ && k2 == key@) {
                            lemma_rows_lookup_update_other(
                                oldrows,
                                i as int,
                                (table@, key@, value@),
                                t2,
                                k2,
                            );
                        }
                    }
                }
                Ok(Some(prev))
            },
            None => {
                self.rows.push((table.to_owned(), key.to_owned(), value));
                proof {
                    lemma_rows_lookup_none(oldrows, table@, key@);
                    let newrows = self.rows_view();
                    assert(newrows =~= oldrows.push((table@, key@, value@)));
                    assert forall|j: int|
                        0 <= j < newrows.len() - 1 implies !(#[trigger] newrows[j].0 == table@
                        && newrows[j].1 == key@) by {
                        assert(newrows[j] == oldrows[j]);
                    }
                    lemma_rows_lookup_first(newrows, newrows.len() - 1, table@, key@);
                    assert forall|t2: Seq<char>, k2: Seq<char>|
                        #[trigger] rows_lookup(newrows, t2, k2) == (if t2 == table@ && k2 == key@ {
                            Option::Some(value@)
                        } else {
                            rows_lookup(oldrows, t2, k2)
                        }) by {
                        if !(t2 == table@ && k2 == key@) {
                            lemma_rows_lookup_snoc_other(oldrows, (table@, key@, value@), t2, k2);
                        }
                    }
                }
                Ok(None)
            },
        }
    }

    fn delete(&mut self, table: &str, key: &str) -> (r: Result<Option<Value>, KvError>) {
        let ghost oldrows = self.rows_view();
        let t = table.to_owned();
        let k = key.to_owned();
        let mut prev: Option<Value> = None;
        let mut i: usize = 0;
        while i < self.rows.len()
            invariant
                0 <= i <= self.rows@.len(),
                t@ == table@,
                k@ == key@,
                forall|j: int|
                    0 <= j < i ==> !(#[trigger] self.rows_view()[j].0 == table@
                        && self.rows_view()[j].1 == key@),
                prev is Some ==> ov_view(prev) == rows_lookup(oldrows, table@, key@),
                prev is None ==> rows_lookup(self.rows_view(), table@, key@) == rows_lookup(
                    oldrows,
                    table@,
                    key@,
                ),
                forall|t2: Seq<char>, k2: Seq<char>|
                    !(t2 == table@ && k2 == key@) ==> #[trigger] rows_lookup(
                        self.rows_view(),
                        t2,
                        k2,
                    ) == rows_lookup(oldrows, t2, k2),
            decreases self.rows@.len() - i,
        {
            proof {
                assert(self.rows_view()[i as int] == (self.rows@[i as int].0@,
                self.rows@[i as int].1@, self.rows@[i as int].2@));
            }
            let ghost midrows = self.rows_view();
            if self.rows[i].0 == t && self.rows[i].1 == k {
                let (_, _, gone) = self.rows.remove(i);
                proof {
                    lemma_rows_lookup_first(midrows, i as int, table@, key@);
                    assert(self.rows_view() =~= midrows.remove(i as int));
                    assert forall|t2: Seq<char>, k2: Seq<char>|
                        !(t2 == table@ && k2 == key@) implies #[trigger] rows_lookup(
                        self.rows_view(),
                        t2,
                        k2,
                    ) == rows_lookup(midrows, t2, k2) by {
                        lemma_rows_lookup_remove_other(midrows, i as int, t2, k2);
                    }
                }
                if prev.is_none() {
                    prev = Some(gone);
                }
            } else {
                i = i + 1;
            }
        }
        proof {
            lemma_rows_lookup_none(self.rows_view(), table@, key@);
        }
        Ok(prev)
    }

    fn contains(&self, table: &str, key: &str) -> (r: Result<bool, KvError>) {
        match self.find_row(table, key) {
            Some(i) => {
                proof {
                    lemma_rows_lookup_first(self.rows_view(), i as int, table@, key@);
                }
                Ok(true)
            },
            None => {
                proof {
                    lemma_rows_lookup_none(self.rows_view(), table@, key@);
                }
                Ok(false)
            },
        }
    }

    fn get_all(&self, table: &str) -> (r: Result<Vec<Kvpair>, KvError>) {
        let t = table.to_owned();
        let mut out: Vec<Kvpair> = Vec::new();
        let mut i: usize = 0;
        while i < self.rows.len()
            invariant
                0 <= i <= self.rows@.len(),
                t@ == table@,
                forall|a: int|
                    0 <= a < out@.len() ==> self.st_lookup(table@, #[trigger] out@[a]@.key)
                        == out@[a]@.value,
                forall|a: int| 0 <= a < out@.len() ==> (#[trigger] out@[a]@.value) is Some,
                forall|j: int|
                    0 <= j < i && (#[trigger] self.rows_view()[j].0) == table@ ==> exists|a: int|
                        0 <= a < out@.len() && #[trigger] out@[a]@.key == self.rows_view()[j].1,
                forall|a: int, b: int|
                    0 <= a < b < out@.len() ==> (#[trigger] out@[a]@.key) != (
                    #[trigger] out@[b]@.key),
            decreases self.rows@.len() - i,
        {
            proof {
                assert(self.rows_view()[i as int] == (self.rows@[i as int].0@,
                self.rows@[i as int].1@, self.rows@[i as int].2@));
            }
            if self.rows[i].0 == t {
                proof {
                    assert(self.rows_view()[i as int].0 == table@);
                    assert(self.rows_view()[i as int].1 == self.rows@[i as int].1@);
                }
                let ghost out_before = out@;
                if !key_collected(&out, &self.rows[i].1) {
                    match self.find_row(table, self.rows[i].1.as_str()) {
                        Some(j) => {
                            proof {
                                assert(self.rows_view()[j as int] == (self.rows@[j as int].0@,
                                self.rows@[j as int].1@, self.rows@[j as int].2@));
                                lemma_rows_lookup_first(
                                    self.rows_view(),
                                    j as int,
                                    table@,
                                    self.rows@[i as int].1@,
                                );
                            }
                            let p = Kvpair {
                                key: self.rows[i].1.clone(),
                                value: Option::Some(clone_value(&self.rows[j].2)),
                            };
                            proof {
                                assert(p@.key == self.rows_view()[i as int].1);
                                assert(p@.value == Option::Some(self.rows_view()[j as int].2));
                                assert(self.st_lookup(table@, p@.key) == p@.value);
                            }
                            out.push(p);
                            proof {
                                assert(out@[out@.len() - 1]@.key == self.rows_view()[
                                    i as int
                                ].1);
                            }
                        },
                        None => {
                            proof {
                                assert(!(self.rows_view()[i as int].0 == table@
                                    && self.rows_view()[i as int].1
                                    == self.rows@[i as int].1@));
                                assert(false);
                            }
                        },
                    }
                    proof {
                        assert forall|j: int|
                            0 <= j < i + 1 && (#[trigger] self.rows_view()[j].0) == table@
                            implies exists|a: int|
                            0 <= a < out@.len() && #[trigger] out@[a]@.key
                                == self.rows_view()[j].1 by {
                            if j < i {
                                let a = choose|a: int|
                                    0 <= a < out_before.len() && #[trigger] out_before[a]@.key
                                        == self.rows_view()[j].1;
                                assert(out@[a]@.key == self.rows_view()[j].1);
                            } else {
                                assert(out@[out@.len() - 1]@.key == self.rows_view()[i as int].1);
                            }
                        }
                    }
                } else {
                    proof {
                        assert forall|j: int|
                            0 <= j < i + 1 && (#[trigger] self.rows_view()[j].0) == table@
                            implies exists|a: int|
                            0 <= a < out@.len() && #[trigger] out@[a]@.key
                                == self.rows_view()[j].1 by {}
                    }
                }
            }
            i = i + 1;
        }
        proof {
            assert forall|k: Seq<char>| (#[trigger] self.st_lookup(table@, k)) is Some implies
            exists|a: int| 0 <= a < out@.len() && out@[a]@.key == k by {
                if forall|j: int|
                    0 <= j < self.rows_view().len() ==> !(#[trigger] self.rows_view()[j].0
                        == table@ && self.rows_view()[j].1 == k) {
                    lemma_rows_lookup_none(self.rows_view(), table@, k);
                }
            }
        }
        Ok(out)
    }

    fn get_iter(&self, table: &str) -> (r: Result<StorageIter, KvError>) {
        match self.get_all(table) {
            Ok(ps) => {
                let ghost gps = ps@;
                let it = StorageIter::new(ps);
                proof {
                    let lk = |k: Seq<char>| self.st_lookup(table@, k);
                    lemma_snapshot_carries_over(lk, gps, it.remaining());
                    let rem = it.remaining();
                    assert forall|a: int| 0 <= a < rem.len() implies self.st_lookup(
                        table@,
                        #[trigger] rem[a].key,
                    ) == rem[a].value && (rem[a].value) is Some by {
                        assert(lk(rem[a].key) == rem[a].value);
                        assert((lk(rem[a].key)) is Some);
                    }
                    assert forall|k: Seq<char>| (#[trigger] self.st_lookup(table@, k)) is Some
                    implies exists|a: int| 0 <= a < rem.len() && rem[a].key == k by {
                        assert((lk(k)) is Some);
                    }
                }
                Ok(it)
            },
            Err(e) => Err(e),
        }
    }
}

/// The snapshot clauses proved of a pair list carry over to the view
/// sequence an iterator was built from.
pub proof fn lemma_snapshot_carries_over(lookup: spec_fn(Seq<char>) -> Option<ValueV>, ps: Seq<Kvpair>, rem: Seq<KvpairV>)
    requires
        rem == ps.map_values(|p: Kvpair| p@),
        forall|a: int| 0 <= a < ps.len() ==> lookup(#[trigger] ps[a]@.key) == ps[a]@.value,
        forall|a: int| 0 <= a < ps.len() ==> (#[trigger] ps[a]@.value) is Some,
        forall|k: Seq<char>|
            (#[trigger] lookup(k)) is Some ==> exists|a: int|
                0 <= a < ps.len() && ps[a]@.key == k,
        forall|a: int, b: int|
            0 <= a < b < ps.len() ==> (#[trigger] ps[a]@.key) != (#[trigger] ps[b]@.key),
    ensures
        forall|a: int| 0 <= a < rem.len() ==> lookup(#[trigger] rem[a].key) == rem[a].value,
        forall|a: int| 0 <= a < rem.len() ==> (#[trigger] rem[a].value) is Some,
        forall|k: Seq<char>|
            (#[trigger] lookup(k)) is Some ==> exists|a: int|
                0 <= a < rem.len() && rem[a].key == k,
        forall|a: int, b: int|
            0 <= a < b < rem.len() ==> (#[trigger] rem[a].key) != (#[trigger] rem[b].key),
{
    assert(rem.len() == ps.len());
    assert forall|a: int| 0 <= a < rem.len() implies #[trigger] rem[a] == ps[a]@ by {}
    assert forall|k: Seq<char>| (#[trigger] lookup(k)) is Some implies exists|a: int|
        0 <= a < rem.len() && rem[a].key == k by {
        let a = choose|a: int| 0 <= a < ps.len() && #[trigger] ps[a]@.key == k;
        assert(rem[a].key == k);
    }
}

/// Whether a key was already collected into the snapshot.
fn key_collected(out: &Vec<Kvpair>, key: &String) -> (r: bool)
    ensures
        r == exists|a: int| 0 <= a < out@.len() && (#[trigger] out@[a]@.key) == key@,
{
    let mut a: usize = 0;
    while a < out.len()
        invariant
            0 <= a <= out@.len(),
            forall|b: int| 0 <= b < a ==> (#[trigger] out@[b]@.key) != key@,
        decreases out@.len() - a,
    {
        if out[a].key == *key {
            proof {
                assert(out@[a as int]@.key == key@);
            }
            return true;
        }
        a = a + 1;
    }
    false
}

/// Updating one row leaves every other table and key unchanged in lookup.
pub proof fn lemma_rows_lookup_update_other(rows: Seq<RowV>, i: int, row: RowV, t: Seq<char>, k: Seq<char>)
    requires
        0 <= i < rows.len(),
        rows[i].0 == row.0 && rows[i].1 == row.1,
        !(t == row.0 && k == row.1),
    ensures
        rows_lookup(rows.update(i, row), t, k) == rows_lookup(rows, t, k),
    decreases rows.len(),
{
    if i == 0 {
        assert(rows.update(0, row).drop_first() =~= rows.drop_first());
    } else {
        assert(rows.update(i, row).drop_first() =~= rows.drop_first().update(i - 1, row));
        assert(rows.update(i, row)[0] == rows[0]);
        lemma_rows_lookup_update_other(rows.drop_first(), i - 1, row, t, k);
    }
}

/// Appending a row leaves every other table and key unchanged in lookup.
pub proof fn lemma_rows_lookup_snoc_other(rows: Seq<RowV>, row: RowV, t: Seq<char>, k: Seq<char>)
    requires
        !(t == row.0 && k == row.1),
    ensures
        rows_lookup(rows.push(row), t, k) == rows_lookup(rows, t, k),
    decreases rows.len(),
{
    if rows.len() == 0 {
        assert(rows.push(row)[0] == row);
        assert(rows.push(row).drop_first() =~= Seq::<RowV>::empty());
    } else {
        assert(rows.push(row)[0] == rows[0]);
        assert(rows.push(row).drop_first() =~= rows.drop_first().push(row));
        lemma_rows_lookup_snoc_other(rows.drop_first(), row, t, k);
    }
}

/// Removing one row leaves every other table and key unchanged in lookup.
pub proof fn lemma_rows_lookup_remove_other(rows: Seq<RowV>, i: int, t: Seq<char>, k: Seq<char>)
    requires
        0 <= i < rows.len(),
        !(rows[i].0 == t && rows[i].1 == k),
    ensures
        rows_lookup(rows.remove(i), t, k) == rows_lookup(rows, t, k),
    decreases rows.len(),
{
    if i == 0 {
        assert(rows.remove(0) =~= rows.drop_first());
    } else {
        assert(rows.remove(i)[0] == rows[0]);
        assert(rows.remove(i).drop_first() =~= rows.drop_first().remove(i - 1));
        lemma_rows_lookup_remove_other(rows.drop_first(), i - 1, t, k);
    }
}

/// Writing a key twice hands the first value back: the value returned by the
/// second write is the one the first write left in place.
pub proof fn lemma_idempotent_overwrite<S: Storage>(m1: S, t: Seq<char>, k: Seq<char>, v1: ValueV, prev2: Option<ValueV>)
    requires
        m1.st_lookup(t, k) == Option::Some(v1),
        prev2 == m1.st_lookup(t, k),
    ensures
        prev2 == Option::Some(v1),
{
}

/// Tables never share keys: a write into one table leaves every lookup in
/// any other table exactly as it was.
pub proof fn lemma_table_isolation<S: Storage>(m0: S, m1: S, t1: Seq<char>, k1: Seq<char>, v: ValueV, t2: Seq<char>, k2: Seq<char>)
    requires
        t1 != t2,
        forall|ta: Seq<char>, kb: Seq<char>|
            #[trigger] m1.st_lookup(ta, kb) == (if ta == t1 && kb == k1 {
                Option::Some(v)
            } else {
                m0.st_lookup(ta, kb)
            }),
    ensures
        m1.st_lookup(t2, k2) == m0.st_lookup(t2, k2),
{
}

} // verus!
