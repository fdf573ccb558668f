use vstd::prelude::*;
use vstd::utf8::encode_utf8;
use crate::error::KvError;
use crate::value::{Value, ValueV, Kvpair};
use crate::storage::{Storage, StorageIter};
use crate::wire::{value_enc, value_fits, encode_value, decode_value_at};

verus! {

broadcast use vstd::std_specs::vec::group_vec_axioms;

#[verifier::external_type_specification]
#[verifier::external_body]
pub struct ExDb(sled::Db);

/// What the log store holds on disk: a mapping from key bytes to value
/// bytes. A handle's contents are whatever earlier runs left there.
pub uninterp spec fn sled_contents(db: sled::Db) -> Map<Seq<u8>, Seq<u8>>;

/// Relies on sled::open: yields a handle on the tree at the path, or the
/// engine's failure; nothing is known of what the tree holds.
#[verifier::external_body]
fn sled_open(path: &str) -> (r: Result<sled::Db, KvError>)
{
    sled::open(path).map_err(|e| KvError::SledError(e.to_string()))
}

/// Relies on sled::Tree::get: on success the answer is exactly what the
/// tree holds under the key.
#[verifier::external_body]
fn sled_get(db: &sled::Db, key: &Vec<u8>) -> (r: Result<Option<Vec<u8>>, KvError>)
    ensures
        r matches Ok(o) ==> match o {
            Option::Some(v) => sled_contents(*db).contains_key(key@) && sled_contents(*db)[key@]
                == v@,
            Option::None => !sled_contents(*db).contains_key(key@),
        },
{
    match db.get(key.as_slice()) {
        Ok(Some(v)) => Ok(Some(v.as_ref().to_vec())),
        Ok(None) => Ok(None),
        Err(e) => Err(KvError::SledError(e.to_string())),
    }
}

/// Relies on sled::Tree::insert: on success the tree maps the key to the
/// value, everything else stands, and the old value comes back.
#[verifier::external_body]
fn sled_insert(db: &mut sled::Db, key: &Vec<u8>, value: Vec<u8>) -> (r: Result<
    Option<Vec<u8>>,
    KvError,
>)
    ensures
        r matches Ok(o) ==> {
            &&& sled_contents(*final(db)) == sled_contents(*old(db)).insert(key@, value@)
            &&& match o {
                Option::Some(v) => sled_contents(*old(db)).contains_key(key@) && sled_contents(
                    *old(db),
                )[key@] == v@,
                Option::None => !sled_contents(*old(db)).contains_key(key@),
            }
        },
{
    match db.insert(key.as_slice(), value) {
        Ok(Some(v)) => Ok(Some(v.as_ref().to_vec())),
        Ok(None) => Ok(None),
        Err(e) => Err(KvError::SledError(e.to_string())),
    }
}

/// Relies on sled::Tree::remove: on success the key is gone, everything
/// else stands, and the old value comes back.
#[verifier::external_body]
fn sled_remove(db: &mut sled::Db, key: &Vec<u8>) -> (r: Result<Option<Vec<u8>>, KvError>)
    ensures
        r matches Ok(o) ==> {
            &&& sled_contents(*final(db)) == sled_contents(*old(db)).remove(key@)
            &&& match o {
                Option::Some(v) => sled_contents(*old(db)).contains_key(key@) && sled_contents(
                    *old(db),
                )[key@] == v@,
                Option::None => !sled_contents(*old(db)).contains_key(key@),
            }
        },
{
    match db.remove(key.as_slice()) {
        Ok(Some(v)) => Ok(Some(v.as_ref().to_vec())),
        Ok(None) => Ok(None),
        Err(e) => Err(KvError::SledError(e.to_string())),
    }
}

/// Relies on sled::Tree::contains_key: on success the answer says whether
/// the tree holds the key.
#[verifier::external_body]
fn sled_contains(db: &sled::Db, key: &Vec<u8>) -> (r: Result<bool, KvError>)
    ensures
        r matches Ok(b) ==> b == sled_contents(*db).contains_key(key@),
{
    db.contains_key(key.as_slice()).map_err(|e| KvError::SledError(e.to_string()))
}

/// Strict byte-wise lexicographic order, the order the tree keeps its keys in.
pub open spec fn lex_lt(a: Seq<u8>, b: Seq<u8>) -> bool
    decreases a.len(),
{
    if b.len() == 0 {
        false
    } else if a.len() == 0 {
        true
    } else if a[0] < b[0] {
        true
    } else if a[0] > b[0] {
        false
    } else {
        lex_lt(a.drop_first(), b.drop_first())
    }
}

/// Dropping a shared prefix keeps the lexicographic order.
proof fn lemma_lex_prefix_cancel(p: Seq<u8>, x: Seq<u8>, y: Seq<u8>)
    requires
        lex_lt(p + x, p + y),
    ensures
        lex_lt(x, y),
    decreases p.len(),
{
    if p.len() == 0 {
        assert(p + x =~= x);
        assert(p + y =~= y);
    } else {
        assert((p + x)[0] == p[0]);
        assert((p + y)[0] == p[0]);
        assert((p + x).drop_first() =~= p.drop_first() + x);
        assert((p + y).drop_first() =~= p.drop_first() + y);
        lemma_lex_prefix_cancel(p.drop_first(), x, y);
    }
}

/// True when the key bytes begin with the prefix bytes.
pub open spec fn has_prefix(k: Seq<u8>, p: Seq<u8>) -> bool {
    p.len() <= k.len() && k.subrange(0, p.len() as int) == p
}

/// Relies on sled::Tree::scan_prefix: on success the pairs are exactly the
/// tree's entries whose key begins with the prefix, each key once, in
/// ascending byte order of the keys, as the tree's range scan yields them.
#[verifier::external_body]
fn sled_scan_prefix(db: &sled::Db, prefix: &Vec<u8>) -> (r: Result<
    Vec<(Vec<u8>, Vec<u8>)>,
    KvError,
>)
    ensures
        r matches Ok(ps) ==> {
            &&& forall|a: int|
                0 <= a < ps@.len() ==> {
                    &&& has_prefix(#[trigger] ps@[a].0@, prefix@)
                    &&& sled_contents(*db).contains_key(ps@[a].0@)
                    &&& sled_contents(*db)[ps@[a].0@] == ps@[a].1@
                }
            &&& forall|k: Seq<u8>|
                #[trigger] sled_contents(*db).contains_key(k) && has_prefix(k, prefix@)
                    ==> exists|a: int| 0 <= a < ps@.len() && ps@[a].0@ == k
            &&& forall|a: int, b: int|
                0 <= a < b < ps@.len() ==> (#[trigger] ps@[a].0@) != (#[trigger] ps@[b].0@)
            &&& forall|a: int, b: int|
                0 <= a < b < ps@.len() ==> lex_lt(#[trigger] ps@[a].0@, #[trigger] ps@[b].0@)
        },
{
    let mut out: Vec<(Vec<u8>, Vec<u8>)> = Vec::new();
    for item in db.scan_prefix(prefix.as_slice()) {
        match item {
            Ok((k, v)) => out.push((k.as_ref().to_vec(), v.as_ref().to_vec())),
            Err(e) => return Err(KvError::SledError(e.to_string())),
        }
    }
    Ok(out)
}

/// True when a string never uses the composite-key separator.
pub open spec fn colon_free(s: Seq<char>) -> bool {
    forall|i: int| 0 <= i < s.len() ==> (#[trigger] s[i]) != ':'
}

/// One scalar other than the separator encodes to bytes other than the
/// separator byte.
proof fn lemma_scalar_no_colon(sc: u32)
    requires
        sc != 58,
    ensures
        forall|j: int|
            0 <= j < vstd::utf8::encode_scalar(sc).len() ==> (#[trigger] vstd::utf8::encode_scalar(
                sc,
            )[j]) != 58u8,
{
    assert(sc < 0x80 && sc != 58 ==> (sc & 0x7F) as u8 != 58u8) by (bit_vector);
    assert((0xC0u8 | ((sc >> 6) & 0x1F) as u8) != 58u8) by (bit_vector);
    assert((0xE0u8 | ((sc >> 12) & 0x0F) as u8) != 58u8) by (bit_vector);
    assert((0xF0u8 | ((sc >> 18) & 0x7) as u8) != 58u8) by (bit_vector);
    assert((0x80u8 | (sc & 0x3F) as u8) != 58u8) by (bit_vector);
    assert((0x80u8 | ((sc >> 6) & 0x3F) as u8) != 58u8) by (bit_vector);
    assert((0x80u8 | ((sc >> 12) & 0x3F) as u8) != 58u8) by (bit_vector);
}

/// A separator-free string encodes to bytes without the separator byte.
proof fn lemma_utf8_no_colon(s: Seq<char>)
    requires
        colon_free(s),
    ensures
        forall|j: int| 0 <= j < encode_utf8(s).len() ==> (#[trigger] encode_utf8(s)[j]) != 58u8,
    decreases s.len(),
{
    if s.len() > 0 {
        assert(s[0] != ':');
        assert(s[0] as u32 != 58) by {
            if s[0] as u32 == 58 {
                vstd::utf8::char_u32_cast(s[0], 58);
                vstd::utf8::char_u32_cast(':', ':' as u32);
                assert(':' as u32 == 58);
            }
        }
        lemma_scalar_no_colon(s[0] as u32);
        assert(colon_free(s.drop_first())) by {
            assert forall|i: int| 0 <= i < s.drop_first().len() implies (
            #[trigger] s.drop_first()[i]) != ':' by {
                assert(s.drop_first()[i] == s[i + 1]);
            }
        }
        lemma_utf8_no_colon(s.drop_first());
        assert forall|j: int| 0 <= j < encode_utf8(s).len() implies (#[trigger] encode_utf8(
            s,
        )[j]) != 58u8 by {
            let head = vstd::utf8::encode_scalar(s[0] as u32);
            assert(encode_utf8(s) == head + encode_utf8(s.drop_first()));
            if j < head.len() {
                assert(encode_utf8(s)[j] == head[j]);
            } else {
                assert(encode_utf8(s)[j] == encode_utf8(s.drop_first())[j - head.len()]);
            }
        }
    }
}

/// A string using the separator encodes to bytes holding the separator byte.
proof fn lemma_colon_in_utf8(s: Seq<char>, i: int)
    requires
        0 <= i < s.len(),
        s[i] == ':',
    ensures
        exists|j: int| 0 <= j < encode_utf8(s).len() && (#[trigger] encode_utf8(s)[j]) == 58u8,
    decreases i,
{
    let head = vstd::utf8::encode_scalar(s[0] as u32);
    assert(encode_utf8(s) == head + encode_utf8(s.drop_first()));
    if i == 0 {
        assert(':' as u32 == 58);
        assert(vstd::utf8::has_width_1_encoding(58));
        assert(head == seq![vstd::utf8::leading_byte_width_1(58)]);
        assert((58u32 & 0x7F) as u8 == 58u8) by (bit_vector);
        assert(encode_utf8(s)[0] == 58u8);
    } else {
        assert(s.drop_first()[i - 1] == s[i]);
        lemma_colon_in_utf8(s.drop_first(), i - 1);
        let j = choose|j: int|
            0 <= j < encode_utf8(s.drop_first()).len() && (#[trigger] encode_utf8(
                s.drop_first(),
            )[j]) == 58u8;
        assert(encode_utf8(s)[head.len() + j] == 58u8);
    }
}

/// Two composite keys built from separator-free tables agree exactly when
/// their parts agree.
proof fn lemma_full_key_injective(t1: Seq<char>, k1: Seq<char>, t2: Seq<char>, k2: Seq<char>)
    requires
        colon_free(t1),
        colon_free(t2),
        full_key(t1, k1) == full_key(t2, k2),
    ensures
        t1 == t2,
        k1 == k2,
{
    let u1 = encode_utf8(t1);
    let u2 = encode_utf8(t2);
    let w1 = encode_utf8(k1);
    let w2 = encode_utf8(k2);
    let fk = full_key(t1, k1);
    lemma_utf8_no_colon(t1);
    lemma_utf8_no_colon(t2);
    assert(fk.len() == u1.len() + 1 + w1.len());
    assert(full_key(t2, k2).len() == u2.len() + 1 + w2.len());
    assert(fk[u1.len() as int] == 58u8) by {
        assert((u1 + seq![58u8] + w1)[u1.len() as int] == 58u8);
    }
    assert(fk[u2.len() as int] == 58u8) by {
        assert((u2 + seq![58u8] + w2)[u2.len() as int] == 58u8);
    }
    if u1.len() < u2.len() {
        assert(fk[u1.len() as int] == u2[u1.len() as int]) by {
            assert((u2 + seq![58u8] + w2)[u1.len() as int] == u2[u1.len() as int]);
        }
        assert(false);
    }
    if u2.len() < u1.len() {
        assert(fk[u2.len() as int] == u1[u2.len() as int]) by {
            assert((u1 + seq![58u8] + w1)[u2.len() as int] == u1[u2.len() as int]);
        }
        assert(false);
    }
    assert(u1.len() == u2.len());
    assert(u1 =~= u2) by {
        assert forall|j: int| 0 <= j < u1.len() implies u1[j] == u2[j] by {
            assert((u1 + seq![58u8] + w1)[j] == u1[j]);
            assert((u2 + seq![58u8] + w2)[j] == u2[j]);
        }
    }
    assert(w1 =~= w2) by {
        assert forall|j: int| 0 <= j < w1.len() implies w1[j] == w2[j] by {
            assert((u1 + seq![58u8] + w1)[u1.len() + 1 + j] == w1[j]);
            assert((u2 + seq![58u8] + w2)[u2.len() + 1 + j] == w2[j]);
        }
    }
    vstd::utf8::encode_utf8_decode_utf8(t1);
    vstd::utf8::encode_utf8_decode_utf8(t2);
    vstd::utf8::encode_utf8_decode_utf8(k1);
    vstd::utf8::encode_utf8_decode_utf8(k2);
}

/// Whether the table name uses the composite-key separator.
fn table_has_colon(table: &str) -> (r: bool)
    ensures
        r == !colon_free(table@),
{
    let b = table.as_bytes();
    let mut j: usize = 0;
    let n = b.len();
    while j < n
        invariant
            0 <= j <= n,
            n == b@.len(),
            b@ == encode_utf8(table@),
            forall|a: int| 0 <= a < j ==> (#[trigger] b@[a]) != 58u8,
        decreases n - j,
    {
        if b[j] == 58 {
            proof {
                if colon_free(table@) {
                    lemma_utf8_no_colon(table@);
                }
            }
            return true;
        }
        j = j + 1;
    }
    proof {
        if !colon_free(table@) {
            let i = choose|i: int| 0 <= i < table@.len() && (#[trigger] table@[i]) == ':';
            lemma_colon_in_utf8(table@, i);
        }
    }
    false
}

/// The on-disk key of one table entry: the table's bytes, a colon, the
/// key's bytes.
pub open spec fn full_key(t: Seq<char>, k: Seq<char>) -> Seq<u8> {
    encode_utf8(t) + seq![58u8] + encode_utf8(k)
}

/// The scan prefix of one table: the table's bytes and the colon.
pub open spec fn table_prefix(t: Seq<char>) -> Seq<u8> {
    encode_utf8(t) + seq![58u8]
}

/// A table-and-key read from raw tree contents.
pub open spec fn sled_lookup_m(c: Map<Seq<u8>, Seq<u8>>, t: Seq<char>, k: Seq<char>) -> Option<ValueV> {
    if colon_free(t) && c.contains_key(full_key(t, k)) {
        stored_value(c[full_key(t, k)])
    } else {
        Option::None
    }
}

/// Inserting one encoded value moves exactly one table-and-key read.
proof fn lemma_sled_write_pointwise(c0: Map<Seq<u8>, Seq<u8>>, c1: Map<Seq<u8>, Seq<u8>>, table: Seq<char>, key: Seq<char>, v: ValueV)
    requires
        colon_free(table),
        value_fits(v),
        c1 == c0.insert(full_key(table, key), value_enc(v)),
    ensures
        forall|t2: Seq<char>, k2: Seq<char>|
            #[trigger] sled_lookup_m(c1, t2, k2) == (if t2 == table && k2 == key {
                Option::Some(v)
            } else {
                sled_lookup_m(c0, t2, k2)
            }),
{
    assert(stored_value(value_enc(v)) == Option::Some(v)) by {
        crate::wire::lemma_value_enc_injective(
            v,
            choose|w: ValueV| value_fits(w) && value_enc(w) == value_enc(v),
        );
    }
    assert forall|t2: Seq<char>, k2: Seq<char>|
        #[trigger] sled_lookup_m(c1, t2, k2) == (if t2 == table && k2 == key {
            Option::Some(v)
        } else {
            sled_lookup_m(c0, t2, k2)
        }) by {
        if t2 == table && k2 == key {
        } else if colon_free(t2) {
            if full_key(t2, k2) == full_key(table, key) {
                lemma_full_key_injective(t2, k2, table, key);
            }
        }
    }
}

/// Removing one composite key clears exactly one table-and-key read.
proof fn lemma_sled_remove_pointwise(c0: Map<Seq<u8>, Seq<u8>>, c1: Map<Seq<u8>, Seq<u8>>, table: Seq<char>, key: Seq<char>)
    requires
        colon_free(table),
        c1 == c0.remove(full_key(table, key)),
    ensures
        forall|t2: Seq<char>, k2: Seq<char>|
            #[trigger] sled_lookup_m(c1, t2, k2) == (if t2 == table && k2 == key {
                Option::None::<ValueV>
            } else {
                sled_lookup_m(c0, t2, k2)
            }),
{
    assert forall|t2: Seq<char>, k2: Seq<char>|
        #[trigger] sled_lookup_m(c1, t2, k2) == (if t2 == table && k2 == key {
            Option::None::<ValueV>
        } else {
            sled_lookup_m(c0, t2, k2)
        }) by {
        if t2 == table && k2 == key {
        } else if colon_free(t2) {
            if full_key(t2, k2) == full_key(table, key) {
                lemma_full_key_injective(t2, k2, table, key);
            }
        }
    }
}

/// The persistent backend: one ordered log-structured tree, keyed by the
/// composite `table:key` scheme, holding each value in its wire encoding.
///
/// A table name holding the separator would collide with another table's
/// key space under this scheme, so writes to such a table are refused and
/// reads in it find nothing; that is what keeps tables isolated.
pub struct SledDb {
    db: sled::Db,
}

/// What stored bytes say, read back as a value: the value they encode, if
/// they encode one.
pub open spec fn stored_value(bytes: Seq<u8>) -> Option<ValueV> {
    if exists|v: ValueV| value_fits(v) && value_enc(v) == bytes {
        Option::Some(choose|v: ValueV| value_fits(v) && value_enc(v) == bytes)
    } else {
        Option::None
    }
}

/// Builds the composite key bytes for a table and key.
fn make_full_key(table: &str, key: &str) -> (r: Vec<u8>)
    ensures
        r@ == full_key(table@, key@),
{
    let mut out: Vec<u8> = Vec::new();
    crate::wire::encode_raw(table.as_bytes(), &mut out);
    out.push(58u8);
    crate::wire::encode_raw(key.as_bytes(), &mut out);
    proof {
        assert(out@ =~= full_key(table@, key@));
    }
    out
}

/// Builds the scan prefix bytes for a table.
fn make_prefix(table: &str) -> (r: Vec<u8>)
    ensures
        r@ == table_prefix(table@),
{
    let mut out: Vec<u8> = Vec::new();
    crate::wire::encode_raw(table.as_bytes(), &mut out);
    out.push(58u8);
    proof {
        assert(out@ =~= table_prefix(table@));
    }
    out
}

impl SledDb {
    /// Opens or creates the tree at the path; what it holds is whatever an
    /// earlier run left there.
    pub fn new(path: &str) -> (r: Result<SledDb, KvError>) {
        match sled_open(path) {
            Ok(db) => Ok(SledDb { db }),
            Err(e) => Err(e),
        }
    }
}

impl Storage for SledDb {
    closed spec fn st_lookup(&self, t: Seq<char>, k: Seq<char>) -> Option<ValueV> {
        sled_lookup_m(sled_contents(self.db), t, k)
    }

    open spec fn st_fallible() -> bool {
        true
    }

    fn get(&self, table: &str, key: &str) -> (r: Result<Option<Value>, KvError>)
        ensures
            !colon_free(table@) ==> r is Ok,
    {
        if table_has_colon(table) {
            return Ok(None);
        }
        let fk = make_full_key(table, key);
        match sled_get(&self.db, &fk) {
            Ok(Some(bytes)) => {
                match decode_value_at(bytes.as_slice(), 0) {
                    Ok((v, used)) => {
                        if used == bytes.len() {
                            proof {
                                assert(value_enc(v@) =~= bytes@);
                                assert(stored_value(bytes@) == Option::Some(v@)) by {
                                    crate::wire::lemma_value_enc_injective(
                                        v@,
                                        choose|w: ValueV|
                                            value_fits(w) && value_enc(w) == bytes@,
                                    );
                                }
                            }
                            Ok(Some(v))
                        } else {
                            Err(KvError::SledError("stored value is malformed".to_owned()))
                        }
                    },
                    Err(_) => Err(KvError::SledError("stored value is malformed".to_owned())),
                }
            },
            Ok(None) => Ok(None),
            Err(e) => Err(e),
        }
    }

    #[verifier::rlimit(100)]
    #[verifier::spinoff_prover]
    fn set(&mut self, table: &str, key: &str, value: Value) -> (r: Result<
        Option<Value>,
        KvError,
    >)
        ensures
            !colon_free(table@) ==> r is Err,
            value_enc(value@).len() >= 0x100000000 ==> r is Err,
    {
        if table_has_colon(table) {
            return Err(KvError::SledError("table name holds the separator".to_owned()));
        }
        let fk = make_full_key(table, key);
        let cl = crate::wire::value_capped_len(&value);
        if cl >= 0x100000000 {
            return Err(KvError::SledError("value too large to store".to_owned()));
        }
        let mut bytes: Vec<u8> = Vec::new();
        encode_value(&value, &mut bytes);
        match sled_insert(&mut self.db, &fk, bytes) {
            Ok(prevbytes) => {
                let prev = match prevbytes {
                    Some(pb) => {
                        match decode_value_at(pb.as_slice(), 0) {
                            Ok((v, used)) => {
                                if used == pb.len() {
                                    proof {
                                        assert(value_enc(v@) =~= pb@);
                                        assert(stored_value(pb@) == Option::Some(v@)) by {
                                            crate::wire::lemma_value_enc_injective(
                                                v@,
                                                choose|w: ValueV|
                                                    value_fits(w) && value_enc(w) == pb@,
                                            );
                                        }
                                    }
                                    Some(v)
                                } else {
                                    return Err(
                                        KvError::SledError("stored value is malformed".to_owned()),
                                    );
                                }
                            },
                            Err(_) => {
                                return Err(
                                    KvError::SledError("stored value is malformed".to_owned()),
                                );
                            },
                        }
                    },
                    None => None,
                };
                proof {
                    lemma_sled_write_pointwise(
                        sled_contents(old(self).db),
                        sled_contents(self.db),
                        table@,
                        key@,
                        value@,
                    );
                }
                Ok(prev)
            },
            Err(e) => Err(e),
        }
    }

    #[verifier::rlimit(100)]
    #[verifier::spinoff_prover]
    fn delete(&mut self, table: &str, key: &str) -> (r: Result<Option<Value>, KvError>)
        ensures
            !colon_free(table@) ==> r is Err,
    {
        if table_has_colon(table) {
            return Err(KvError::SledError("table name holds the separator".to_owned()));
        }
        let fk = make_full_key(table, key);
        match sled_remove(&mut self.db, &fk) {
            Ok(prevbytes) => {
                let prev = match prevbytes {
                    Some(pb) => {
                        match decode_value_at(pb.as_slice(), 0) {
                            Ok((v, used)) => {
                                if used == pb.len() {
                                    proof {
                                        assert(value_enc(v@) =~= pb@);
                                        assert(stored_value(pb@) == Option::Some(v@)) by {
                                            crate::wire::lemma_value_enc_injective(
                                                v@,
                                                choose|w: ValueV|
                                                    value_fits(w) && value_enc(w) == pb@,
                                            );
                                        }
                                    }
                                    Some(v)
                                } else {
                                    return Err(
                                        KvError::SledError("stored value is malformed".to_owned()),
                                    );
                                }
                            },
                            Err(_) => {
                                return Err(
                                    KvError::SledError("stored value is malformed".to_owned()),
                                );
                            },
                        }
                    },
                    None => None,
                };
                proof {
                    lemma_sled_remove_pointwise(
                        sled_contents(old(self).db),
                        sled_contents(self.db),
                        table@,
                        key@,
                    );
                }
                Ok(prev)
            },
            Err(e) => Err(e),
        }
    }

    fn contains(&self, table: &str, key: &str) -> (r: Result<bool, KvError>)
        ensures
            !colon_free(table@) ==> r is Ok,
    {
        match self.get(table, key) {
            Ok(Some(_)) => Ok(true),
            Ok(None) => Ok(false),
            Err(e) => Err(e),
        }
    }

    fn get_all(&self, table: &str) -> (r: Result<Vec<Kvpair>, KvError>)
        ensures
            !colon_free(table@) ==> r is Ok,
            r matches Ok(ps) ==> forall|a: int, b: int|
                0 <= a < b < ps@.len() ==> lex_lt(
                    encode_utf8(#[trigger] ps@[a]@.key),
                    encode_utf8(#[trigger] ps@[b]@.key),
                ),
    {
        match self.scan_table(table) {
            Ok(ps) => Ok(ps),
            Err(e) => Err(e),
        }
    }

    fn get_iter(&self, table: &str) -> (r: Result<StorageIter, KvError>)
        ensures
            !colon_free(table@) ==> r is Ok,
    {
        match self.scan_table(table) {
            Ok(ps) => {
                let ghost gps = ps@;
                let it = StorageIter::new(ps);
                proof {
                    let lk = |k: Seq<char>| self.st_lookup(table@, k);
                    crate::storage::lemma_snapshot_carries_over(lk, gps, it.remaining());
                    let rem = it.remaining();
                    assert forall|a: int| 0 <= a < rem.len() implies self.st_lookup(
                        table@,
                        #[trigger] rem[a].key,
                    ) == rem[a].value && (rem[a].value) is Some by {
                        assert(lk(rem[a].key) == rem[a].value);
                        assert((lk(rem[a].key)) is Some);
                    }
                    assert forall|k: Seq<char>| (#[trigger] self.st_lookup(table@, k)) is Some
                    implies exists|a: int| 0 <= a < rem.len() && rem[a].key == k by {
                        assert((lk(k)) is Some);
                    }
                }
                Ok(it)
            },
            Err(e) => Err(e),
        }
    }
}

impl SledDb {
    /// A snapshot of one table, rebuilt from a prefix scan: each composite
    /// key is stripped back to the caller's key. A stored key or value that
    /// does not parse surfaces as an error rather than an empty pair.
    fn scan_table(&self, table: &str) -> (r: Result<Vec<Kvpair>, KvError>)
        ensures
            !colon_free(table@) ==> r is Ok,
            r matches Ok(ps) ==> forall|a: int, b: int|
                0 <= a < b < ps@.len() ==> lex_lt(
                    encode_utf8(#[trigger] ps@[a]@.key),
                    encode_utf8(#[trigger] ps@[b]@.key),
                ),
            r matches Ok(ps) ==> {
                &&& forall|a: int|
                    0 <= a < ps@.len() ==> self.st_lookup(table@, #[trigger] ps@[a]@.key)
                        == ps@[a]@.value
                &&& forall|a: int| 0 <= a < ps@.len() ==> (#[trigger] ps@[a]@.value) is Some
                &&& forall|k: Seq<char>|
                    (#[trigger] self.st_lookup(table@, k)) is Some ==> exists|a: int|
                        0 <= a < ps@.len() && ps@[a]@.key == k
                &&& forall|a: int, b: int|
                    0 <= a < b < ps@.len() ==> (#[trigger] ps@[a]@.key) != (#[trigger] ps@[b]@.key)
            },
    {
        if table_has_colon(table) {
            let empty: Vec<Kvpair> = Vec::new();
            return Ok(empty);
        }
        let prefix = make_prefix(table);
        let found = match sled_scan_prefix(&self.db, &prefix) {
            Ok(found) => found,
            Err(e) => {
                return Err(e);
            },
        };
        let mut out: Vec<Kvpair> = Vec::new();
        let mut i: usize = 0;
        while i < found.len()
            invariant
                0 <= i <= found@.len(),
                colon_free(table@),
                prefix@ == table_prefix(table@),
                forall|a: int|
                    0 <= a < found@.len() ==> {
                        &&& has_prefix(#[trigger] found@[a].0@, table_prefix(table@))
                        &&& sled_contents(self.db).contains_key(found@[a].0@)
                        &&& sled_contents(self.db)[found@[a].0@] == found@[a].1@
                    },
                forall|k: Seq<u8>|
                    #[trigger] sled_contents(self.db).contains_key(k) && has_prefix(
                        k,
                        table_prefix(table@),
                    ) ==> exists|a: int| 0 <= a < found@.len() && found@[a].0@ == k,
                forall|a: int, b: int|
                    0 <= a < b < found@.len() ==> (#[trigger] found@[a].0@) != (
                    #[trigger] found@[b].0@),
                forall|a: int, b: int|
                    0 <= a < b < found@.len() ==> lex_lt(
                        #[trigger] found@[a].0@,
                        #[trigger] found@[b].0@,
                    ),
                out@.len() == i,
                forall|a: int|
                    0 <= a < i ==> full_key(table@, #[trigger] out@[a]@.key) == found@[a].0@,
                forall|a: int|
                    0 <= a < i ==> self.st_lookup(table@, #[trigger] out@[a]@.key)
                        == out@[a]@.value,
                forall|a: int| 0 <= a < i ==> (#[trigger] out@[a]@.value) is Some,
            decreases found@.len() - i,
        {
            let fkb = &found[i].0;
            let keylen = fkb.len() - prefix.len();
            let mut keybytes: Vec<u8> = Vec::new();
            let mut j: usize = 0;
            while j < keylen
                invariant
                    0 <= j <= keylen,
                    keylen == fkb@.len() - prefix@.len(),
                    prefix@.len() <= fkb@.len() <= usize::MAX,
                    keybytes@ =~= fkb@.subrange(prefix@.len() as int, prefix@.len() + j),
                decreases keylen - j,
            {
                keybytes.push(fkb[prefix.len() + j]);
                proof {
                    assert(fkb@.subrange(prefix@.len() as int, prefix@.len() + j) + seq![
                        fkb@[prefix@.len() + j],
                    ] =~= fkb@.subrange(prefix@.len() as int, prefix@.len() + j + 1));
                }
                j = j + 1;
            }
            let keystr = match crate::wire::bytes_to_string(keybytes) {
                Ok(st) => st,
                Err(_) => {
                    return Err(KvError::SledError("stored key is malformed".to_owned()));
                },
            };
            let valbytes = &found[i].1;
            let (val, used) = match decode_value_at(valbytes.as_slice(), 0) {
                Ok(q) => q,
                Err(_) => {
                    return Err(KvError::SledError("stored value is malformed".to_owned()));
                },
            };
            if used != valbytes.len() {
                return Err(KvError::SledError("stored value is malformed".to_owned()));
            }
            proof {
                assert(found@[i as int].0@ =~= full_key(table@, keystr@));
                assert(value_enc(val@) =~= found@[i as int].1@);
                assert(stored_value(found@[i as int].1@) == Option::Some(val@)) by {
                    crate::wire::lemma_value_enc_injective(
                        val@,
                        choose|w: ValueV| value_fits(w) && value_enc(w) == found@[i as int].1@,
                    );
                }
            }
            let p = Kvpair { key: keystr, value: Option::Some(val) };
            out.push(p);
            i = i + 1;
        }
        proof {
            assert forall|k: Seq<char>| (#[trigger] self.st_lookup(table@, k)) is Some implies
            exists|a: int| 0 <= a < out@.len() && out@[a]@.key == k by {
                assert(sled_contents(self.db).contains_key(full_key(table@, k)));
                assert(has_prefix(full_key(table@, k), table_prefix(table@))) by {
                    assert(full_key(table@, k).subrange(
                        0,
                        table_prefix(table@).len() as int,
                    ) =~= table_prefix(table@));
                }
                let a = choose|a: int|
                    0 <= a < found@.len() && #[trigger] found@[a].0@ == full_key(table@, k);
                assert(full_key(table@, out@[a]@.key) == full_key(table@, k));
                lemma_full_key_injective(table@, out@[a]@.key, table@, k);
            }
            assert forall|a: int, b: int| 0 <= a < b < out@.len() implies (
            #[trigger] out@[a]@.key) != (#[trigger] out@[b]@.key) by {
                if out@[a]@.key == out@[b]@.key {
                    assert(found@[a].0@ == found@[b].0@);
                }
            }
            assert forall|a: int, b: int| 0 <= a < b < out@.len() implies lex_lt(
                encode_utf8(#[trigger] out@[a]@.key),
                encode_utf8(#[trigger] out@[b]@.key),
            ) by {
                assert(full_key(table@, out@[a]@.key) =~= table_prefix(table@) + encode_utf8(
                    out@[a]@.key,
                ));
                assert(full_key(table@, out@[b]@.key) =~= table_prefix(table@) + encode_utf8(
                    out@[b]@.key,
                ));
                assert(lex_lt(found@[a].0@, found@[b].0@));
                lemma_lex_prefix_cancel(
                    table_prefix(table@),
                    encode_utf8(out@[a]@.key),
                    encode_utf8(out@[b]@.key),
                );
            }
        }
        Ok(out)
    }
}

} // verus!
