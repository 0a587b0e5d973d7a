//! A JSON value model: the tree the schema engine and the caster work
//! on. Objects are ordered key/value lists; numbers are integers, which
//! is all the schema constraints here compare.

use vstd::prelude::*;
use vstd::string::*;

use crate::strutil::str_eq;

verus! {

/// A JSON value. Objects keep their entries in insertion order; an
/// insert overwrites the first entry with the same key.
#[derive(Debug, PartialEq)]
pub enum Json {
    Null,
    Bool(bool),
    Int(i64),
    Str(String),
    Arr(Vec<Json>),
    Obj(Vec<(String, Json)>),
}

/// Mathematical form of a JSON value.
pub ghost enum JsonV {
    Null,
    Bool(bool),
    Int(i64),
    Str(Seq<char>),
    Arr(Seq<JsonV>),
    Obj(Seq<(Seq<char>, JsonV)>),
}

pub open spec fn jv(j: Json) -> JsonV
    decreases j,
{
    match j {
        Json::Null => JsonV::Null,
        Json::Bool(b) => JsonV::Bool(b),
        Json::Int(n) => JsonV::Int(n),
        Json::Str(s) => JsonV::Str(s@),
        Json::Arr(a) => JsonV::Arr(jv_seq(a@)),
        Json::Obj(o) => JsonV::Obj(jv_kvs(o@)),
    }
}

pub open spec fn jv_seq(s: Seq<Json>) -> Seq<JsonV>
    decreases s,
{
    if s.len() == 0 {
        Seq::empty()
    } else {
        seq![jv(s[0])] + jv_seq(s.drop_first())
    }
}

pub open spec fn jv_kvs(s: Seq<(String, Json)>) -> Seq<(Seq<char>, JsonV)>
    decreases s,
{
    if s.len() == 0 {
        Seq::empty()
    } else {
        seq![(s[0].0@, jv(s[0].1))] + jv_kvs(s.drop_first())
    }
}

impl View for Json {
    type V = JsonV;

    open spec fn view(&self) -> JsonV {
        jv(*self)
    }
}

pub proof fn lemma_jv_seq(s: Seq<Json>)
    ensures
        jv_seq(s).len() == s.len(),
        forall|i: int| 0 <= i < s.len() ==> jv_seq(s)[i] == jv(s[i]),
    decreases s.len(),
{
    if s.len() > 0 {
        lemma_jv_seq(s.drop_first());
    }
}

pub proof fn lemma_jv_kvs(s: Seq<(String, Json)>)
    ensures
        jv_kvs(s).len() == s.len(),
        forall|i: int|
            0 <= i < s.len() ==> jv_kvs(s)[i] == (s[i].0@, jv(s[i].1)),
    decreases s.len(),
{
    if s.len() > 0 {
        lemma_jv_kvs(s.drop_first());
    }
}



pub proof fn lemma_jv_seq_snoc(s: Seq<Json>)
    requires
        s.len() >= 1,
    ensures
        jv_seq(s) == jv_seq(s.drop_last()).push(jv(s.last())),
{
    lemma_jv_seq(s);
    lemma_jv_seq(s.drop_last());
    assert(jv_seq(s) =~= jv_seq(s.drop_last()).push(jv(s.last())));
}

pub proof fn lemma_jv_kvs_snoc(s: Seq<(String, Json)>)
    requires
        s.len() >= 1,
    ensures
        jv_kvs(s) == jv_kvs(s.drop_last()).push((s.last().0@, jv(s.last().1))),
{
    lemma_jv_kvs(s);
    lemma_jv_kvs(s.drop_last());
    assert(jv_kvs(s) =~= jv_kvs(s.drop_last()).push((s.last().0@, jv(s.last().1))));
}

/// Look a key up in an object's entries: the first match wins.
pub open spec fn jv_obj_get(o: Seq<(Seq<char>, JsonV)>, k: Seq<char>) -> Option<JsonV>
    decreases o.len(),
{
    if o.len() == 0 {
        None
    } else if o[0].0 == k {
        Some(o[0].1)
    } else {
        jv_obj_get(o.drop_first(), k)
    }
}

/// Bind a key in an object's entries: overwrite the first entry with
/// that key, or append a new entry.
pub open spec fn jv_obj_set(o: Seq<(Seq<char>, JsonV)>, k: Seq<char>, v: JsonV) -> Seq<
    (Seq<char>, JsonV),
>
    decreases o.len(),
{
    if o.len() == 0 {
        seq![(k, v)]
    } else if o[0].0 == k {
        seq![(k, v)] + o.drop_first()
    } else {
        seq![o[0]] + jv_obj_set(o.drop_first(), k, v)
    }
}

/// Drop every entry with the given key.
pub open spec fn jv_obj_remove(o: Seq<(Seq<char>, JsonV)>, k: Seq<char>) -> Seq<
    (Seq<char>, JsonV),
>
    decreases o.len(),
{
    if o.len() == 0 {
        o
    } else if o[0].0 == k {
        jv_obj_remove(o.drop_first(), k)
    } else {
        seq![o[0]] + jv_obj_remove(o.drop_first(), k)
    }
}

/// First match in an object held as exec entries.
#[verifier::loop_isolation(false)]
pub fn obj_get<'a>(o: &'a Vec<(String, Json)>, k: &str) -> (r: Option<&'a Json>)
    ensures
        match r {
            None => jv_obj_get(jv_kvs(o@), k@) is None,
            Some(v) => jv_obj_get(jv_kvs(o@), k@) == Some(v@),
        },
{
    let ghost kv = jv_kvs(o@);
    proof {
        lemma_jv_kvs(o@);
        assert(kv.skip(0) =~= kv);
    }
    let mut i: usize = 0;
    while i < o.len()
        invariant
            0 <= i <= o@.len(),
            kv == jv_kvs(o@),
            kv.len() == o@.len(),
            forall|j: int| 0 <= j < o@.len() ==> kv[j] == (o@[j].0@, jv(o@[j].1)),
            jv_obj_get(kv, k@) == jv_obj_get(kv.skip(i as int), k@),
            forall|j: int| 0 <= j < i ==> o@[j].0@ != k@,
        decreases o@.len() - i,
    {
        proof {
            assert(kv.skip(i as int)[0] == kv[i as int]);
        }
        if str_eq(o[i].0.as_str(), k) {
            proof {
                assert(o@[i as int].0@ == k@);
                assert(jv_obj_get(kv.skip(i as int), k@) == Some(kv[i as int].1));
            }
            return Some(&o[i].1);
        }
        proof {
            assert(kv.skip(i as int).drop_first() =~= kv.skip(i + 1));
        }
        i = i + 1;
    }
    proof {
        assert(kv.skip(o@.len() as int) =~= Seq::<(Seq<char>, JsonV)>::empty());
    }
    None
}

pub fn obj_has(o: &Vec<(String, Json)>, k: &str) -> (r: bool)
    ensures
        r == (jv_obj_get(jv_kvs(o@), k@) is Some),
{
    match obj_get(o, k) {
        Some(_) => true,
        None => false,
    }
}

/// Bind `k` to `v` in exec entries: overwrite the first entry with that
/// key, or push a new one.
#[verifier::loop_isolation(false)]
pub fn obj_set(o: &mut Vec<(String, Json)>, k: &str, v: Json)
    ensures
        jv_kvs(final (o)@) == jv_obj_set(jv_kvs(old(o)@), k@, v@),
{
    let ghost kv0 = jv_kvs(old(o)@);
    let ghost vv = v@;
    proof {
        lemma_jv_kvs(old(o)@);
    }
    let mut i: usize = 0;
    while i < o.len()
        invariant
            0 <= i <= o@.len(),
            o@ == old(o)@,
            forall|j: int| 0 <= j < i ==> o@[j].0@ != k@,
        decreases o@.len() - i,
    {
        if str_eq(o[i].0.as_str(), k) {
            let ghost idx = i as int;
            o.remove(i);
            o.insert(i, (k.to_owned(), v));
            proof {
                assert(o@ =~= old(o)@.update(idx, o@[idx]));
                assert(o@[idx].0@ == k@ && jv(o@[idx].1) == vv);
                lemma_jv_kvs(o@);
                lemma_obj_set_at(kv0, k@, vv, idx);
                assert(jv_kvs(o@) =~= kv0.update(idx, (k@, vv)));
            }
            return ;
        }
        i = i + 1;
    }
    o.push((k.to_owned(), v));
    proof {
        assert(o@.drop_last() == old(o)@);
        assert(o@.last().0@ == k@ && jv(o@.last().1) == vv);
        lemma_jv_kvs(o@);
        lemma_obj_set_absent(kv0, k@, vv);
        assert(jv_kvs(o@) =~= kv0.push((k@, vv)));
    }
}

/// When no entry holds the key, a set appends.
pub proof fn lemma_obj_set_absent(o: Seq<(Seq<char>, JsonV)>, k: Seq<char>, v: JsonV)
    requires
        forall|j: int| 0 <= j < o.len() ==> o[j].0 != k,
    ensures
        jv_obj_set(o, k, v) == o.push((k, v)),
    decreases o.len(),
{
    if o.len() == 0 {
        assert(jv_obj_set(o, k, v) =~= o.push((k, v)));
    } else {
        lemma_obj_set_absent(o.drop_first(), k, v);
        assert(seq![o[0]] + o.drop_first().push((k, v)) =~= o.push((k, v)));
    }
}

/// When the first entry with the key sits at `idx`, a set updates it in
/// place.
proof fn lemma_obj_set_at(o: Seq<(Seq<char>, JsonV)>, k: Seq<char>, v: JsonV, idx: int)
    requires
        0 <= idx < o.len(),
        o[idx].0 == k,
        forall|j: int| 0 <= j < idx ==> o[j].0 != k,
    ensures
        jv_obj_set(o, k, v) == o.update(idx, (k, v)),
    decreases idx,
{
    if idx == 0 {
        assert(seq![(k, v)] + o.drop_first() =~= o.update(0, (k, v)));
    } else {
        lemma_obj_set_at(o.drop_first(), k, v, idx - 1);
        assert(seq![o[0]] + o.drop_first().update(idx - 1, (k, v)) =~= o.update(idx, (k, v)));
    }
}

/// Remove every entry with the given key from exec entries.
#[verifier::loop_isolation(false)]
pub fn obj_remove(o: &mut Vec<(String, Json)>, k: &str)
    ensures
        jv_kvs(final (o)@) == jv_obj_remove(jv_kvs(old(o)@), k@),
{
    let ghost kv0 = jv_kvs(old(o)@);
    proof {
        lemma_jv_kvs(old(o)@);
    }
    let mut out: Vec<(String, Json)> = Vec::new();
    let mut i: usize = 0;
    proof {
        assert(kv0.take(0) =~= Seq::<(Seq<char>, JsonV)>::empty());
        assert(jv_kvs(out@) =~= jv_obj_remove(kv0.take(0), k@));
    }
    while i < o.len()
        invariant
            0 <= i <= o@.len(),
            o@ == old(o)@,
            kv0 == jv_kvs(o@),
            kv0.len() == o@.len(),
            forall|j: int| 0 <= j < o@.len() ==> kv0[j] == (o@[j].0@, jv(o@[j].1)),
            jv_kvs(out@) == jv_obj_remove(kv0.take(i as int), k@),
        decreases o@.len() - i,
    {
        proof {
            assert(kv0.take(i + 1).len() == i + 1);
            assert(kv0.take(i + 1).drop_last() =~= kv0.take(i as int));
            assert(kv0.take(i + 1).last() == kv0.take(i + 1)[i as int]);
            assert(kv0.take(i + 1)[i as int] == kv0[i as int]);
            lemma_obj_remove_snoc(kv0.take(i + 1), k@);
        }
        if !str_eq(o[i].0.as_str(), k) {
            let ghost outv0 = jv_kvs(out@);
            let ghost out_pre = out@;
            let entry = (o[i].0.clone(), o[i].1.clone_json());
            out.push(entry);
            proof {
                lemma_jv_kvs_snoc(out@);
                assert(out@.drop_last() =~= out_pre);
                assert(jv_kvs(out@) == outv0.push((o@[i as int].0@, jv(o@[i as int].1))));
            }
        }
        i = i + 1;
    }
    proof {
        assert(kv0.take(o@.len() as int) =~= kv0);
    }
    *o = out;
}

/// Removing from a sequence extended by one entry keeps or drops that
/// entry by its key.
proof fn lemma_obj_remove_snoc(o: Seq<(Seq<char>, JsonV)>, k: Seq<char>)
    requires
        o.len() >= 1,
    ensures
        jv_obj_remove(o, k) == if o.last().0 == k {
            jv_obj_remove(o.drop_last(), k)
        } else {
            jv_obj_remove(o.drop_last(), k).push(o.last())
        },
    decreases o.len(),
{
    if o.len() == 1 {
        assert(o.drop_last() =~= Seq::<(Seq<char>, JsonV)>::empty());
        if o[0].0 == k {
        } else {
            assert(seq![o[0]] + jv_obj_remove(o.drop_first(), k) =~= Seq::<
                (Seq<char>, JsonV),
            >::empty().push(o.last()));
        }
    } else {
        lemma_obj_remove_snoc(o.drop_first(), k);
        assert(o.drop_first().drop_last() =~= o.drop_last().drop_first());
        assert(o.drop_first().last() == o.last());
        if o.last().0 == k {
            if o[0].0 == k {
            } else {
                assert(o.drop_last()[0] == o[0]);
                assert(seq![o[0]] + jv_obj_remove(o.drop_last().drop_first(), k) =~= jv_obj_remove(
                    o.drop_last(),
                    k,
                ));
            }
        } else {
            if o[0].0 == k {
            } else {
                assert(o.drop_last()[0] == o[0]);
                assert(seq![o[0]] + jv_obj_remove(o.drop_last().drop_first(), k).push(o.last())
                    =~= (seq![o[0]] + jv_obj_remove(o.drop_last().drop_first(), k)).push(o.last()));
                assert(seq![o[0]] + jv_obj_remove(o.drop_last().drop_first(), k) =~= jv_obj_remove(
                    o.drop_last(),
                    k,
                ));
            }
        }
    }
}

impl Json {
    /// A structural copy whose mathematical value equals this one's.
    #[verifier::loop_isolation(false)]
    pub fn clone_json(&self) -> (r: Json)
        ensures
            r@ == self@,
        decreases self,
    {
        match self {
            Json::Null => Json::Null,
            Json::Bool(b) => Json::Bool(*b),
            Json::Int(n) => Json::Int(*n),
            Json::Str(s) => Json::Str(s.clone()),
            Json::Arr(a) => {
                let mut out: Vec<Json> = Vec::new();
                let mut i: usize = 0;
                proof {
                    lemma_jv_seq(a@);
                }
                while i < a.len()
                    invariant
                        0 <= i <= a@.len(),
                        jv_seq(out@) == jv_seq(a@).take(i as int),
                        jv_seq(out@).len() == i,
                    decreases a@.len() - i,
                {
                    proof {
                        lemma_jv_seq(a@);
                        lemma_jv_seq(out@);
                    }
                    let ghost outv0 = jv_seq(out@);
                    proof {
                        assert(*self == Json::Arr(*a));
                        assert(decreases_to!(Json::Arr(*a) => *a));
                        assert(decreases_to!(*a => a@));
                        assert(decreases_to!(a@ => a@[i as int]));
                        assert(decreases_to!(*self => a@[i as int]));
                    }
                    let ghost out_pre = out@;
                    let c = a[i].clone_json();
                    out.push(c);
                    proof {
                        lemma_jv_seq_snoc(out@);
                        assert(out@.drop_last() =~= out_pre);
                        assert(jv_seq(out@) == outv0.push(jv(a@[i as int])));
                        assert(jv_seq(a@).take(i + 1) =~= jv_seq(a@).take(i as int).push(
                            jv_seq(a@)[i as int],
                        ));
                    }
                    i = i + 1;
                }
                proof {
                    lemma_jv_seq(a@);
                    assert(jv_seq(a@).take(a@.len() as int) =~= jv_seq(a@));
                }
                Json::Arr(out)
            },
            Json::Obj(o) => {
                let mut out: Vec<(String, Json)> = Vec::new();
                let mut i: usize = 0;
                proof {
                    lemma_jv_kvs(o@);
                }
                while i < o.len()
                    invariant
                        0 <= i <= o@.len(),
                        jv_kvs(out@) == jv_kvs(o@).take(i as int),
                        jv_kvs(out@).len() == i,
                    decreases o@.len() - i,
                {
                    proof {
                        lemma_jv_kvs(o@);
                        lemma_jv_kvs(out@);
                    }
                    let ghost outv0 = jv_kvs(out@);
                    proof {
                        assert(*self == Json::Obj(*o));
                        assert(decreases_to!(Json::Obj(*o) => *o));
                        assert(decreases_to!(*o => o@));
                        assert(decreases_to!(o@ => o@[i as int]));
                        assert(decreases_to!(o@[i as int] => o@[i as int].1));
                        assert(decreases_to!(*self => o@[i as int].1));
                    }
                    let ghost out_pre = out@;
                    let c = (o[i].0.clone(), o[i].1.clone_json());
                    out.push(c);
                    proof {
                        lemma_jv_kvs_snoc(out@);
                        assert(out@.drop_last() =~= out_pre);
                        assert(jv_kvs(out@) == outv0.push((o@[i as int].0@, jv(o@[i as int].1))));
                        assert(jv_kvs(o@).take(i + 1) =~= jv_kvs(o@).take(i as int).push(
                            jv_kvs(o@)[i as int],
                        ));
                    }
                    i = i + 1;
                }
                proof {
                    lemma_jv_kvs(o@);
                    assert(jv_kvs(o@).take(o@.len() as int) =~= jv_kvs(o@));
                }
                Json::Obj(out)
            },
        }
    }
}

} // verus!
