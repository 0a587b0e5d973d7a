//! Schema flattening: merging a schema's `allOf` fragments into a single
//! top-level `properties` / `required` / `additionalProperties` view.
//! Recursion into composed schemas is bounded at a fixed depth, past which
//! a fragment contributes nothing.

use vstd::prelude::*;
use vstd::string::*;

use crate::strutil::{dec_of_i64, i64_to_dec, str_eq, string_views};
use crate::json::{
    jv, jv_kvs, jv_obj_get, jv_obj_set, jv_seq, lemma_jv_kvs, lemma_jv_seq, obj_get, Json, JsonV,
};

verus! {

/// The bound on schema nesting depth.
pub open spec fn max_depth() -> nat {
    64
}

pub open spec fn opt_jv(a: Option<Json>) -> Option<JsonV> {
    match a {
        None => None,
        Some(x) => Some(x@),
    }
}

/// The flattened shape: `properties`, `required`, and
/// `additionalProperties` when one was seen.
pub open spec fn flat_of(
    props: Seq<(Seq<char>, JsonV)>,
    req: Seq<JsonV>,
    addl: Option<JsonV>,
) -> JsonV {
    let base = seq![("properties"@, JsonV::Obj(props)), ("required"@, JsonV::Arr(req))];
    match addl {
        None => JsonV::Obj(base),
        Some(a) => JsonV::Obj(base + seq![("additionalProperties"@, a)]),
    }
}

/// Merge a source property map into a destination, later entries
/// overwriting earlier ones key by key.
pub open spec fn merge_props(
    dst: Seq<(Seq<char>, JsonV)>,
    src: Seq<(Seq<char>, JsonV)>,
) -> Seq<(Seq<char>, JsonV)>
    decreases src.len(),
{
    if src.len() == 0 {
        dst
    } else {
        merge_props(jv_obj_set(dst, src[0].0, src[0].1), src.drop_first())
    }
}

/// Fold one (already flattened) fragment into the running state: its
/// properties overwrite, its required names append, its
/// `additionalProperties` value replaces.
pub open spec fn merge_flat_state(
    props: Seq<(Seq<char>, JsonV)>,
    req: Seq<JsonV>,
    addl: Option<JsonV>,
    flat: JsonV,
) -> (Seq<(Seq<char>, JsonV)>, Seq<JsonV>, Option<JsonV>) {
    match flat {
        JsonV::Obj(fo) => {
            let p1 = match jv_obj_get(fo, "properties"@) {
                Some(JsonV::Obj(p)) => merge_props(props, p),
                _ => props,
            };
            let r1 = match jv_obj_get(fo, "required"@) {
                Some(JsonV::Arr(rs)) => req + rs,
                _ => req,
            };
            let a1 = match jv_obj_get(fo, "additionalProperties"@) {
                Some(a) => Some(a),
                None => addl,
            };
            (p1, r1, a1)
        },
        _ => (props, req, addl),
    }
}

/// Flatten every entry of an `allOf` list from position `i` on into the
/// running state.
pub open spec fn spec_fold_allof(
    arr: Seq<JsonV>,
    i: int,
    props: Seq<(Seq<char>, JsonV)>,
    req: Seq<JsonV>,
    addl: Option<JsonV>,
    depth: nat,
) -> (Seq<(Seq<char>, JsonV)>, Seq<JsonV>, Option<JsonV>)
    decreases depth, arr.len() - i + 1,
{
    if i < 0 || i >= arr.len() {
        (props, req, addl)
    } else {
        let flat = spec_flatten(arr[i], depth);
        let st = merge_flat_state(props, req, addl, flat);
        spec_fold_allof(arr, i + 1, st.0, st.1, st.2, depth)
    }
}

/// The merged components of a flattened schema: `allOf` fragments in
/// order, then the schema's own `properties`, `required` and
/// `additionalProperties`. A non-object contributes the empty shape;
/// past the depth bound a fragment contributes nothing.
pub open spec fn spec_flatten_parts(s: JsonV, depth: nat) -> (
    Seq<(Seq<char>, JsonV)>,
    Seq<JsonV>,
    Option<JsonV>,
)
    decreases depth, 0int,
{
    if depth == 0 {
        (Seq::<(Seq<char>, JsonV)>::empty(), Seq::<JsonV>::empty(), None::<JsonV>)
    } else {
        match s {
            JsonV::Obj(o) => {
                let st1 = match jv_obj_get(o, "allOf"@) {
                    Some(JsonV::Arr(arr)) => spec_fold_allof(
                        arr,
                        0,
                        Seq::empty(),
                        Seq::empty(),
                        None,
                        (depth - 1) as nat,
                    ),
                    _ => (Seq::<(Seq<char>, JsonV)>::empty(), Seq::<JsonV>::empty(), None::<JsonV>),
                };
                merge_flat_state(st1.0, st1.1, st1.2, s)
            },
            _ => (Seq::<(Seq<char>, JsonV)>::empty(), Seq::<JsonV>::empty(), None::<JsonV>),
        }
    }
}

/// The mathematical flattener: the merged components as one three-key
/// object.
pub open spec fn spec_flatten(s: JsonV, depth: nat) -> JsonV
    decreases depth, 1int,
{
    let st = spec_flatten_parts(s, depth);
    flat_of(st.0, st.1, st.2)
}

/// Merge one (already flattened) fragment into the running exec state.
#[verifier::loop_isolation(false)]
fn merge_flat_exec(
    props: &mut Vec<(String, Json)>,
    req: &mut Vec<Json>,
    addl: &mut Option<Json>,
    flat: &Json,
)
    ensures
        ({
            let st = merge_flat_state(
                jv_kvs(old(props)@),
                jv_seq(old(req)@),
                opt_jv(*old(addl)),
                flat@,
            );
            jv_kvs(final (props)@) == st.0 && jv_seq(final (req)@) == st.1 && opt_jv(*final (addl))
                == st.2
        }),
{
    let fo = match flat {
        Json::Obj(fo) => fo,
        _ => {
            return ;
        },
    };
    match obj_get(fo, "properties") {
        Some(pv) => match pv {
            Json::Obj(p) => {
                proof {
                    lemma_jv_kvs(p@);
                }
                let ghost pvv = jv_kvs(p@);
                proof {
                    assert(pvv.skip(0) =~= pvv);
                }
                let mut j: usize = 0;
                while j < p.len()
                    invariant
                        0 <= j <= p@.len(),
                        merge_props(jv_kvs(props@), pvv.skip(j as int)) == merge_props(
                            jv_kvs(old(props)@),
                            pvv,
                        ),
                    decreases p@.len() - j,
                {
                    proof {
                        assert(pvv.skip(j as int)[0] == pvv[j as int]);
                        assert(pvv.skip(j as int).drop_first() =~= pvv.skip(j + 1));
                    }
                    crate::json::obj_set(props, p[j].0.as_str(), p[j].1.clone_json());
                    j = j + 1;
                }
                proof {
                    assert(pvv.skip(p@.len() as int) =~= Seq::<(Seq<char>, JsonV)>::empty());
                }
            },
            _ => {},
        },
        None => {},
    }
    match obj_get(fo, "required") {
        Some(rv) => match rv {
            Json::Arr(rs) => {
                proof {
                    lemma_jv_seq(rs@);
                }
                let ghost rsv = jv_seq(rs@);
                let ghost req0 = jv_seq(req@);
                proof {
                    assert(req0 + rsv.take(0) =~= req0);
                }
                let mut j: usize = 0;
                while j < rs.len()
                    invariant
                        0 <= j <= rs@.len(),
                        jv_seq(req@) == req0 + rsv.take(j as int),
                    decreases rs@.len() - j,
                {
                    let ghost pre = req@;
                    req.push(rs[j].clone_json());
                    proof {
                        crate::json::lemma_jv_seq_snoc(req@);
                        assert(req@.drop_last() =~= pre);
                        assert(req0 + rsv.take(j + 1) =~= (req0 + rsv.take(j as int)).push(
                            rsv[j as int],
                        ));
                    }
                    j = j + 1;
                }
                proof {
                    assert(rsv.take(rs@.len() as int) =~= rsv);
                }
            },
            _ => {
                proof {
                    assert(jv_seq(req@) + Seq::<JsonV>::empty() =~= jv_seq(req@));
                }
            },
        },
        None => {},
    }
    match obj_get(fo, "additionalProperties") {
        Some(av) => {
            *addl = Some(av.clone_json());
        },
        None => {},
    }
    proof {
        match jv_obj_get(jv_kvs(fo@), "required"@) {
            Some(JsonV::Arr(rs0)) => {},
            _ => {
                assert(jv_seq(req@) + Seq::<JsonV>::empty() =~= jv_seq(req@));
            },
        }
    }
}

/// Assemble the flattened object.
fn assemble_flat(props: Vec<(String, Json)>, req: Vec<Json>, addl: Option<Json>) -> (r: Json)
    ensures
        r@ == flat_of(jv_kvs(props@), jv_seq(req@), opt_jv(addl)),
{
    let ghost pv = jv_kvs(props@);
    let ghost rv = jv_seq(req@);
    let mut entries: Vec<(String, Json)> = Vec::new();
    entries.push(("properties".to_owned(), Json::Obj(props)));
    entries.push(("required".to_owned(), Json::Arr(req)));
    match addl {
        None => {
            let r = Json::Obj(entries);
            proof {
                lemma_jv_kvs(entries@);
                assert(jv_kvs(entries@) =~= seq![
                    ("properties"@, JsonV::Obj(pv)),
                    ("required"@, JsonV::Arr(rv)),
                ]);
            }
            r
        },
        Some(a) => {
            let ghost av = a@;
            entries.push(("additionalProperties".to_owned(), a));
            let r = Json::Obj(entries);
            proof {
                lemma_jv_kvs(entries@);
                assert(jv_kvs(entries@) =~= seq![
                    ("properties"@, JsonV::Obj(pv)),
                    ("required"@, JsonV::Arr(rv)),
                ] + seq![("additionalProperties"@, av)]);
            }
            r
        },
    }
}

/// Flatten a schema: merge its `allOf` fragments and its own
/// `properties`, `required` and `additionalProperties` into one
/// three-key object.
///
/// Flattening returns a value, not a result, so its recursion bound
/// cannot surface as an error here: an `allOf` fragment nested beyond
/// the bound contributes nothing, exactly as the contract states. The
/// casting and compatibility entry points, which do have an error
/// channel, report their own bound.
pub fn flatten_schema(schema: &Json) -> (r: Json)
    ensures
        r@ == spec_flatten(schema@, max_depth()),
{
    flatten_rec(schema, 64)
}

#[verifier::loop_isolation(false)]
fn flatten_rec(schema: &Json, depth: u32) -> (r: Json)
    ensures
        r@ == spec_flatten(schema@, depth as nat),
    decreases depth,
{
    let mut props: Vec<(String, Json)> = Vec::new();
    let mut req: Vec<Json> = Vec::new();
    let mut addl: Option<Json> = None;
    proof {
        assert(jv_kvs(props@) =~= Seq::<(Seq<char>, JsonV)>::empty());
        assert(jv_seq(req@) =~= Seq::<JsonV>::empty());
    }
    if depth == 0 {
        return assemble_flat(props, req, addl);
    }
    let o = match schema {
        Json::Obj(o) => o,
        _ => {
            return assemble_flat(props, req, addl);
        },
    };
    match obj_get(o, "allOf") {
        Some(all_of) => match all_of {
            Json::Arr(arr) => {
                proof {
                    lemma_jv_seq(arr@);
                }
                let ghost arrv = jv_seq(arr@);
                let mut j: usize = 0;
                while j < arr.len()
                    invariant
                        0 <= j <= arr@.len(),
                        spec_fold_allof(
                            arrv,
                            j as int,
                            jv_kvs(props@),
                            jv_seq(req@),
                            opt_jv(addl),
                            (depth - 1) as nat,
                        ) == spec_fold_allof(
                            arrv,
                            0,
                            Seq::empty(),
                            Seq::empty(),
                            None,
                            (depth - 1) as nat,
                        ),
                    decreases arr@.len() - j,
                {
                    let flat = flatten_rec(&arr[j], depth - 1);
                    merge_flat_exec(&mut props, &mut req, &mut addl, &flat);
                    j = j + 1;
                }
            },
            _ => {},
        },
        None => {},
    }
    merge_flat_exec(&mut props, &mut req, &mut addl, schema);
    assemble_flat(props, req, addl)
}

// ---------------------------------------------------------------------
// Directional compatibility
// ---------------------------------------------------------------------
/// The entries of an object value, if it is one.
pub open spec fn entries_of(v: JsonV) -> Option<Seq<(Seq<char>, JsonV)>> {
    match v {
        JsonV::Obj(o) => Some(o),
        _ => None,
    }
}

/// Reading a key on a non-object gives nothing, as on a JSON value.
pub open spec fn jv_get(v: JsonV, k: Seq<char>) -> Option<JsonV> {
    match v {
        JsonV::Obj(o) => jv_obj_get(o, k),
        _ => None,
    }
}

pub open spec fn jv_get_str(v: JsonV, k: Seq<char>) -> Option<Seq<char>> {
    match jv_get(v, k) {
        Some(JsonV::Str(s)) => Some(s),
        _ => None,
    }
}

pub open spec fn jv_get_int(v: JsonV, k: Seq<char>) -> Option<i64> {
    match jv_get(v, k) {
        Some(JsonV::Int(n)) => Some(n),
        _ => None,
    }
}

pub open spec fn jv_get_arr(v: JsonV, k: Seq<char>) -> Option<Seq<JsonV>> {
    match jv_get(v, k) {
        Some(JsonV::Arr(a)) => Some(a),
        _ => None,
    }
}

/// The string members of an array, in order.
pub open spec fn str_items_from(rs: Seq<JsonV>, i: int) -> Seq<Seq<char>>
    decreases rs.len() - i,
{
    if i < 0 || i >= rs.len() {
        Seq::empty()
    } else {
        (match rs[i] {
            JsonV::Str(s) => seq![s],
            _ => Seq::empty(),
        }) + str_items_from(rs, i + 1)
    }
}

pub open spec fn contains_str(s: Seq<Seq<char>>, x: Seq<char>) -> bool {
    exists|i: int| 0 <= i < s.len() && s[i] == x
}

/// The members of `a` that are not in `b`, first occurrences only, in
/// the order they appear in `a`.
pub open spec fn sel_diff_from(a: Seq<Seq<char>>, b: Seq<Seq<char>>, i: int) -> Seq<Seq<char>>
    decreases a.len() - i,
{
    if i < 0 || i >= a.len() {
        Seq::empty()
    } else {
        (if !contains_str(b, a[i]) && !contains_str(a.take(i), a[i]) {
            seq![a[i]]
        } else {
            Seq::empty()
        }) + sel_diff_from(a, b, i + 1)
    }
}

/// The members joined with `", "`.
pub open spec fn join_comma_from(s: Seq<Seq<char>>, i: int) -> Seq<char>
    decreases s.len() - i,
{
    if i < 0 || i >= s.len() {
        Seq::empty()
    } else if i == s.len() - 1 {
        s[i]
    } else {
        s[i] + ", "@ + join_comma_from(s, i + 1)
    }
}

/// How the standard `Debug` formatting renders a string: quoted, with
/// quotes, backslashes and non-printable characters escaped.
pub uninterp spec fn debug_str_of(s: Seq<char>) -> Seq<char>;

/// Relies on the standard `Debug` formatting for `str`: a quoted, escaped
/// rendering that is a function of the string's characters alone.
#[verifier::external_body]
pub fn str_debug(s: &str) -> (r: String)
    ensures
        r@ == debug_str_of(s@),
{
    format!("{:?}", s)
}

/// The members in their `Debug` rendering, joined with `", "`: how a
/// list of strings is rendered in diagnostics.
pub open spec fn quoted_join_from(s: Seq<Seq<char>>, i: int) -> Seq<char>
    decreases s.len() - i,
{
    if i < 0 || i >= s.len() {
        Seq::empty()
    } else if i == s.len() - 1 {
        debug_str_of(s[i])
    } else {
        debug_str_of(s[i]) + ", "@ + quoted_join_from(s, i + 1)
    }
}

pub open spec fn debug_list(s: Seq<Seq<char>>) -> Seq<char> {
    "["@ + quoted_join_from(s, 0) + "]"@
}

/// The diagnostics for one min-like or max-like bound of a property.
pub open spec fn bound_errs(
    prop: Seq<char>,
    key: Seq<char>,
    o: Option<i64>,
    n: Option<i64>,
    tight: bool,
    is_min: bool,
) -> Seq<Seq<char>> {
    match (o, n) {
        (Some(ov), Some(nv)) => {
            let grew = nv > ov;
            let shrank = nv < ov;
            if tight && (if is_min {
                grew
            } else {
                shrank
            }) {
                if grew {
                    seq![
                        "Property '"@ + prop + "' "@ + key + " increased from "@ + dec_of_i64(
                            ov as int,
                        ) + " to "@ + dec_of_i64(nv as int),
                    ]
                } else {
                    seq![
                        "Property '"@ + prop + "' "@ + key + " decreased from "@ + dec_of_i64(
                            ov as int,
                        ) + " to "@ + dec_of_i64(nv as int),
                    ]
                }
            } else if !tight && (if is_min {
                shrank
            } else {
                grew
            }) {
                if grew {
                    seq![
                        "Property '"@ + prop + "' "@ + key + " increased from "@ + dec_of_i64(
                            ov as int,
                        ) + " to "@ + dec_of_i64(nv as int),
                    ]
                } else {
                    seq![
                        "Property '"@ + prop + "' "@ + key + " decreased from "@ + dec_of_i64(
                            ov as int,
                        ) + " to "@ + dec_of_i64(nv as int),
                    ]
                }
            } else {
                Seq::empty()
            }
        },
        (None, Some(nv)) => {
            if tight {
                seq![
                    "Property '"@ + prop + "' added "@ + key + " constraint: "@ + dec_of_i64(
                        nv as int,
                    ),
                ]
            } else {
                Seq::empty()
            }
        },
        (Some(_), None) => {
            if !tight {
                seq!["Property '"@ + prop + "' removed "@ + key + " constraint"@]
            } else {
                Seq::empty()
            }
        },
        (None, None) => Seq::empty(),
    }
}

/// Bound diagnostics for one (min key, max key) pair.
pub open spec fn min_max_errs(
    prop: Seq<char>,
    po: JsonV,
    pn: JsonV,
    min_key: Seq<char>,
    max_key: Seq<char>,
    tight: bool,
) -> Seq<Seq<char>> {
    bound_errs(prop, min_key, jv_get_int(po, min_key), jv_get_int(pn, min_key), tight, true)
        + bound_errs(prop, max_key, jv_get_int(po, max_key), jv_get_int(pn, max_key), tight, false)
}

/// Constraint diagnostics by the old side's declared type.
pub open spec fn constraint_errs(prop: Seq<char>, po: JsonV, pn: JsonV, tight: bool) -> Seq<
    Seq<char>,
> {
    match jv_get_str(po, "type"@) {
        Some(t) => {
            if t == "number"@ || t == "integer"@ {
                min_max_errs(prop, po, pn, "minimum"@, "maximum"@, tight)
            } else if t == "string"@ {
                min_max_errs(prop, po, pn, "minLength"@, "maxLength"@, tight)
            } else if t == "array"@ {
                min_max_errs(prop, po, pn, "minItems"@, "maxItems"@, tight)
            } else {
                Seq::empty()
            }
        },
        None => Seq::empty(),
    }
}

/// Type-change and enum diagnostics for one property present on both
/// sides.
pub open spec fn prop_local_errs(prop: Seq<char>, po: JsonV, pn: JsonV, backward: bool) -> Seq<
    Seq<char>,
> {
    let type_errs: Seq<Seq<char>> = match (jv_get_str(po, "type"@), jv_get_str(pn, "type"@)) {
        (Some(ot), Some(nt)) => {
            if ot != nt {
                seq!["Property '"@ + prop + "' type changed from "@ + ot + " to "@ + nt]
            } else {
                Seq::empty()
            }
        },
        _ => Seq::empty(),
    };
    let enum_errs: Seq<Seq<char>> = match (jv_get_arr(po, "enum"@), jv_get_arr(pn, "enum"@)) {
        (Some(oe), Some(ne)) => {
            let os = str_items_from(oe, 0);
            let ns = str_items_from(ne, 0);
            if backward {
                let d = sel_diff_from(ns, os, 0);
                if d.len() > 0 {
                    seq!["Property '"@ + prop + "' added enum values: "@ + debug_list(d)]
                } else {
                    Seq::empty()
                }
            } else {
                let d = sel_diff_from(os, ns, 0);
                if d.len() > 0 {
                    seq!["Property '"@ + prop + "' removed enum values: "@ + debug_list(d)]
                } else {
                    Seq::empty()
                }
            }
        },
        _ => Seq::empty(),
    };
    let con_errs: Seq<Seq<char>> = match (entries_of(po), entries_of(pn)) {
        (Some(_), Some(_)) => constraint_errs(prop, po, pn, backward),
        _ => Seq::empty(),
    };
    type_errs + enum_errs + con_errs
}

pub open spec fn prefix_errs(prop: Seq<char>, errs: Seq<Seq<char>>) -> Seq<Seq<char>> {
    errs.map_values(|e: Seq<char>| "Property '"@ + prop + "': "@ + e)
}

/// The required-set diagnostic: names required on one side only.
pub open spec fn req_errs(
    old_req: Seq<Seq<char>>,
    new_req: Seq<Seq<char>>,
    backward: bool,
) -> Seq<Seq<char>> {
    if backward {
        let d = sel_diff_from(new_req, old_req, 0);
        if d.len() > 0 {
            seq!["Added required properties: "@ + join_comma_from(d, 0)]
        } else {
            Seq::empty()
        }
    } else {
        let d = sel_diff_from(old_req, new_req, 0);
        if d.len() > 0 {
            seq!["Removed required properties: "@ + join_comma_from(d, 0)]
        } else {
            Seq::empty()
        }
    }
}

/// Walk the old property map in order; for every property the new map
/// also declares, collect its diagnostics, recursing into object-typed
/// properties.
pub open spec fn spec_compat_walk(
    op: Seq<(Seq<char>, JsonV)>,
    np: Seq<(Seq<char>, JsonV)>,
    i: int,
    backward: bool,
    depth: nat,
) -> Seq<Seq<char>>
    decreases depth, 0nat, op.len() - i,
{
    if i < 0 || i >= op.len() {
        Seq::empty()
    } else {
        let prop = op[i].0;
        let po = op[i].1;
        let here: Seq<Seq<char>> = match jv_obj_get(np, prop) {
            Some(pn) => prop_local_errs(prop, po, pn, backward) + (if jv_get_str(po, "type"@)
                == Some("object"@) && jv_get_str(pn, "type"@) == Some("object"@) && depth > 0 {
                prefix_errs(prop, spec_compat(po, pn, backward, (depth - 1) as nat))
            } else {
                Seq::empty()
            }),
            None => Seq::empty(),
        };
        here + spec_compat_walk(op, np, i + 1, backward, depth)
    }
}

/// The mathematical compatibility checker: flatten both sides, report the
/// required-set difference, then every property diagnostic in old-map
/// order. Past the depth bound the single diagnostic reports the nesting.
pub open spec fn spec_compat(old: JsonV, new: JsonV, backward: bool, depth: nat) -> Seq<Seq<char>>
    decreases depth, 1nat, 0nat,
{
    if depth == 0 {
        seq!["Maximum schema nesting depth exceeded"@]
    } else {
        let of = spec_flatten(old, max_depth());
        let nf = spec_flatten(new, max_depth());
        let op = match jv_get(of, "properties"@) {
            Some(JsonV::Obj(p)) => p,
            _ => Seq::empty(),
        };
        let np = match jv_get(nf, "properties"@) {
            Some(JsonV::Obj(p)) => p,
            _ => Seq::empty(),
        };
        let oreq = match jv_get(of, "required"@) {
            Some(JsonV::Arr(a)) => str_items_from(a, 0),
            _ => Seq::empty(),
        };
        let nreq = match jv_get(nf, "required"@) {
            Some(JsonV::Arr(a)) => str_items_from(a, 0),
            _ => Seq::empty(),
        };
        req_errs(oreq, nreq, backward) + spec_compat_walk(op, np, 0, backward, depth)
    }
}

// ---------------------------------------------------------------------
// Exec mirror of the compatibility checker
// ---------------------------------------------------------------------
pub fn jv_get_exec<'a>(v: &'a Json, k: &str) -> (r: Option<&'a Json>)
    ensures
        match r {
            None => jv_get(v@, k@) is None,
            Some(x) => jv_get(v@, k@) == Some(x@),
        },
{
    match v {
        Json::Obj(o) => obj_get(o, k),
        _ => None,
    }
}

pub fn get_str<'a>(v: &'a Json, k: &str) -> (r: Option<&'a String>)
    ensures
        match r {
            None => jv_get_str(v@, k@) is None,
            Some(s) => jv_get_str(v@, k@) == Some(s@),
        },
{
    match jv_get_exec(v, k) {
        Some(Json::Str(s)) => Some(s),
        _ => None,
    }
}

pub fn get_int(v: &Json, k: &str) -> (r: Option<i64>)
    ensures
        r == jv_get_int(v@, k@),
{
    match jv_get_exec(v, k) {
        Some(Json::Int(n)) => Some(*n),
        _ => None,
    }
}

pub fn get_arr<'a>(v: &'a Json, k: &str) -> (r: Option<&'a Vec<Json>>)
    ensures
        match r {
            None => jv_get_arr(v@, k@) is None,
            Some(a) => jv_get_arr(v@, k@) == Some(jv_seq(a@)),
        },
{
    match jv_get_exec(v, k) {
        Some(Json::Arr(a)) => Some(a),
        _ => None,
    }
}

pub(crate) fn str_items_exec(rs: &Vec<Json>, i: usize) -> (r: Vec<String>)
    requires
        i <= rs@.len(),
    ensures
        string_views(r@) == str_items_from(jv_seq(rs@), i as int),
    decreases rs@.len() - i,
{
    proof {
        lemma_jv_seq(rs@);
    }
    if i >= rs.len() {
        let r: Vec<String> = Vec::new();
        proof {
            assert(string_views(r@) =~= str_items_from(jv_seq(rs@), i as int));
        }
        return r;
    }
    let mut rest = str_items_exec(rs, i + 1);
    match &rs[i] {
        Json::Str(s) => {
            let mut out: Vec<String> = Vec::new();
            out.push(s.clone());
            out.append(&mut rest);
            proof {
                assert(string_views(out@) =~= str_items_from(jv_seq(rs@), i as int));
            }
            out
        },
        _ => {
            proof {
                assert(string_views(rest@) =~= str_items_from(jv_seq(rs@), i as int));
            }
            rest
        },
    }
}

pub(crate) fn contains_upto(a: &Vec<String>, upto: usize, x: &str) -> (r: bool)
    requires
        upto <= a@.len(),
    ensures
        r == contains_str(string_views(a@).take(upto as int), x@),
{
    let mut i: usize = 0;
    while i < upto
        invariant
            0 <= i <= upto <= a@.len(),
            forall|j: int| 0 <= j < i ==> string_views(a@)[j] != x@,
        decreases upto - i,
    {
        if str_eq(a[i].as_str(), x) {
            proof {
                assert(string_views(a@).take(upto as int)[i as int] == x@);
            }
            return true;
        }
        proof {
            assert(string_views(a@)[i as int] == a@[i as int]@);
        }
        i = i + 1;
    }
    proof {
        assert(forall|j: int|
            0 <= j < upto ==> string_views(a@).take(upto as int)[j] == string_views(a@)[j]);
    }
    false
}

pub(crate) fn sel_diff_exec(a: &Vec<String>, b: &Vec<String>, i: usize) -> (r: Vec<String>)
    requires
        i <= a@.len(),
    ensures
        string_views(r@) == sel_diff_from(string_views(a@), string_views(b@), i as int),
    decreases a@.len() - i,
{
    if i >= a.len() {
        let r: Vec<String> = Vec::new();
        proof {
            assert(string_views(r@) =~= sel_diff_from(string_views(a@), string_views(b@), i as int));
        }
        return r;
    }
    let keep = !contains_upto(b, b.len(), a[i].as_str()) && !contains_upto(a, i, a[i].as_str());
    proof {
        assert(string_views(b@).take(b@.len() as int) =~= string_views(b@));
        assert(string_views(a@)[i as int] == a@[i as int]@);
    }
    let mut rest = sel_diff_exec(a, b, i + 1);
    if keep {
        let mut out: Vec<String> = Vec::new();
        out.push(a[i].clone());
        out.append(&mut rest);
        proof {
            assert(string_views(out@) =~= sel_diff_from(
                string_views(a@),
                string_views(b@),
                i as int,
            ));
        }
        out
    } else {
        proof {
            assert(string_views(rest@) =~= sel_diff_from(
                string_views(a@),
                string_views(b@),
                i as int,
            ));
        }
        rest
    }
}

pub(crate) fn join_comma_exec(s: &Vec<String>, i: usize) -> (r: String)
    requires
        i <= s@.len(),
    ensures
        r@ == join_comma_from(string_views(s@), i as int),
    decreases s@.len() - i,
{
    if i >= s.len() {
        let r = String::new();
        proof {
            assert(r@ =~= join_comma_from(string_views(s@), i as int));
        }
        return r;
    }
    proof {
        assert(string_views(s@)[i as int] == s@[i as int]@);
    }
    if i == s.len() - 1 {
        s[i].clone()
    } else {
        let rest = join_comma_exec(s, i + 1);
        s[i].clone().concat(", ").concat(rest.as_str())
    }
}

fn quoted_join_exec(s: &Vec<String>, i: usize) -> (r: String)
    requires
        i <= s@.len(),
    ensures
        r@ == quoted_join_from(string_views(s@), i as int),
    decreases s@.len() - i,
{
    if i >= s.len() {
        let r = String::new();
        proof {
            assert(r@ =~= quoted_join_from(string_views(s@), i as int));
        }
        return r;
    }
    proof {
        assert(string_views(s@)[i as int] == s@[i as int]@);
    }
    if i == s.len() - 1 {
        str_debug(s[i].as_str())
    } else {
        let rest = quoted_join_exec(s, i + 1);
        str_debug(s[i].as_str()).concat(", ").concat(rest.as_str())
    }
}

fn debug_list_exec(s: &Vec<String>) -> (r: String)
    ensures
        r@ == debug_list(string_views(s@)),
{
    let inner = quoted_join_exec(s, 0);
    "[".to_owned().concat(inner.as_str()).concat("]")
}

fn bound_errs_exec(
    prop: &str,
    key: &str,
    o: Option<i64>,
    n: Option<i64>,
    tight: bool,
    is_min: bool,
) -> (r: Vec<String>)
    ensures
        string_views(r@) == bound_errs(prop@, key@, o, n, tight, is_min),
{
    let mut out: Vec<String> = Vec::new();
    match (o, n) {
        (Some(ov), Some(nv)) => {
            let grew = nv > ov;
            let shrank = nv < ov;
            let hit = if tight {
                if is_min {
                    grew
                } else {
                    shrank
                }
            } else {
                if is_min {
                    shrank
                } else {
                    grew
                }
            };
            if hit {
                let word = if grew {
                    " increased from "
                } else {
                    " decreased from "
                };
                let os = i64_to_dec(ov);
                let ns = i64_to_dec(nv);
                let msg = "Property '".to_owned().concat(prop).concat("' ").concat(key).concat(
                    word,
                ).concat(os.as_str()).concat(" to ").concat(ns.as_str());
                out.push(msg);
                proof {
                    assert(string_views(out@) =~= bound_errs(prop@, key@, o, n, tight, is_min));
                }
            } else {
                proof {
                    assert(string_views(out@) =~= bound_errs(prop@, key@, o, n, tight, is_min));
                }
            }
        },
        (None, Some(nv)) => {
            if tight {
                let ns = i64_to_dec(nv);
                let msg = "Property '".to_owned().concat(prop).concat("' added ").concat(
                    key,
                ).concat(" constraint: ").concat(ns.as_str());
                out.push(msg);
            }
            proof {
                assert(string_views(out@) =~= bound_errs(prop@, key@, o, n, tight, is_min));
            }
        },
        (Some(_), None) => {
            if !tight {
                let msg = "Property '".to_owned().concat(prop).concat("' removed ").concat(
                    key,
                ).concat(" constraint");
                out.push(msg);
            }
            proof {
                assert(string_views(out@) =~= bound_errs(prop@, key@, o, n, tight, is_min));
            }
        },
        (None, None) => {
            proof {
                assert(string_views(out@) =~= bound_errs(prop@, key@, o, n, tight, is_min));
            }
        },
    }
    out
}

/// Append `b`'s members to `a`.
pub(crate) fn append_strs(a: &mut Vec<String>, b: Vec<String>)
    ensures
        string_views(final (a)@) == string_views(old(a)@) + string_views(b@),
{
    let mut b = b;
    let ghost bv = b@;
    a.append(&mut b);
    proof {
        assert(string_views(a@) =~= string_views(old(a)@) + string_views(bv));
    }
}

fn min_max_errs_exec(
    prop: &str,
    po: &Json,
    pn: &Json,
    min_key: &str,
    max_key: &str,
    tight: bool,
) -> (r: Vec<String>)
    ensures
        string_views(r@) == min_max_errs(prop@, po@, pn@, min_key@, max_key@, tight),
{
    let mut out = bound_errs_exec(
        prop,
        min_key,
        get_int(po, min_key),
        get_int(pn, min_key),
        tight,
        true,
    );
    let hi = bound_errs_exec(prop, max_key, get_int(po, max_key), get_int(pn, max_key), tight, false);
    append_strs(&mut out, hi);
    out
}

fn constraint_errs_exec(prop: &str, po: &Json, pn: &Json, tight: bool) -> (r: Vec<String>)
    ensures
        string_views(r@) == constraint_errs(prop@, po@, pn@, tight),
{
    match get_str(po, "type") {
        Some(t) => {
            if str_eq(t.as_str(), "number") || str_eq(t.as_str(), "integer") {
                min_max_errs_exec(prop, po, pn, "minimum", "maximum", tight)
            } else if str_eq(t.as_str(), "string") {
                min_max_errs_exec(prop, po, pn, "minLength", "maxLength", tight)
            } else if str_eq(t.as_str(), "array") {
                min_max_errs_exec(prop, po, pn, "minItems", "maxItems", tight)
            } else {
                let r: Vec<String> = Vec::new();
                proof {
                    assert(string_views(r@) =~= Seq::<Seq<char>>::empty());
                }
                r
            }
        },
        None => {
            let r: Vec<String> = Vec::new();
            proof {
                assert(string_views(r@) =~= Seq::<Seq<char>>::empty());
            }
            r
        },
    }
}

fn prop_local_errs_exec(prop: &str, po: &Json, pn: &Json, backward: bool) -> (r: Vec<String>)
    ensures
        string_views(r@) == prop_local_errs(prop@, po@, pn@, backward),
{
    let mut out: Vec<String> = Vec::new();
    proof {
        assert(string_views(out@) =~= Seq::<Seq<char>>::empty());
    }
    match (get_str(po, "type"), get_str(pn, "type")) {
        (Some(ot), Some(nt)) => {
            if !str_eq(ot.as_str(), nt.as_str()) {
                let msg = "Property '".to_owned().concat(prop).concat(
                    "' type changed from ",
                ).concat(ot.as_str()).concat(" to ").concat(nt.as_str());
                out.push(msg);
                proof {
                    assert(string_views(out@) =~= seq![
                        "Property '"@ + prop@ + "' type changed from "@ + ot@ + " to "@ + nt@,
                    ]);
                }
            }
        },
        _ => {},
    }
    match (get_arr(po, "enum"), get_arr(pn, "enum")) {
        (Some(oe), Some(ne)) => {
            let os = str_items_exec(oe, 0);
            let ns = str_items_exec(ne, 0);
            if backward {
                let d = sel_diff_exec(&ns, &os, 0);
                if d.len() > 0 {
                    let msg = "Property '".to_owned().concat(prop).concat(
                        "' added enum values: ",
                    ).concat(debug_list_exec(&d).as_str());
                    let ghost pre = string_views(out@);
                    out.push(msg);
                    proof {
                        assert(string_views(out@) =~= pre + seq![
                            "Property '"@ + prop@ + "' added enum values: "@ + debug_list(
                                string_views(d@),
                            ),
                        ]);
                    }
                }
            } else {
                let d = sel_diff_exec(&os, &ns, 0);
                if d.len() > 0 {
                    let msg = "Property '".to_owned().concat(prop).concat(
                        "' removed enum values: ",
                    ).concat(debug_list_exec(&d).as_str());
                    let ghost pre = string_views(out@);
                    out.push(msg);
                    proof {
                        assert(string_views(out@) =~= pre + seq![
                            "Property '"@ + prop@ + "' removed enum values: "@ + debug_list(
                                string_views(d@),
                            ),
                        ]);
                    }
                }
            }
        },
        _ => {},
    }
    let both_obj = match (po, pn) {
        (Json::Obj(_), Json::Obj(_)) => true,
        _ => false,
    };
    if both_obj {
        let con = constraint_errs_exec(prop, po, pn, backward);
        append_strs(&mut out, con);
    }
    proof {
        assert(string_views(out@) =~= prop_local_errs(prop@, po@, pn@, backward));
    }
    out
}

#[verifier::loop_isolation(false)]
fn prefix_errs_exec(prop: &str, errs: Vec<String>) -> (r: Vec<String>)
    ensures
        string_views(r@) == prefix_errs(prop@, string_views(errs@)),
{
    let mut out: Vec<String> = Vec::new();
    let mut i: usize = 0;
    while i < errs.len()
        invariant
            0 <= i <= errs@.len(),
            out@.len() == i,
            forall|j: int|
                0 <= j < i ==> string_views(out@)[j] == "Property '"@ + prop@ + "': "@
                    + string_views(errs@)[j],
        decreases errs@.len() - i,
    {
        let msg = "Property '".to_owned().concat(prop).concat("': ").concat(errs[i].as_str());
        let ghost out_pre = out@;
        out.push(msg);
        proof {
            assert(forall|j: int|
                0 <= j < i ==> string_views(out@)[j] == out@[j]@ && out@[j] == out_pre[j]
                    && string_views(out_pre)[j] == out_pre[j]@);
            assert(string_views(out@)[i as int] == msg@);
            assert(string_views(errs@)[i as int] == errs@[i as int]@);
        }
        i = i + 1;
    }
    proof {
        assert(string_views(out@) =~= prefix_errs(prop@, string_views(errs@)));
    }
    out
}

fn compat_walk_exec(
    op: &Vec<(String, Json)>,
    np: &Vec<(String, Json)>,
    i: usize,
    backward: bool,
    depth: u32,
) -> (r: Vec<String>)
    requires
        i <= op@.len(),
    ensures
        string_views(r@) == spec_compat_walk(jv_kvs(op@), jv_kvs(np@), i as int, backward, depth as nat),
    decreases depth, 0nat, op@.len() - i,
{
    proof {
        lemma_jv_kvs(op@);
    }
    if i >= op.len() {
        let r: Vec<String> = Vec::new();
        proof {
            assert(string_views(r@) =~= spec_compat_walk(
                jv_kvs(op@),
                jv_kvs(np@),
                i as int,
                backward,
                depth as nat,
            ));
        }
        return r;
    }
    let prop = &op[i].0;
    let po = &op[i].1;
    let mut here: Vec<String> = Vec::new();
    proof {
        assert(string_views(here@) =~= Seq::<Seq<char>>::empty());
    }
    match obj_get(np, prop.as_str()) {
        Some(pn) => {
            here = prop_local_errs_exec(prop.as_str(), po, pn, backward);
            let o_is_obj = match get_str(po, "type") {
                Some(t) => str_eq(t.as_str(), "object"),
                None => false,
            };
            let n_is_obj = match get_str(pn, "type") {
                Some(t) => str_eq(t.as_str(), "object"),
                None => false,
            };
            if o_is_obj && n_is_obj && depth > 0 {
                let nested = check_compat_rec(po, pn, backward, depth - 1);
                let prefixed = prefix_errs_exec(prop.as_str(), nested);
                append_strs(&mut here, prefixed);
            }
        },
        None => {},
    }
    let rest = compat_walk_exec(op, np, i + 1, backward, depth);
    append_strs(&mut here, rest);
    proof {
        assert(string_views(here@) =~= spec_compat_walk(
            jv_kvs(op@),
            jv_kvs(np@),
            i as int,
            backward,
            depth as nat,
        ));
    }
    here
}

fn check_compat_rec(old_schema: &Json, new_schema: &Json, backward: bool, depth: u32) -> (r: Vec<
    String,
>)
    ensures
        string_views(r@) == spec_compat(old_schema@, new_schema@, backward, depth as nat),
    decreases depth, 1nat, 0nat,
{
    if depth == 0 {
        let mut r: Vec<String> = Vec::new();
        r.push("Maximum schema nesting depth exceeded".to_owned());
        proof {
            assert(string_views(r@) =~= seq!["Maximum schema nesting depth exceeded"@]);
        }
        return r;
    }
    let of = flatten_schema(old_schema);
    let nf = flatten_schema(new_schema);
    let empty_props: Vec<(String, Json)> = Vec::new();
    let empty_arr: Vec<Json> = Vec::new();
    proof {
        assert(jv_kvs(empty_props@) =~= Seq::<(Seq<char>, JsonV)>::empty());
        assert(jv_seq(empty_arr@) =~= Seq::<JsonV>::empty());
    }
    let op: &Vec<(String, Json)> = match jv_get_exec(&of, "properties") {
        Some(Json::Obj(p)) => p,
        _ => &empty_props,
    };
    let np: &Vec<(String, Json)> = match jv_get_exec(&nf, "properties") {
        Some(Json::Obj(p)) => p,
        _ => &empty_props,
    };
    let oreq: Vec<String> = match jv_get_exec(&of, "required") {
        Some(Json::Arr(a)) => str_items_exec(a, 0),
        _ => Vec::new(),
    };
    let nreq: Vec<String> = match jv_get_exec(&nf, "required") {
        Some(Json::Arr(a)) => str_items_exec(a, 0),
        _ => Vec::new(),
    };
    proof {
        assert(string_views(Seq::<String>::empty()) =~= Seq::<Seq<char>>::empty());
    }
    let mut out: Vec<String> = Vec::new();
    if backward {
        let d = sel_diff_exec(&nreq, &oreq, 0);
        if d.len() > 0 {
            let msg = "Added required properties: ".to_owned().concat(
                join_comma_exec(&d, 0).as_str(),
            );
            out.push(msg);
        }
    } else {
        let d = sel_diff_exec(&oreq, &nreq, 0);
        if d.len() > 0 {
            let msg = "Removed required properties: ".to_owned().concat(
                join_comma_exec(&d, 0).as_str(),
            );
            out.push(msg);
        }
    }
    let walked = compat_walk_exec(op, np, 0, backward, depth);
    append_strs(&mut out, walked);
    proof {
        assert(string_views(out@) =~= spec_compat(
            old_schema@,
            new_schema@,
            backward,
            depth as nat,
        ));
    }
    out
}

/// Whether the new schema can read data written under the old one, with
/// the diagnostics explaining any failure.
pub fn check_backward_compatibility(old_schema: &Json, new_schema: &Json) -> (r: (bool, Vec<String>))
    ensures
        string_views(r.1@) == spec_compat(old_schema@, new_schema@, true, max_depth()),
        r.0 == (spec_compat(old_schema@, new_schema@, true, max_depth()).len() == 0),
{
    let errs = check_compat_rec(old_schema, new_schema, true, 64);
    proof {
        assert(string_views(errs@).len() == errs@.len());
    }
    let ok = errs.len() == 0;
    (ok, errs)
}

/// Each key binds at most one entry.
pub open spec fn uniq_keys(o: Seq<(Seq<char>, JsonV)>) -> bool {
    forall|i: int, j: int| 0 <= i < j < o.len() ==> o[i].0 != o[j].0
}

proof fn lemma_get_exists(o: Seq<(Seq<char>, JsonV)>, x: Seq<char>)
    ensures
        (jv_obj_get(o, x) is Some) <==> exists|i: int| 0 <= i < o.len() && o[i].0 == x,
    decreases o.len(),
{
    if o.len() > 0 {
        lemma_get_exists(o.drop_first(), x);
        if o[0].0 == x {
            assert(0 <= 0 < o.len() && o[0].0 == x);
        } else {
            if exists|i: int| 0 <= i < o.len() && o[i].0 == x {
                let i = choose|i: int| 0 <= i < o.len() && o[i].0 == x;
                assert(o.drop_first()[i - 1].0 == x);
            }
            if exists|i: int| 0 <= i < o.drop_first().len() && o.drop_first()[i].0 == x {
                let i = choose|i: int| 0 <= i < o.drop_first().len() && o.drop_first()[i].0 == x;
                assert(o[i + 1].0 == x);
            }
        }
    }
}

proof fn lemma_obj_set_uniq(o: Seq<(Seq<char>, JsonV)>, k: Seq<char>, v: JsonV)
    requires
        uniq_keys(o),
    ensures
        uniq_keys(jv_obj_set(o, k, v)),
        forall|x: Seq<char>|
            (#[trigger] jv_obj_get(jv_obj_set(o, k, v), x) is Some) <==> (x == k || jv_obj_get(
                o,
                x,
            ) is Some),
    decreases o.len(),
{
    let rs = jv_obj_set(o, k, v);
    if o.len() == 0 {
        assert(forall|x: Seq<char>| x != k ==> jv_obj_get(rs, x) == jv_obj_get(rs.drop_first(), x));
        assert(rs.drop_first() =~= o);
    } else if o[0].0 == k {
        assert(rs == seq![(k, v)] + o.drop_first());
        assert(forall|j: int| 0 <= j < rs.len() ==> rs[j].0 == o[j].0);
        assert(forall|x: Seq<char>|
            x != k ==> #[trigger] jv_obj_get(rs, x) == jv_obj_get(rs.drop_first(), x));
        assert(rs.drop_first() =~= o.drop_first());
    } else {
        let inner = jv_obj_set(o.drop_first(), k, v);
        assert(rs == seq![o[0]] + inner);
        assert(uniq_keys(o.drop_first())) by {
            assert(forall|i: int|
                0 <= i < o.drop_first().len() ==> o.drop_first()[i] == o[i + 1]);
        };
        lemma_obj_set_uniq(o.drop_first(), k, v);
        lemma_get_exists(o.drop_first(), o[0].0);
        lemma_get_exists(inner, o[0].0);
        assert(jv_obj_get(o.drop_first(), o[0].0) is None) by {
            if jv_obj_get(o.drop_first(), o[0].0) is Some {
                let i = choose|i: int|
                    0 <= i < o.drop_first().len() && o.drop_first()[i].0 == o[0].0;
                assert(o[i + 1].0 == o[0].0);
            }
        };
        assert(jv_obj_get(inner, o[0].0) is None);
        assert(forall|j: int| 0 <= j < inner.len() ==> rs[j + 1] == inner[j]);
        assert(forall|j: int| 0 <= j < inner.len() ==> (#[trigger] inner[j]).0 != o[0].0) by {
            assert forall|j: int| 0 <= j < inner.len() implies (#[trigger] inner[j]).0 != o[0].0 by {
                if inner[j].0 == o[0].0 {
                    lemma_get_exists(inner, o[0].0);
                }
            };
        };
        assert(uniq_keys(rs)) by {
            assert(forall|j: int| 1 <= j < rs.len() ==> rs[0].0 != (#[trigger] rs[j]).0);
        };
        assert(forall|x: Seq<char>|
            x != o[0].0 ==> #[trigger] jv_obj_get(rs, x) == jv_obj_get(inner, x)) by {
            assert(rs[0] == o[0]);
            assert(rs.drop_first() =~= inner);
        };
        assert(forall|x: Seq<char>|
            (#[trigger] jv_obj_get(rs, x) is Some) <==> (x == k || jv_obj_get(o, x) is Some)) by {
            assert(rs[0] == o[0]);
            assert(rs.drop_first() =~= inner);
        };
    }
}

proof fn lemma_merge_props_uniq(dst: Seq<(Seq<char>, JsonV)>, src: Seq<(Seq<char>, JsonV)>)
    requires
        uniq_keys(dst),
    ensures
        uniq_keys(merge_props(dst, src)),
    decreases src.len(),
{
    if src.len() > 0 {
        lemma_obj_set_uniq(dst, src[0].0, src[0].1);
        lemma_merge_props_uniq(jv_obj_set(dst, src[0].0, src[0].1), src.drop_first());
    }
}

proof fn lemma_merge_state_uniq(
    props: Seq<(Seq<char>, JsonV)>,
    req: Seq<JsonV>,
    addl: Option<JsonV>,
    flat: JsonV,
)
    requires
        uniq_keys(props),
    ensures
        uniq_keys(merge_flat_state(props, req, addl, flat).0),
{
    match flat {
        JsonV::Obj(fo) => {
            match jv_obj_get(fo, "properties"@) {
                Some(JsonV::Obj(p)) => {
                    lemma_merge_props_uniq(props, p);
                },
                _ => {},
            }
        },
        _ => {},
    }
}

proof fn lemma_fold_allof_uniq(
    arr: Seq<JsonV>,
    i: int,
    props: Seq<(Seq<char>, JsonV)>,
    req: Seq<JsonV>,
    addl: Option<JsonV>,
    depth: nat,
)
    requires
        uniq_keys(props),
    ensures
        uniq_keys(spec_fold_allof(arr, i, props, req, addl, depth).0),
    decreases arr.len() - i,
{
    if 0 <= i < arr.len() {
        let flat = spec_flatten(arr[i], depth);
        lemma_merge_state_uniq(props, req, addl, flat);
        let st = merge_flat_state(props, req, addl, flat);
        lemma_fold_allof_uniq(arr, i + 1, st.0, st.1, st.2, depth);
    }
}

/// The property map a flatten produces binds every key once.
pub proof fn lemma_flatten_parts_uniq(s: JsonV, depth: nat)
    ensures
        uniq_keys(spec_flatten_parts(s, depth).0),
{
    if depth != 0 {
        match s {
            JsonV::Obj(o) => {
                let st1 = match jv_obj_get(o, "allOf"@) {
                    Some(JsonV::Arr(arr)) => spec_fold_allof(
                        arr,
                        0,
                        Seq::empty(),
                        Seq::empty(),
                        None,
                        (depth - 1) as nat,
                    ),
                    _ => (Seq::<(Seq<char>, JsonV)>::empty(), Seq::<JsonV>::empty(), None::<JsonV>),
                };
                match jv_obj_get(o, "allOf"@) {
                    Some(JsonV::Arr(arr)) => {
                        lemma_fold_allof_uniq(
                            arr,
                            0,
                            Seq::empty(),
                            Seq::empty(),
                            None,
                            (depth - 1) as nat,
                        );
                    },
                    _ => {},
                }
                lemma_merge_state_uniq(st1.0, st1.1, st1.2, s);
            },
            _ => {},
        }
    }
}

proof fn lemma_get_push(o: Seq<(Seq<char>, JsonV)>, e: (Seq<char>, JsonV), x: Seq<char>)
    ensures
        jv_obj_get(o.push(e), x) == (match jv_obj_get(o, x) {
            Some(v) => Some(v),
            None => if e.0 == x {
                Some(e.1)
            } else {
                None
            },
        }),
    decreases o.len(),
{
    if o.len() == 0 {
        assert(o.push(e)[0] == e);
        assert(o.push(e).drop_first() =~= Seq::<(Seq<char>, JsonV)>::empty());
    } else {
        assert(o.push(e)[0] == o[0]);
        assert(o.push(e).drop_first() =~= o.drop_first().push(e));
        lemma_get_push(o.drop_first(), e, x);
    }
}

/// Merging a fresh, uniquely keyed property map into a map that holds
/// none of its keys appends it.
proof fn lemma_merge_props_absent(dst: Seq<(Seq<char>, JsonV)>, src: Seq<(Seq<char>, JsonV)>)
    requires
        uniq_keys(src),
        forall|j: int| 0 <= j < src.len() ==> jv_obj_get(dst, #[trigger] src[j].0) is None,
    ensures
        merge_props(dst, src) == dst + src,
    decreases src.len(),
{
    if src.len() == 0 {
        assert(dst + src =~= dst);
    } else {
        let e = src[0];
        lemma_get_exists(dst, e.0);
        assert(forall|j: int| 0 <= j < dst.len() ==> dst[j].0 != e.0) by {
            assert forall|j: int| 0 <= j < dst.len() implies dst[j].0 != e.0 by {
                if dst[j].0 == e.0 {
                    lemma_get_exists(dst, e.0);
                }
            };
        };
        crate::json::lemma_obj_set_absent(dst, e.0, e.1);
        let dst1 = dst.push(e);
        assert(jv_obj_set(dst, e.0, e.1) == dst1);
        assert(uniq_keys(src.drop_first())) by {
            assert(forall|i: int|
                0 <= i < src.drop_first().len() ==> src.drop_first()[i] == src[i + 1]);
        };
        assert(forall|j: int|
            0 <= j < src.drop_first().len() ==> jv_obj_get(
                dst1,
                #[trigger] src.drop_first()[j].0,
            ) is None) by {
            assert forall|j: int|
                0 <= j < src.drop_first().len() implies jv_obj_get(
                dst1,
                #[trigger] src.drop_first()[j].0,
            ) is None by {
                lemma_get_push(dst, e, src.drop_first()[j].0);
                assert(src.drop_first()[j] == src[j + 1]);
                assert(src[j + 1].0 != e.0);
            };
        };
        lemma_merge_props_absent(dst1, src.drop_first());
        assert(dst1 + src.drop_first() =~= dst + src);
    }
}

/// Flattening an already flattened shape reproduces it.
proof fn lemma_flatten_flat(p: Seq<(Seq<char>, JsonV)>, r: Seq<JsonV>, a: Option<JsonV>)
    requires
        uniq_keys(p),
    ensures
        spec_flatten(flat_of(p, r, a), max_depth()) == flat_of(p, r, a),
{
    reveal_strlit("properties");
    reveal_strlit("required");
    reveal_strlit("additionalProperties");
    reveal_strlit("allOf");
    reveal_with_fuel(jv_obj_get, 5);
    let f = flat_of(p, r, a);
    let base = seq![("properties"@, JsonV::Obj(p)), ("required"@, JsonV::Arr(r))];
    let o: Seq<(Seq<char>, JsonV)> = match a {
        None => base,
        Some(av) => base + seq![("additionalProperties"@, av)],
    };
    assert(f == JsonV::Obj(o));
    assert(o[0] == ("properties"@, JsonV::Obj(p)));
    assert(o[1] == ("required"@, JsonV::Arr(r)));
    assert(o.drop_first()[0] == o[1]);
    assert("properties"@.len() == 10);
    assert("required"@.len() == 8);
    assert("additionalProperties"@.len() == 20);
    assert("allOf"@.len() == 5);
    assert("properties"@ != "allOf"@);
    assert("required"@ != "allOf"@);
    assert("properties"@ != "required"@);
    assert("properties"@ != "additionalProperties"@);
    assert("required"@ != "additionalProperties"@);
    match a {
        None => {
            assert(o.drop_first().drop_first() =~= Seq::<(Seq<char>, JsonV)>::empty());
            assert(jv_obj_get(o, "allOf"@) is None);
            assert(jv_obj_get(o, "additionalProperties"@) is None);
        },
        Some(av) => {
            assert(o.drop_first().drop_first() =~= seq![("additionalProperties"@, av)]);
            assert(o.drop_first().drop_first()[0].0 != "allOf"@);
            assert(o.drop_first().drop_first().drop_first() =~= Seq::<(Seq<char>, JsonV)>::empty());
            assert(jv_obj_get(o, "allOf"@) is None);
            assert(jv_obj_get(o, "additionalProperties"@) == Some(av));
        },
    }
    assert(jv_obj_get(o, "properties"@) == Some(JsonV::Obj(p)));
    assert(jv_obj_get(o, "required"@) == Some(JsonV::Arr(r)));
    let st2 = merge_flat_state(Seq::empty(), Seq::empty(), None, f);
    assert(forall|j: int|
        0 <= j < p.len() ==> jv_obj_get(Seq::<(Seq<char>, JsonV)>::empty(), #[trigger] p[j].0)
            is None);
    lemma_merge_props_absent(Seq::empty(), p);
    assert(Seq::<(Seq<char>, JsonV)>::empty() + p =~= p);
    assert(Seq::<JsonV>::empty() + r =~= r);
    assert(st2.0 == p && st2.1 == r && st2.2 == a);
    assert(spec_flatten_parts(f, max_depth()) == st2);
}

/// Flatten idempotence: flattening a flattened schema changes nothing.
pub proof fn lemma_flatten_idempotent(s: JsonV)
    ensures
        spec_flatten(spec_flatten(s, max_depth()), max_depth()) == spec_flatten(s, max_depth()),
{
    lemma_flatten_parts_uniq(s, max_depth());
    let st = spec_flatten_parts(s, max_depth());
    lemma_flatten_flat(st.0, st.1, st.2);
}

/// Whether the old schema can read data written under the new one, with
/// the diagnostics explaining any failure.
pub fn check_forward_compatibility(old_schema: &Json, new_schema: &Json) -> (r: (bool, Vec<String>))
    ensures
        string_views(r.1@) == spec_compat(old_schema@, new_schema@, false, max_depth()),
        r.0 == (spec_compat(old_schema@, new_schema@, false, max_depth()).len() == 0),
{
    let errs = check_compat_rec(old_schema, new_schema, false, 64);
    proof {
        assert(string_views(errs@).len() == errs@.len());
    }
    let ok = errs.len() == 0;
    (ok, errs)
}

} // verus!
