//! Instance casting: rewriting a JSON instance toward a target schema —
//! filling defaults, upgrading GTS-typed `const` fields, pruning extras
//! when `additionalProperties` is `false`, and recursing into nested
//! objects and arrays of objects — with a structural diff of added and
//! removed property paths. Nesting is bounded at a fixed depth, past
//! which casting reports an internal error.

use vstd::prelude::*;
use vstd::string::*;

use crate::ids::{spec_is_valid, spec_parse_id, GtsID};
use crate::json::{
    jv, jv_kvs, jv_obj_get, jv_obj_remove, jv_obj_set, jv_seq, lemma_jv_kvs, lemma_jv_seq, obj_get,
    obj_has, obj_remove, obj_set, Json, JsonV,
};
use crate::schema::{
    check_backward_compatibility, check_forward_compatibility, entries_of, flatten_schema, jv_get,
    jv_get_exec, jv_get_str, get_str, max_depth, sel_diff_from, spec_compat, spec_flatten,
    str_items_from,
};
use crate::strutil::{dec_of, sort_dedup, sort_dedup_exec, str_eq, string_views, u64_to_dec};

verus! {

/// Mathematical form of a casting error.
pub ghost enum SpecCastErr {
    Internal(Seq<char>),
    Target,
    Source,
    Instance,
    Cast(Seq<char>),
}

/// An error raised while casting an instance between schema versions.
#[derive(Debug)]
pub enum SchemaCastError {
    InternalError(String),
    TargetMustBeSchema,
    SourceMustBeSchema,
    InstanceMustBeObject,
    CastError(String),
}

impl View for SchemaCastError {
    type V = SpecCastErr;

    open spec fn view(&self) -> SpecCastErr {
        match self {
            SchemaCastError::InternalError(s) => SpecCastErr::Internal(s@),
            SchemaCastError::TargetMustBeSchema => SpecCastErr::Target,
            SchemaCastError::SourceMustBeSchema => SpecCastErr::Source,
            SchemaCastError::InstanceMustBeObject => SpecCastErr::Instance,
            SchemaCastError::CastError(s) => SpecCastErr::Cast(s@),
        }
    }
}

pub open spec fn spec_cast_err_message(e: SpecCastErr) -> Seq<char> {
    match e {
        SpecCastErr::Internal(s) => "Internal error: "@ + s,
        SpecCastErr::Target => "Target must be a schema"@,
        SpecCastErr::Source => "Source schema must be a schema"@,
        SpecCastErr::Instance => "Instance must be an object for casting"@,
        SpecCastErr::Cast(s) => s,
    }
}

impl SchemaCastError {
    /// The rendered form of the error, as a diagnostic string.
    pub fn message(&self) -> (r: String)
        ensures
            r@ == spec_cast_err_message(self@),
    {
        match self {
            SchemaCastError::InternalError(s) => "Internal error: ".to_owned().concat(s.as_str()),
            SchemaCastError::TargetMustBeSchema => "Target must be a schema".to_owned(),
            SchemaCastError::SourceMustBeSchema => "Source schema must be a schema".to_owned(),
            SchemaCastError::InstanceMustBeObject => {
                "Instance must be an object for casting".to_owned()
            },
            SchemaCastError::CastError(s) => s.clone(),
        }
    }
}

/// A property path: the name at the top, joined with `.` below.
pub open spec fn path_of(base: Seq<char>, prop: Seq<char>) -> Seq<char> {
    if base.len() == 0 {
        prop
    } else {
        base + "."@ + prop
    }
}

/// An array element path: `prop[idx]`, under the base path.
pub open spec fn idx_path_of(base: Seq<char>, prop: Seq<char>, idx: int) -> Seq<char> {
    if base.len() == 0 {
        prop + "["@ + dec_of(idx) + "]"@
    } else {
        base + "."@ + prop + "["@ + dec_of(idx) + "]"@
    }
}

/// The declared default of a property, when its sub-schema is an object
/// that carries one.
pub open spec fn default_of(tprops: Seq<(Seq<char>, JsonV)>, name: Seq<char>) -> Option<JsonV> {
    match jv_obj_get(tprops, name) {
        Some(ps) => match entries_of(ps) {
            Some(po) => jv_obj_get(po, "default"@),
            None => None,
        },
        None => None,
    }
}

/// Fill missing required properties from their declared defaults; every
/// missing required name that supplies no default — undeclared, or
/// declared without one — is a diagnostic, not an error.
pub open spec fn spec_req_fill(
    result: Seq<(Seq<char>, JsonV)>,
    tprops: Seq<(Seq<char>, JsonV)>,
    names: Seq<Seq<char>>,
    i: int,
    base: Seq<char>,
) -> (Seq<(Seq<char>, JsonV)>, Seq<Seq<char>>, Seq<Seq<char>>)
    decreases names.len() - i,
{
    if i < 0 || i >= names.len() {
        (result, Seq::empty(), Seq::empty())
    } else {
        let name = names[i];
        let step: (Seq<(Seq<char>, JsonV)>, Seq<Seq<char>>, Seq<Seq<char>>) = if jv_obj_get(
            result,
            name,
        ) is None {
            match default_of(tprops, name) {
                Some(d) => (
                    jv_obj_set(result, name, d),
                    seq![path_of(base, name)],
                    Seq::<Seq<char>>::empty(),
                ),
                None => (
                    result,
                    Seq::<Seq<char>>::empty(),
                    seq![
                        "Missing required property '"@ + path_of(base, name)
                            + "' and no default is defined"@,
                    ],
                ),
            }
        } else {
            (result, Seq::empty(), Seq::empty())
        };
        let rest = spec_req_fill(step.0, tprops, names, i + 1, base);
        (rest.0, step.1 + rest.1, step.2 + rest.2)
    }
}

/// Fill missing optional properties that declare a default.
pub open spec fn spec_opt_fill(
    result: Seq<(Seq<char>, JsonV)>,
    tprops: Seq<(Seq<char>, JsonV)>,
    req_all: Seq<Seq<char>>,
    i: int,
    base: Seq<char>,
) -> (Seq<(Seq<char>, JsonV)>, Seq<Seq<char>>)
    decreases tprops.len() - i,
{
    if i < 0 || i >= tprops.len() {
        (result, Seq::empty())
    } else {
        let prop = tprops[i].0;
        let ps = tprops[i].1;
        let step: (Seq<(Seq<char>, JsonV)>, Seq<Seq<char>>) = if crate::schema::contains_str(
            req_all,
            prop,
        ) || jv_obj_get(result, prop) is Some {
            (result, Seq::empty())
        } else {
            match entries_of(ps) {
                Some(po) => match jv_obj_get(po, "default"@) {
                    Some(d) => (jv_obj_set(result, prop, d), seq![path_of(base, prop)]),
                    None => (result, Seq::empty()),
                },
                None => (result, Seq::empty()),
            }
        };
        let rest = spec_opt_fill(step.0, tprops, req_all, i + 1, base);
        (rest.0, step.1 + rest.1)
    }
}

/// Overwrite a string property with a declared string `const` when both
/// the const and the present value are valid GTS identifiers and differ.
pub open spec fn spec_const_up(
    result: Seq<(Seq<char>, JsonV)>,
    tprops: Seq<(Seq<char>, JsonV)>,
    i: int,
) -> Seq<(Seq<char>, JsonV)>
    decreases tprops.len() - i,
{
    if i < 0 || i >= tprops.len() {
        result
    } else {
        let prop = tprops[i].0;
        let ps = tprops[i].1;
        let r1 = match entries_of(ps) {
            Some(po) => match jv_obj_get(po, "const"@) {
                Some(cv) => match jv_obj_get(result, prop) {
                    Some(ov) => match (cv, ov) {
                        (JsonV::Str(cs), JsonV::Str(os)) => {
                            if spec_is_valid(cs) && spec_is_valid(os) && os != cs {
                                jv_obj_set(result, prop, cv)
                            } else {
                                result
                            }
                        },
                        _ => result,
                    },
                    None => result,
                },
                None => result,
            },
            None => result,
        };
        spec_const_up(r1, tprops, i + 1)
    }
}

/// Remove the instance properties that the target schema does not
/// declare, by a snapshot of the instance's keys.
pub open spec fn spec_prune(
    result: Seq<(Seq<char>, JsonV)>,
    tprops: Seq<(Seq<char>, JsonV)>,
    keys: Seq<Seq<char>>,
    i: int,
    base: Seq<char>,
) -> (Seq<(Seq<char>, JsonV)>, Seq<Seq<char>>)
    decreases keys.len() - i,
{
    if i < 0 || i >= keys.len() {
        (result, Seq::empty())
    } else {
        let key = keys[i];
        let step: (Seq<(Seq<char>, JsonV)>, Seq<Seq<char>>) = if jv_obj_get(tprops, key) is None {
            (jv_obj_remove(result, key), seq![path_of(base, key)])
        } else {
            (result, Seq::empty())
        };
        let rest = spec_prune(step.0, tprops, keys, i + 1, base);
        (rest.0, step.1 + rest.1)
    }
}

pub open spec fn has_props_or_req(v: JsonV) -> bool {
    jv_get(v, "properties"@) is Some || jv_get(v, "required"@) is Some
}

pub open spec fn spec_eff_find(arr: Seq<JsonV>, i: int) -> Option<JsonV>
    decreases arr.len() - i,
{
    if i < 0 || i >= arr.len() {
        None
    } else if entries_of(arr[i]) is Some && has_props_or_req(arr[i]) {
        Some(arr[i])
    } else {
        spec_eff_find(arr, i + 1)
    }
}

/// The schema to recurse with: the sub-schema itself when it declares
/// `properties` or `required`, else the first of its `allOf` fragments
/// that does, else the sub-schema unchanged.
pub open spec fn spec_effective(s: JsonV) -> JsonV {
    match entries_of(s) {
        Some(_) => {
            if has_props_or_req(s) {
                s
            } else {
                match jv_get(s, "allOf"@) {
                    Some(JsonV::Arr(arr)) => match spec_eff_find(arr, 0) {
                        Some(v) => v,
                        None => s,
                    },
                    _ => s,
                }
            }
        },
        None => s,
    }
}

/// The keys of an object's entries from position `i` on.
pub open spec fn keys_from(o: Seq<(Seq<char>, JsonV)>, i: int) -> Seq<Seq<char>>
    decreases o.len() - i,
{
    if i < 0 || i >= o.len() {
        Seq::empty()
    } else {
        seq![o[i].0] + keys_from(o, i + 1)
    }
}

/// Cast each object element of an array against the nested schema;
/// non-object elements pass through unchanged.
pub open spec fn spec_arr_walk(
    items: Seq<JsonV>,
    j: int,
    nested: JsonV,
    base: Seq<char>,
    prop: Seq<char>,
    depth: nat,
) -> Result<(Seq<JsonV>, Seq<Seq<char>>, Seq<Seq<char>>, Seq<Seq<char>>), SpecCastErr>
    decreases depth, 0nat, items.len() - j,
{
    if j < 0 || j >= items.len() {
        Ok((Seq::empty(), Seq::empty(), Seq::empty(), Seq::empty()))
    } else {
        let step: Result<(JsonV, Seq<Seq<char>>, Seq<Seq<char>>, Seq<Seq<char>>), SpecCastErr> =
            match items[j] {
            JsonV::Obj(e) => {
                if depth > 0 {
                    match spec_cast(e, nested, idx_path_of(base, prop, j), (depth - 1) as nat) {
                        Err(er) => Err(er),
                        Ok((no, a, rm, ms)) => Ok((JsonV::Obj(no), a, rm, ms)),
                    }
                } else {
                    Err(SpecCastErr::Internal("Maximum cast nesting depth exceeded"@))
                }
            },
            _ => Ok((items[j], Seq::empty(), Seq::empty(), Seq::empty())),
        };
        match step {
            Err(er) => Err(er),
            Ok((v, a, rm, ms)) => match spec_arr_walk(items, j + 1, nested, base, prop, depth) {
                Err(er) => Err(er),
                Ok((rest, a2, rm2, ms2)) => Ok((seq![v] + rest, a + a2, rm + rm2, ms + ms2)),
            },
        }
    }
}

/// Recurse into the target properties present in the instance whose
/// declared type is `object`, or `array` with object items.
pub open spec fn spec_cast_walk(
    result: Seq<(Seq<char>, JsonV)>,
    tprops: Seq<(Seq<char>, JsonV)>,
    i: int,
    base: Seq<char>,
    depth: nat,
) -> Result<(Seq<(Seq<char>, JsonV)>, Seq<Seq<char>>, Seq<Seq<char>>, Seq<Seq<char>>), SpecCastErr>
    decreases depth, 1nat, tprops.len() - i,
{
    if i < 0 || i >= tprops.len() {
        Ok((result, Seq::empty(), Seq::empty(), Seq::empty()))
    } else {
        let prop = tprops[i].0;
        let ps = tprops[i].1;
        let step: Result<
            (Seq<(Seq<char>, JsonV)>, Seq<Seq<char>>, Seq<Seq<char>>, Seq<Seq<char>>),
            SpecCastErr,
        > = match jv_obj_get(result, prop) {
            Some(val) => {
                if entries_of(ps) is Some {
                    if jv_get_str(ps, "type"@) == Some("object"@) {
                        match val {
                            JsonV::Obj(ventries) => {
                                if depth > 0 {
                                    match spec_cast(
                                        ventries,
                                        spec_effective(ps),
                                        path_of(base, prop),
                                        (depth - 1) as nat,
                                    ) {
                                        Err(er) => Err(er),
                                        Ok((no, a, rm, ms)) => Ok(
                                            (jv_obj_set(result, prop, JsonV::Obj(no)), a, rm, ms),
                                        ),
                                    }
                                } else {
                                    Err(
                                        SpecCastErr::Internal(
                                            "Maximum cast nesting depth exceeded"@,
                                        ),
                                    )
                                }
                            },
                            _ => Ok((result, Seq::empty(), Seq::empty(), Seq::empty())),
                        }
                    } else if jv_get_str(ps, "type"@) == Some("array"@) {
                        match val {
                            JsonV::Arr(items) => match jv_get(ps, "items"@) {
                                Some(items_schema) => {
                                    if entries_of(items_schema) is Some && jv_get_str(
                                        items_schema,
                                        "type"@,
                                    ) == Some("object"@) {
                                        match spec_arr_walk(
                                            items,
                                            0,
                                            spec_effective(items_schema),
                                            base,
                                            prop,
                                            depth,
                                        ) {
                                            Err(er) => Err(er),
                                            Ok((new_items, a, rm, ms)) => Ok(
                                                (
                                                    jv_obj_set(
                                                        result,
                                                        prop,
                                                        JsonV::Arr(new_items),
                                                    ),
                                                    a,
                                                    rm,
                                                    ms,
                                                ),
                                            ),
                                        }
                                    } else {
                                        Ok((result, Seq::empty(), Seq::empty(), Seq::empty()))
                                    }
                                },
                                None => Ok((result, Seq::empty(), Seq::empty(), Seq::empty())),
                            },
                            _ => Ok((result, Seq::empty(), Seq::empty(), Seq::empty())),
                        }
                    } else {
                        Ok((result, Seq::empty(), Seq::empty(), Seq::empty()))
                    }
                } else {
                    Ok((result, Seq::empty(), Seq::empty(), Seq::empty()))
                }
            },
            None => Ok((result, Seq::empty(), Seq::empty(), Seq::empty())),
        };
        match step {
            Err(er) => Err(er),
            Ok((r1, a1, rm1, ms1)) => match spec_cast_walk(r1, tprops, i + 1, base, depth) {
                Err(er) => Err(er),
                Ok((r2, a2, rm2, ms2)) => Ok((r2, a1 + a2, rm1 + rm2, ms1 + ms2)),
            },
        }
    }
}

/// The mathematical caster: fill required and optional defaults, upgrade
/// GTS `const` tags, prune extras when `additionalProperties` is false,
/// then recurse into nested objects and arrays of objects.
pub open spec fn spec_cast(
    inst: Seq<(Seq<char>, JsonV)>,
    schema: JsonV,
    base: Seq<char>,
    depth: nat,
) -> Result<(Seq<(Seq<char>, JsonV)>, Seq<Seq<char>>, Seq<Seq<char>>, Seq<Seq<char>>), SpecCastErr>
    decreases depth, 2nat, 0nat,
{
    match entries_of(schema) {
        None => Err(SpecCastErr::Cast("Schema must be an object"@)),
        Some(so) => {
            let tprops = match jv_obj_get(so, "properties"@) {
                Some(JsonV::Obj(p)) => p,
                _ => Seq::<(Seq<char>, JsonV)>::empty(),
            };
            let req_all = match jv_obj_get(so, "required"@) {
                Some(JsonV::Arr(a)) => str_items_from(a, 0),
                _ => Seq::<Seq<char>>::empty(),
            };
            let req_names = sel_diff_from(req_all, Seq::empty(), 0);
            let additional = match jv_obj_get(so, "additionalProperties"@) {
                Some(JsonV::Bool(b)) => b,
                _ => true,
            };
            let st1 = spec_req_fill(inst, tprops, req_names, 0, base);
            let st2 = spec_opt_fill(st1.0, tprops, req_all, 0, base);
            let r3 = spec_const_up(st2.0, tprops, 0);
            let pruned: (Seq<(Seq<char>, JsonV)>, Seq<Seq<char>>) = if !additional {
                spec_prune(r3, tprops, keys_from(r3, 0), 0, base)
            } else {
                (r3, Seq::<Seq<char>>::empty())
            };
            match spec_cast_walk(pruned.0, tprops, 0, base, depth) {
                Err(er) => Err(er),
                Ok((r5, a5, rm5, ms5)) => Ok(
                    (r5, st1.1 + st2.1 + a5, pruned.1 + rm5, st1.2 + ms5),
                ),
            }
        },
    }
}

// ---------------------------------------------------------------------
// Exec mirror of the caster
// ---------------------------------------------------------------------
fn path_join(base: &str, prop: &str) -> (r: String)
    ensures
        r@ == path_of(base@, prop@),
{
    if base.unicode_len() == 0 {
        prop.to_owned()
    } else {
        base.to_owned().concat(".").concat(prop)
    }
}

fn idx_path_join(base: &str, prop: &str, idx: usize) -> (r: String)
    ensures
        r@ == idx_path_of(base@, prop@, idx as int),
{
    let n = u64_to_dec(idx as u64);
    if base.unicode_len() == 0 {
        prop.to_owned().concat("[").concat(n.as_str()).concat("]")
    } else {
        base.to_owned().concat(".").concat(prop).concat("[").concat(n.as_str()).concat("]")
    }
}

fn req_fill_exec(
    result: Vec<(String, Json)>,
    tprops: &Vec<(String, Json)>,
    names: &Vec<String>,
    i: usize,
    base: &str,
) -> (r: (Vec<(String, Json)>, Vec<String>, Vec<String>))
    requires
        i <= names@.len(),
    ensures
        ({
            let sp = spec_req_fill(
                jv_kvs(result@),
                jv_kvs(tprops@),
                string_views(names@),
                i as int,
                base@,
            );
            jv_kvs(r.0@) == sp.0 && string_views(r.1@) == sp.1 && string_views(r.2@) == sp.2
        }),
    decreases names@.len() - i,
{
    if i >= names.len() {
        let r = (result, Vec::<String>::new(), Vec::<String>::new());
        proof {
            assert(string_views(Seq::<String>::empty()) =~= Seq::<Seq<char>>::empty());
        }
        return r;
    }
    let mut result = result;
    let name = &names[i];
    let mut added1: Vec<String> = Vec::new();
    let mut reasons1: Vec<String> = Vec::new();
    proof {
        assert(string_views(names@)[i as int] == names@[i as int]@);
    }
    if !obj_has(&result, name.as_str()) {
        let dflt: Option<&Json> = match obj_get(tprops, name.as_str()) {
            Some(ps) => match ps {
                Json::Obj(po) => obj_get(po, "default"),
                _ => None,
            },
            None => None,
        };
        match dflt {
            Some(d) => {
                let dc = d.clone_json();
                obj_set(&mut result, name.as_str(), dc);
                added1.push(path_join(base, name.as_str()));
            },
            None => {
                let msg = "Missing required property '".to_owned().concat(
                    path_join(base, name.as_str()).as_str(),
                ).concat("' and no default is defined");
                reasons1.push(msg);
            },
        }
    }
    let rest = req_fill_exec(result, tprops, names, i + 1, base);
    let mut added = added1;
    let mut reasons = reasons1;
    let ghost av = string_views(added@);
    let ghost mv = string_views(reasons@);
    crate::schema::append_strs(&mut added, rest.1);
    crate::schema::append_strs(&mut reasons, rest.2);
    proof {
        if av.len() == 0 {
            assert(av =~= Seq::<Seq<char>>::empty());
        }
        if mv.len() == 0 {
            assert(mv =~= Seq::<Seq<char>>::empty());
        }
    }
    (rest.0, added, reasons)
}

fn opt_fill_exec(
    result: Vec<(String, Json)>,
    tprops: &Vec<(String, Json)>,
    req_all: &Vec<String>,
    i: usize,
    base: &str,
) -> (r: (Vec<(String, Json)>, Vec<String>))
    requires
        i <= tprops@.len(),
    ensures
        ({
            let sp = spec_opt_fill(
                jv_kvs(result@),
                jv_kvs(tprops@),
                string_views(req_all@),
                i as int,
                base@,
            );
            jv_kvs(r.0@) == sp.0 && string_views(r.1@) == sp.1
        }),
    decreases tprops@.len() - i,
{
    proof {
        lemma_jv_kvs(tprops@);
    }
    if i >= tprops.len() {
        let r = (result, Vec::<String>::new());
        proof {
            assert(string_views(Seq::<String>::empty()) =~= Seq::<Seq<char>>::empty());
        }
        return r;
    }
    let mut result = result;
    let prop = &tprops[i].0;
    let ps = &tprops[i].1;
    let mut added1: Vec<String> = Vec::new();
    let in_req = crate::schema::contains_upto(req_all, req_all.len(), prop.as_str());
    proof {
        assert(string_views(req_all@).take(req_all@.len() as int) =~= string_views(req_all@));
    }
    if !in_req && !obj_has(&result, prop.as_str()) {
        match ps {
            Json::Obj(po) => match obj_get(po, "default") {
                Some(d) => {
                    let dc = d.clone_json();
                    obj_set(&mut result, prop.as_str(), dc);
                    added1.push(path_join(base, prop.as_str()));
                },
                None => {},
            },
            _ => {},
        }
    }
    let rest = opt_fill_exec(result, tprops, req_all, i + 1, base);
    let mut added = added1;
    let ghost av = string_views(added@);
    crate::schema::append_strs(&mut added, rest.1);
    proof {
        if av.len() == 0 {
            assert(av =~= Seq::<Seq<char>>::empty());
        }
    }
    (rest.0, added)
}

fn const_up_exec(result: Vec<(String, Json)>, tprops: &Vec<(String, Json)>, i: usize) -> (r: Vec<
    (String, Json),
>)
    requires
        i <= tprops@.len(),
    ensures
        jv_kvs(r@) == spec_const_up(jv_kvs(result@), jv_kvs(tprops@), i as int),
    decreases tprops@.len() - i,
{
    proof {
        lemma_jv_kvs(tprops@);
    }
    if i >= tprops.len() {
        return result;
    }
    let mut result = result;
    let prop = &tprops[i].0;
    let ps = &tprops[i].1;
    match ps {
        Json::Obj(po) => match obj_get(po, "const") {
            Some(cv) => match obj_get(&result, prop.as_str()) {
                Some(ov) => match (cv, ov) {
                    (Json::Str(cs), Json::Str(os)) => {
                        if GtsID::is_valid(cs.as_str()) && GtsID::is_valid(os.as_str()) && !str_eq(
                            os.as_str(),
                            cs.as_str(),
                        ) {
                            let cvc = cv.clone_json();
                            obj_set(&mut result, prop.as_str(), cvc);
                        }
                    },
                    _ => {},
                },
                None => {},
            },
            None => {},
        },
        _ => {},
    }
    const_up_exec(result, tprops, i + 1)
}

fn keys_of_exec(o: &Vec<(String, Json)>, i: usize) -> (r: Vec<String>)
    requires
        i <= o@.len(),
    ensures
        string_views(r@) == keys_from(jv_kvs(o@), i as int),
    decreases o@.len() - i,
{
    proof {
        lemma_jv_kvs(o@);
    }
    if i >= o.len() {
        let r: Vec<String> = Vec::new();
        proof {
            assert(string_views(r@) =~= keys_from(jv_kvs(o@), i as int));
        }
        return r;
    }
    let mut rest = keys_of_exec(o, i + 1);
    let ghost rest_seq = rest@;
    let mut out: Vec<String> = Vec::new();
    out.push(o[i].0.clone());
    out.append(&mut rest);
    proof {
        assert(forall|k: int|
            0 <= k < rest_seq.len() ==> string_views(rest_seq)[k] == rest_seq[k]@);
        assert(forall|k: int| 0 <= k < out@.len() ==> string_views(out@)[k] == out@[k]@);
        assert(string_views(out@) =~= keys_from(jv_kvs(o@), i as int));
    }
    out
}

fn prune_exec(
    result: Vec<(String, Json)>,
    tprops: &Vec<(String, Json)>,
    keys: &Vec<String>,
    i: usize,
    base: &str,
) -> (r: (Vec<(String, Json)>, Vec<String>))
    requires
        i <= keys@.len(),
    ensures
        ({
            let sp = spec_prune(
                jv_kvs(result@),
                jv_kvs(tprops@),
                string_views(keys@),
                i as int,
                base@,
            );
            jv_kvs(r.0@) == sp.0 && string_views(r.1@) == sp.1
        }),
    decreases keys@.len() - i,
{
    if i >= keys.len() {
        let r = (result, Vec::<String>::new());
        proof {
            assert(string_views(Seq::<String>::empty()) =~= Seq::<Seq<char>>::empty());
        }
        return r;
    }
    let mut result = result;
    let key = &keys[i];
    let mut removed1: Vec<String> = Vec::new();
    proof {
        assert(string_views(keys@)[i as int] == keys@[i as int]@);
    }
    if !obj_has(tprops, key.as_str()) {
        obj_remove(&mut result, key.as_str());
        removed1.push(path_join(base, key.as_str()));
    }
    let rest = prune_exec(result, tprops, keys, i + 1, base);
    let mut removed = removed1;
    let ghost rv = string_views(removed@);
    crate::schema::append_strs(&mut removed, rest.1);
    proof {
        if rv.len() == 0 {
            assert(rv =~= Seq::<Seq<char>>::empty());
        }
    }
    (rest.0, removed)
}

fn has_props_or_req_exec(v: &Json) -> (r: bool)
    ensures
        r == has_props_or_req(v@),
{
    let a = match jv_get_exec(v, "properties") {
        Some(_) => true,
        None => false,
    };
    let b = match jv_get_exec(v, "required") {
        Some(_) => true,
        None => false,
    };
    a || b
}

fn eff_find_exec<'a>(arr: &'a Vec<Json>, i: usize) -> (r: Option<&'a Json>)
    requires
        i <= arr@.len(),
    ensures
        match r {
            None => spec_eff_find(jv_seq(arr@), i as int) is None,
            Some(v) => spec_eff_find(jv_seq(arr@), i as int) == Some(v@),
        },
    decreases arr@.len() - i,
{
    proof {
        lemma_jv_seq(arr@);
    }
    if i >= arr.len() {
        return None;
    }
    let is_obj = match &arr[i] {
        Json::Obj(_) => true,
        _ => false,
    };
    if is_obj && has_props_or_req_exec(&arr[i]) {
        Some(&arr[i])
    } else {
        eff_find_exec(arr, i + 1)
    }
}

/// The schema to recurse with when casting into a nested object.
fn effective_object_schema<'a>(s: &'a Json) -> (r: &'a Json)
    ensures
        r@ == spec_effective(s@),
{
    match s {
        Json::Obj(_) => {
            if has_props_or_req_exec(s) {
                s
            } else {
                match jv_get_exec(s, "allOf") {
                    Some(all_of) => match all_of {
                        Json::Arr(arr) => match eff_find_exec(arr, 0) {
                            Some(v) => v,
                            None => s,
                        },
                        _ => s,
                    },
                    None => s,
                }
            }
        },
        _ => s,
    }
}

fn arr_walk_exec(
    items: &Vec<Json>,
    j: usize,
    nested: &Json,
    base: &str,
    prop: &str,
    depth: u32,
) -> (r: Result<(Vec<Json>, Vec<String>, Vec<String>, Vec<String>), SchemaCastError>)
    requires
        j <= items@.len(),
    ensures
        ({
            let sp = spec_arr_walk(jv_seq(items@), j as int, nested@, base@, prop@, depth as nat);
            match r {
                Ok((vs, a, rm, ms)) => sp == Ok::<_, SpecCastErr>(
                    (jv_seq(vs@), string_views(a@), string_views(rm@), string_views(ms@)),
                ),
                Err(e) => sp == Err::<(Seq<JsonV>, Seq<Seq<char>>, Seq<Seq<char>>, Seq<Seq<char>>), SpecCastErr>(
                    e@,
                ),
            }
        }),
    decreases depth, 0nat, items@.len() - j,
{
    proof {
        lemma_jv_seq(items@);
    }
    if j >= items.len() {
        let r = (Vec::<Json>::new(), Vec::<String>::new(), Vec::<String>::new(), Vec::<
            String,
        >::new());
        proof {
            assert(jv_seq(r.0@) =~= Seq::<JsonV>::empty());
            assert(string_views(Seq::<String>::empty()) =~= Seq::<Seq<char>>::empty());
        }
        return Ok(r);
    }
    let step: (Json, Vec<String>, Vec<String>, Vec<String>) = match &items[j] {
        Json::Obj(e) => {
            if depth > 0 {
                let ecopy = copy_entries(e);
                match cast_instance_to_schema(
                    ecopy,
                    nested,
                    idx_path_join(base, prop, j).as_str(),
                    depth - 1,
                ) {
                    Err(er) => {
                        return Err(er);
                    },
                    Ok((no, a, rm, ms)) => (Json::Obj(no), a, rm, ms),
                }
            } else {
                return Err(
                    SchemaCastError::InternalError(
                        "Maximum cast nesting depth exceeded".to_owned(),
                    ),
                );
            }
        },
        other => (
            other.clone_json(),
            Vec::<String>::new(),
            Vec::<String>::new(),
            Vec::<String>::new(),
        ),
    };
    match arr_walk_exec(items, j + 1, nested, base, prop, depth) {
        Err(er) => Err(er),
        Ok((rest, a2, rm2, ms2)) => {
            let mut vs: Vec<Json> = Vec::new();
            let ghost sv = step.0@;
            vs.push(step.0);
            let mut rest = rest;
            let ghost rest_seq = rest@;
            let ghost restv = jv_seq(rest@);
            vs.append(&mut rest);
            proof {
                lemma_jv_seq(rest_seq);
                crate::json::lemma_jv_seq(vs@);
            }
            let mut a = step.1;
            let mut rm = step.2;
            let mut ms = step.3;
            let ghost av = string_views(a@);
            let ghost rmv = string_views(rm@);
            let ghost msv = string_views(ms@);
            crate::schema::append_strs(&mut a, a2);
            crate::schema::append_strs(&mut rm, rm2);
            crate::schema::append_strs(&mut ms, ms2);
            proof {
                crate::json::lemma_jv_seq(vs@);
                assert(jv_seq(vs@) =~= seq![sv] + restv);
                if av.len() == 0 {
                    assert(av =~= Seq::<Seq<char>>::empty());
                }
                if rmv.len() == 0 {
                    assert(rmv =~= Seq::<Seq<char>>::empty());
                }
                if msv.len() == 0 {
                    assert(msv =~= Seq::<Seq<char>>::empty());
                }
            }
            Ok((vs, a, rm, ms))
        },
    }
}

/// A copy of an object's entries.
#[verifier::loop_isolation(false)]
fn copy_entries(e: &Vec<(String, Json)>) -> (r: Vec<(String, Json)>)
    ensures
        jv_kvs(r@) == jv_kvs(e@),
{
    let mut out: Vec<(String, Json)> = Vec::new();
    let mut i: usize = 0;
    proof {
        lemma_jv_kvs(e@);
        assert(jv_kvs(out@) =~= jv_kvs(e@).take(0));
    }
    while i < e.len()
        invariant
            0 <= i <= e@.len(),
            jv_kvs(out@) == jv_kvs(e@).take(i as int),
            jv_kvs(out@).len() == i,
        decreases e@.len() - i,
    {
        let ghost pre = out@;
        out.push((e[i].0.clone(), e[i].1.clone_json()));
        proof {
            crate::json::lemma_jv_kvs_snoc(out@);
            assert(out@.drop_last() =~= pre);
            assert(jv_kvs(e@).take(i + 1) =~= jv_kvs(e@).take(i as int).push(
                jv_kvs(e@)[i as int],
            ));
        }
        i = i + 1;
    }
    proof {
        assert(jv_kvs(e@).take(e@.len() as int) =~= jv_kvs(e@));
    }
    out
}

fn cast_walk_exec(
    result: Vec<(String, Json)>,
    tprops: &Vec<(String, Json)>,
    i: usize,
    base: &str,
    depth: u32,
) -> (r: Result<(Vec<(String, Json)>, Vec<String>, Vec<String>, Vec<String>), SchemaCastError>)
    requires
        i <= tprops@.len(),
    ensures
        ({
            let sp = spec_cast_walk(jv_kvs(result@), jv_kvs(tprops@), i as int, base@, depth as nat);
            match r {
                Ok((rr, a, rm, ms)) => sp == Ok::<_, SpecCastErr>(
                    (jv_kvs(rr@), string_views(a@), string_views(rm@), string_views(ms@)),
                ),
                Err(e) => sp == Err::<
                    (Seq<(Seq<char>, JsonV)>, Seq<Seq<char>>, Seq<Seq<char>>, Seq<Seq<char>>),
                    SpecCastErr,
                >(e@),
            }
        }),
    decreases depth, 1nat, tprops@.len() - i,
{
    proof {
        lemma_jv_kvs(tprops@);
    }
    if i >= tprops.len() {
        let r = (result, Vec::<String>::new(), Vec::<String>::new(), Vec::<String>::new());
        proof {
            assert(string_views(Seq::<String>::empty()) =~= Seq::<Seq<char>>::empty());
        }
        return Ok(r);
    }
    let mut result = result;
    let prop = &tprops[i].0;
    let ps = &tprops[i].1;
    let mut a1: Vec<String> = Vec::new();
    let mut rm1: Vec<String> = Vec::new();
    let mut ms1: Vec<String> = Vec::new();
    let present = obj_has(&result, prop.as_str());
    let ps_is_obj = match ps {
        Json::Obj(_) => true,
        _ => false,
    };
    if present && ps_is_obj {
        let t_is_object = match get_str(ps, "type") {
            Some(t) => str_eq(t.as_str(), "object"),
            None => false,
        };
        let t_is_array = match get_str(ps, "type") {
            Some(t) => str_eq(t.as_str(), "array"),
            None => false,
        };
        if t_is_object {
            let val_entries: Option<Vec<(String, Json)>> = match obj_get(&result, prop.as_str()) {
                Some(Json::Obj(ventries)) => Some(copy_entries(ventries)),
                _ => None,
            };
            match val_entries {
                Some(ventries) => {
                    if depth > 0 {
                        let nested = effective_object_schema(ps);
                        match cast_instance_to_schema(
                            ventries,
                            nested,
                            path_join(base, prop.as_str()).as_str(),
                            depth - 1,
                        ) {
                            Err(er) => {
                                return Err(er);
                            },
                            Ok((no, a, rm, ms)) => {
                                obj_set(&mut result, prop.as_str(), Json::Obj(no));
                                a1 = a;
                                rm1 = rm;
                                ms1 = ms;
                            },
                        }
                    } else {
                        return Err(
                            SchemaCastError::InternalError(
                                "Maximum cast nesting depth exceeded".to_owned(),
                            ),
                        );
                    }
                },
                None => {},
            }
        } else if t_is_array {
            let val_items: Option<&Vec<Json>> = match obj_get(&result, prop.as_str()) {
                Some(Json::Arr(items)) => Some(items),
                _ => None,
            };
            match val_items {
                Some(items) => match jv_get_exec(ps, "items") {
                    Some(items_schema) => {
                        let is_obj_items = match items_schema {
                            Json::Obj(_) => true,
                            _ => false,
                        };
                        let items_type_obj = match get_str(items_schema, "type") {
                            Some(t) => str_eq(t.as_str(), "object"),
                            None => false,
                        };
                        if is_obj_items && items_type_obj {
                            let nested = effective_object_schema(items_schema);
                            match arr_walk_exec(items, 0, nested, base, prop.as_str(), depth) {
                                Err(er) => {
                                    return Err(er);
                                },
                                Ok((new_items, a, rm, ms)) => {
                                    obj_set(&mut result, prop.as_str(), Json::Arr(new_items));
                                    a1 = a;
                                    rm1 = rm;
                                    ms1 = ms;
                                },
                            }
                        }
                    },
                    None => {},
                },
                None => {},
            }
        }
    }
    match cast_walk_exec(result, tprops, i + 1, base, depth) {
        Err(er) => Err(er),
        Ok((r2, a2, rm2, ms2)) => {
            let mut a = a1;
            let mut rm = rm1;
            let mut ms = ms1;
            let ghost av = string_views(a@);
            let ghost rmv = string_views(rm@);
            let ghost msv = string_views(ms@);
            crate::schema::append_strs(&mut a, a2);
            crate::schema::append_strs(&mut rm, rm2);
            crate::schema::append_strs(&mut ms, ms2);
            proof {
                if av.len() == 0 {
                    assert(av =~= Seq::<Seq<char>>::empty());
                }
                if rmv.len() == 0 {
                    assert(rmv =~= Seq::<Seq<char>>::empty());
                }
                if msv.len() == 0 {
                    assert(msv =~= Seq::<Seq<char>>::empty());
                }
            }
            Ok((r2, a, rm, ms))
        },
    }
}

/// Apply the casting rules to an instance object against a (flattened)
/// target schema, returning the new object with the added paths, removed
/// paths and non-fatal diagnostics.
fn cast_instance_to_schema(
    instance: Vec<(String, Json)>,
    schema: &Json,
    base_path: &str,
    depth: u32,
) -> (r: Result<(Vec<(String, Json)>, Vec<String>, Vec<String>, Vec<String>), SchemaCastError>)
    ensures
        ({
            let sp = spec_cast(jv_kvs(instance@), schema@, base_path@, depth as nat);
            match r {
                Ok((rr, a, rm, ms)) => sp == Ok::<_, SpecCastErr>(
                    (jv_kvs(rr@), string_views(a@), string_views(rm@), string_views(ms@)),
                ),
                Err(e) => sp == Err::<
                    (Seq<(Seq<char>, JsonV)>, Seq<Seq<char>>, Seq<Seq<char>>, Seq<Seq<char>>),
                    SpecCastErr,
                >(e@),
            }
        }),
    decreases depth, 2nat, 0nat,
{
    let so = match schema {
        Json::Obj(so) => so,
        _ => {
            return Err(SchemaCastError::CastError("Schema must be an object".to_owned()));
        },
    };
    let empty_props: Vec<(String, Json)> = Vec::new();
    proof {
        assert(jv_kvs(empty_props@) =~= Seq::<(Seq<char>, JsonV)>::empty());
    }
    let tprops: &Vec<(String, Json)> = match obj_get(so, "properties") {
        Some(Json::Obj(p)) => p,
        _ => &empty_props,
    };
    let req_all: Vec<String> = match obj_get(so, "required") {
        Some(Json::Arr(a)) => crate::schema::str_items_exec(a, 0),
        _ => Vec::new(),
    };
    proof {
        assert(string_views(Seq::<String>::empty()) =~= Seq::<Seq<char>>::empty());
    }
    let empty_names: Vec<String> = Vec::new();
    let req_names = crate::schema::sel_diff_exec(&req_all, &empty_names, 0);
    let additional: bool = match obj_get(so, "additionalProperties") {
        Some(Json::Bool(b)) => *b,
        _ => true,
    };
    let st1 = req_fill_exec(instance, tprops, &req_names, 0, base_path);
    let st2 = opt_fill_exec(st1.0, tprops, &req_all, 0, base_path);
    let r3 = const_up_exec(st2.0, tprops, 0);
    let (r4, removed): (Vec<(String, Json)>, Vec<String>) = if !additional {
        let keys = keys_of_exec(&r3, 0);
        prune_exec(r3, tprops, &keys, 0, base_path)
    } else {
        (r3, Vec::new())
    };
    match cast_walk_exec(r4, tprops, 0, base_path, depth) {
        Err(er) => Err(er),
        Ok((r5, a5, rm5, ms5)) => {
            let mut added = st1.1;
            crate::schema::append_strs(&mut added, st2.1);
            crate::schema::append_strs(&mut added, a5);
            let mut removed = removed;
            let ghost rmv = string_views(removed@);
            crate::schema::append_strs(&mut removed, rm5);
            let mut reasons = st1.2;
            crate::schema::append_strs(&mut reasons, ms5);
            proof {
                if rmv.len() == 0 {
                    assert(rmv =~= Seq::<Seq<char>>::empty());
                }
            }
            Ok((r5, added, removed, reasons))
        },
    }
}

/// The direction of a cast between two identifiers: `up` or `down` by the
/// minor versions of their last segments, `none` when equal, `unknown`
/// when either side lacks a parse or a minor version.
pub open spec fn spec_infer_direction(f: Seq<char>, t: Seq<char>) -> Seq<char> {
    match (spec_parse_id(f), spec_parse_id(t)) {
        (Ok(gf), Ok(gt)) => {
            if gf.segments.len() > 0 && gt.segments.len() > 0 {
                match (gf.segments.last().ver_minor, gt.segments.last().ver_minor) {
                    (Some(fm), Some(tm)) => {
                        if tm > fm {
                            "up"@
                        } else if tm < fm {
                            "down"@
                        } else {
                            "none"@
                        }
                    },
                    _ => "unknown"@,
                }
            } else {
                "unknown"@
            }
        },
        _ => "unknown"@,
    }
}

proof fn lemma_req_fill_noadd(
    result: Seq<(Seq<char>, JsonV)>,
    tprops: Seq<(Seq<char>, JsonV)>,
    names: Seq<Seq<char>>,
    i: int,
    base: Seq<char>,
)
    requires
        forall|j: int|
            0 <= j < names.len() && default_of(tprops, #[trigger] names[j]) is Some ==> jv_obj_get(
                result,
                names[j],
            ) is Some,
    ensures
        spec_req_fill(result, tprops, names, i, base).0 == result,
        spec_req_fill(result, tprops, names, i, base).1 == Seq::<Seq<char>>::empty(),
    decreases names.len() - i,
{
    if 0 <= i < names.len() {
        lemma_req_fill_noadd(result, tprops, names, i + 1, base);
        assert(Seq::<Seq<char>>::empty() + Seq::<Seq<char>>::empty() =~= Seq::<Seq<char>>::empty());
    }
}

proof fn lemma_opt_fill_identity(
    result: Seq<(Seq<char>, JsonV)>,
    tprops: Seq<(Seq<char>, JsonV)>,
    req_all: Seq<Seq<char>>,
    i: int,
    base: Seq<char>,
)
    requires
        forall|j: int|
            0 <= j < tprops.len() && (match entries_of((#[trigger] tprops[j]).1) {
                Some(po) => jv_obj_get(po, "default"@) is Some,
                None => false,
            }) ==> jv_obj_get(result, tprops[j].0) is Some,
    ensures
        spec_opt_fill(result, tprops, req_all, i, base) == (result, Seq::<Seq<char>>::empty()),
    decreases tprops.len() - i,
{
    if 0 <= i < tprops.len() {
        lemma_opt_fill_identity(result, tprops, req_all, i + 1, base);
        assert(Seq::<Seq<char>>::empty() + Seq::<Seq<char>>::empty() =~= Seq::<Seq<char>>::empty());
    }
}

/// No declared string `const` that is a GTS identifier differs from a
/// valid GTS string already present: the upgrade pass changes nothing.
proof fn lemma_const_up_identity(
    result: Seq<(Seq<char>, JsonV)>,
    tprops: Seq<(Seq<char>, JsonV)>,
    i: int,
)
    requires
        forall|j: int|
            0 <= j < tprops.len() ==> match entries_of((#[trigger] tprops[j]).1) {
                Some(po) => match jv_obj_get(po, "const"@) {
                    Some(JsonV::Str(cs)) => match jv_obj_get(result, tprops[j].0) {
                        Some(JsonV::Str(os)) => (spec_is_valid(cs) && spec_is_valid(os)) ==> os
                            == cs,
                        _ => true,
                    },
                    _ => true,
                },
                None => true,
            },
    ensures
        spec_const_up(result, tprops, i) == result,
    decreases tprops.len() - i,
{
    if 0 <= i < tprops.len() {
        lemma_const_up_identity(result, tprops, i + 1);
    }
}

proof fn lemma_prune_identity(
    result: Seq<(Seq<char>, JsonV)>,
    tprops: Seq<(Seq<char>, JsonV)>,
    keys: Seq<Seq<char>>,
    i: int,
    base: Seq<char>,
)
    requires
        forall|j: int|
            0 <= j < keys.len() ==> jv_obj_get(tprops, #[trigger] keys[j]) is Some,
    ensures
        spec_prune(result, tprops, keys, i, base) == (result, Seq::<Seq<char>>::empty()),
    decreases keys.len() - i,
{
    if 0 <= i < keys.len() {
        lemma_prune_identity(result, tprops, keys, i + 1, base);
        assert(Seq::<Seq<char>>::empty() + Seq::<Seq<char>>::empty() =~= Seq::<Seq<char>>::empty());
    }
}

/// A property of an object binds the value the lookup finds; rebinding
/// it changes nothing.
proof fn lemma_obj_set_same(o: Seq<(Seq<char>, JsonV)>, k: Seq<char>, v: JsonV)
    requires
        jv_obj_get(o, k) == Some(v),
    ensures
        jv_obj_set(o, k, v) == o,
    decreases o.len(),
{
    if o.len() > 0 {
        if o[0].0 == k {
            assert(seq![(k, v)] + o.drop_first() =~= o);
        } else {
            lemma_obj_set_same(o.drop_first(), k, v);
            assert(seq![o[0]] + o.drop_first() =~= o);
        }
    }
}

/// The non-recursive conditions under which the filling, upgrading and
/// pruning passes leave an instance unchanged: every required or declared
/// name that supplies a default is present, no declared GTS `const`
/// differs from the valid GTS string it governs, and every key is
/// declared when `additionalProperties` is `false`.
pub open spec fn noop_locally(
    inst: Seq<(Seq<char>, JsonV)>,
    tprops: Seq<(Seq<char>, JsonV)>,
    req_all: Seq<Seq<char>>,
    additional: bool,
) -> bool {
    &&& forall|j: int|
        0 <= j < req_all.len() && default_of(tprops, #[trigger] req_all[j]) is Some ==> jv_obj_get(
            inst,
            req_all[j],
        ) is Some
    &&& forall|j: int|
        0 <= j < tprops.len() && (match entries_of((#[trigger] tprops[j]).1) {
            Some(po) => jv_obj_get(po, "default"@) is Some,
            None => false,
        }) ==> jv_obj_get(inst, tprops[j].0) is Some
    &&& forall|j: int|
        0 <= j < tprops.len() ==> match entries_of((#[trigger] tprops[j]).1) {
            Some(po) => match jv_obj_get(po, "const"@) {
                Some(JsonV::Str(cs)) => match jv_obj_get(inst, tprops[j].0) {
                    Some(JsonV::Str(os)) => (spec_is_valid(cs) && spec_is_valid(os)) ==> os == cs,
                    _ => true,
                },
                _ => true,
            },
            None => true,
        }
    &&& !additional ==> forall|j: int|
        0 <= j < inst.len() ==> jv_obj_get(tprops, (#[trigger] inst[j]).0) is Some
}

/// Casting changes nothing: the local conditions hold here and,
/// recursively, for every object-typed property and every object element
/// of an array-typed property present in the instance.
pub open spec fn spec_cast_noop(inst: Seq<(Seq<char>, JsonV)>, schema: JsonV, depth: nat) -> bool
    decreases depth, 2nat, 0nat,
{
    &&& entries_of(schema) is Some
    &&& {
        let so = entries_of(schema).unwrap();
        let tprops = match jv_obj_get(so, "properties"@) {
            Some(JsonV::Obj(p)) => p,
            _ => Seq::<(Seq<char>, JsonV)>::empty(),
        };
        let req_all = match jv_obj_get(so, "required"@) {
            Some(JsonV::Arr(a)) => str_items_from(a, 0),
            _ => Seq::<Seq<char>>::empty(),
        };
        let additional = match jv_obj_get(so, "additionalProperties"@) {
            Some(JsonV::Bool(b)) => b,
            _ => true,
        };
        noop_locally(inst, tprops, req_all, additional) && spec_walk_noop(inst, tprops, 0, depth)
    }
}

pub open spec fn spec_walk_noop(
    inst: Seq<(Seq<char>, JsonV)>,
    tprops: Seq<(Seq<char>, JsonV)>,
    i: int,
    depth: nat,
) -> bool
    decreases depth, 1nat, tprops.len() - i,
{
    if i < 0 || i >= tprops.len() {
        true
    } else {
        let prop = tprops[i].0;
        let ps = tprops[i].1;
        let here: bool = if entries_of(ps) is Some {
            if jv_get_str(ps, "type"@) == Some("object"@) {
                match jv_obj_get(inst, prop) {
                    Some(JsonV::Obj(ventries)) => depth > 0 && spec_cast_noop(
                        ventries,
                        spec_effective(ps),
                        (depth - 1) as nat,
                    ),
                    _ => true,
                }
            } else if jv_get_str(ps, "type"@) == Some("array"@) {
                match jv_obj_get(inst, prop) {
                    Some(JsonV::Arr(items)) => match jv_get(ps, "items"@) {
                        Some(items_schema) => {
                            if entries_of(items_schema) is Some && jv_get_str(
                                items_schema,
                                "type"@,
                            ) == Some("object"@) {
                                spec_arr_noop(items, 0, spec_effective(items_schema), depth)
                            } else {
                                true
                            }
                        },
                        None => true,
                    },
                    _ => true,
                }
            } else {
                true
            }
        } else {
            true
        };
        here && spec_walk_noop(inst, tprops, i + 1, depth)
    }
}

pub open spec fn spec_arr_noop(items: Seq<JsonV>, j: int, nested: JsonV, depth: nat) -> bool
    decreases depth, 0nat, items.len() - j,
{
    if j < 0 || j >= items.len() {
        true
    } else {
        (match items[j] {
            JsonV::Obj(e) => depth > 0 && spec_cast_noop(e, nested, (depth - 1) as nat),
            _ => true,
        }) && spec_arr_noop(items, j + 1, nested, depth)
    }
}

proof fn lemma_arr_walk_noop(
    items: Seq<JsonV>,
    j: int,
    nested: JsonV,
    base: Seq<char>,
    prop: Seq<char>,
    depth: nat,
)
    requires
        0 <= j <= items.len(),
        spec_arr_noop(items, j, nested, depth),
    ensures
        spec_arr_walk(items, j, nested, base, prop, depth) matches Ok((vs, a, rm, _)) && vs
            == items.skip(j) && a == Seq::<Seq<char>>::empty() && rm == Seq::<Seq<char>>::empty(),
    decreases depth, 0nat, items.len() - j,
{
    if j >= items.len() {
        assert(items.skip(j) =~= Seq::<JsonV>::empty());
    } else {
        match items[j] {
            JsonV::Obj(e) => {
                lemma_cast_noop(e, nested, idx_path_of(base, prop, j), (depth - 1) as nat);
            },
            _ => {},
        }
        lemma_arr_walk_noop(items, j + 1, nested, base, prop, depth);
        assert(seq![items[j]] + items.skip(j + 1) =~= items.skip(j));
        assert(Seq::<Seq<char>>::empty() + Seq::<Seq<char>>::empty() =~= Seq::<Seq<char>>::empty());
    }
}

proof fn lemma_walk_noop(
    result: Seq<(Seq<char>, JsonV)>,
    tprops: Seq<(Seq<char>, JsonV)>,
    i: int,
    base: Seq<char>,
    depth: nat,
)
    requires
        0 <= i <= tprops.len(),
        spec_walk_noop(result, tprops, i, depth),
    ensures
        spec_cast_walk(result, tprops, i, base, depth) matches Ok((r, a, rm, _)) && r == result
            && a == Seq::<Seq<char>>::empty() && rm == Seq::<Seq<char>>::empty(),
    decreases depth, 1nat, tprops.len() - i,
{
    if i < tprops.len() {
        let prop = tprops[i].0;
        let ps = tprops[i].1;
        if entries_of(ps) is Some {
            if jv_get_str(ps, "type"@) == Some("object"@) {
                match jv_obj_get(result, prop) {
                    Some(JsonV::Obj(ventries)) => {
                        lemma_cast_noop(
                            ventries,
                            spec_effective(ps),
                            path_of(base, prop),
                            (depth - 1) as nat,
                        );
                        lemma_obj_set_same(result, prop, JsonV::Obj(ventries));
                    },
                    _ => {},
                }
            } else if jv_get_str(ps, "type"@) == Some("array"@) {
                match jv_obj_get(result, prop) {
                    Some(JsonV::Arr(items)) => {
                        match jv_get(ps, "items"@) {
                            Some(items_schema) => {
                                if entries_of(items_schema) is Some && jv_get_str(
                                    items_schema,
                                    "type"@,
                                ) == Some("object"@) {
                                    lemma_arr_walk_noop(
                                        items,
                                        0,
                                        spec_effective(items_schema),
                                        base,
                                        prop,
                                        depth,
                                    );
                                    assert(items.skip(0) =~= items);
                                    lemma_obj_set_same(result, prop, JsonV::Arr(items));
                                }
                            },
                            None => {},
                        }
                    },
                    _ => {},
                }
            }
        }
        lemma_walk_noop(result, tprops, i + 1, base, depth);
        assert(Seq::<Seq<char>>::empty() + Seq::<Seq<char>>::empty() =~= Seq::<Seq<char>>::empty());
    }
}

proof fn lemma_keys_from_are_keys(o: Seq<(Seq<char>, JsonV)>, i: int)
    requires
        0 <= i <= o.len(),
    ensures
        keys_from(o, i).len() == o.len() - i,
        forall|j: int| i <= j < o.len() ==> keys_from(o, i)[j - i] == (#[trigger] o[j]).0,
    decreases o.len() - i,
{
    if i < o.len() {
        lemma_keys_from_are_keys(o, i + 1);
        assert(forall|p: int|
            1 <= p < keys_from(o, i).len() ==> #[trigger] keys_from(o, i)[p] == keys_from(
                o,
                i + 1,
            )[p - 1]);
    }
}

/// Casting idempotence: under the no-op conditions — every name that
/// supplies a default present, no differing GTS `const`, no undeclared
/// key when extras are forbidden, recursively through object- and
/// array-typed properties — the cast returns the instance unchanged with
/// empty diffs. Required names without defaults may still add
/// diagnostics; the entity itself does not change.
pub proof fn lemma_cast_noop(
    inst: Seq<(Seq<char>, JsonV)>,
    schema: JsonV,
    base: Seq<char>,
    depth: nat,
)
    requires
        spec_cast_noop(inst, schema, depth),
    ensures
        spec_cast(inst, schema, base, depth) matches Ok((r, a, rm, _)) && r == inst && a
            == Seq::<Seq<char>>::empty() && rm == Seq::<Seq<char>>::empty(),
    decreases depth, 2nat, 0nat,
{
    let so = entries_of(schema).unwrap();
    let tprops = match jv_obj_get(so, "properties"@) {
        Some(JsonV::Obj(p)) => p,
        _ => Seq::<(Seq<char>, JsonV)>::empty(),
    };
    let req_all = match jv_obj_get(so, "required"@) {
        Some(JsonV::Arr(a)) => str_items_from(a, 0),
        _ => Seq::<Seq<char>>::empty(),
    };
    let req_names = sel_diff_from(req_all, Seq::empty(), 0);
    assert forall|j: int|
        0 <= j < req_names.len() && default_of(tprops, #[trigger] req_names[j]) is Some
        implies jv_obj_get(inst, req_names[j]) is Some by {
        lemma_sel_diff_members(req_all, Seq::empty(), 0);
        assert(req_names[j] == sel_diff_from(req_all, Seq::empty(), 0)[j]);
        assert(exists|k: int|
            0 <= k < req_all.len() && req_all[k] == sel_diff_from(req_all, Seq::empty(), 0)[j]);
        let k = choose|k: int| 0 <= k < req_all.len() && req_all[k] == req_names[j];
        assert(default_of(tprops, req_all[k]) is Some);
    };
    lemma_req_fill_noadd(inst, tprops, req_names, 0, base);
    lemma_opt_fill_identity(inst, tprops, req_all, 0, base);
    lemma_const_up_identity(inst, tprops, 0);
    let additional = match jv_obj_get(so, "additionalProperties"@) {
        Some(JsonV::Bool(b)) => b,
        _ => true,
    };
    if !additional {
        let keys = keys_from(inst, 0);
        lemma_keys_from_are_keys(inst, 0);
        assert forall|j: int|
            0 <= j < keys.len() implies jv_obj_get(tprops, #[trigger] keys[j]) is Some by {
            assert(keys[j] == inst[j].0);
        };
        lemma_prune_identity(inst, tprops, keys, 0, base);
    }
    lemma_walk_noop(inst, tprops, 0, base, depth);
    assert(Seq::<Seq<char>>::empty() + Seq::<Seq<char>>::empty() + Seq::<Seq<char>>::empty() =~= Seq::<
        Seq<char>,
    >::empty());
}

/// Every member of a selection difference is a member of the source.
proof fn lemma_sel_diff_members(a: Seq<Seq<char>>, b: Seq<Seq<char>>, i: int)
    ensures
        forall|j: int|
            0 <= j < sel_diff_from(a, b, i).len() ==> exists|k: int|
                0 <= k < a.len() && a[k] == #[trigger] sel_diff_from(a, b, i)[j],
    decreases a.len() - i,
{
    if 0 <= i < a.len() {
        lemma_sel_diff_members(a, b, i + 1);
        let d = sel_diff_from(a, b, i);
        let rest = sel_diff_from(a, b, i + 1);
        assert forall|j: int|
            0 <= j < d.len() implies exists|k: int| 0 <= k < a.len() && a[k] == #[trigger] d[j] by {
            if !contains_str_local(b, a[i]) && !contains_str_local(a.take(i), a[i]) {
                if j == 0 {
                    assert(a[i] == d[0]);
                } else {
                    assert(d[j] == rest[j - 1]);
                }
            } else {
                assert(d[j] == rest[j]);
            }
        };
    }
}

spec fn contains_str_local(s: Seq<Seq<char>>, x: Seq<char>) -> bool {
    crate::schema::contains_str(s, x)
}

/// Direction inference is antisymmetric: when a cast from `a` to `b`
/// goes up, the cast from `b` to `a` goes down.
pub proof fn lemma_direction_antisymmetric(a: Seq<char>, b: Seq<char>)
    requires
        spec_infer_direction(a, b) == "up"@,
    ensures
        spec_infer_direction(b, a) == "down"@,
{
    reveal_strlit("up");
    reveal_strlit("down");
    reveal_strlit("none");
    reveal_strlit("unknown");
}

/// The result of casting one instance toward another schema version:
/// identifiers, direction, diff paths, compatibility diagnostics and the
/// transformed document.
#[derive(Debug)]
pub struct JsonEntityCastResult {
    pub from_id: String,
    pub to_id: String,
    pub old_id: String,
    pub new_id: String,
    pub direction: String,
    pub added_properties: Vec<String>,
    pub removed_properties: Vec<String>,
    pub changed_properties: Vec<Vec<(String, String)>>,
    pub is_fully_compatible: bool,
    pub is_backward_compatible: bool,
    pub is_forward_compatible: bool,
    pub incompatibility_reasons: Vec<String>,
    pub backward_errors: Vec<String>,
    pub forward_errors: Vec<String>,
    pub casted_entity: Option<Json>,
    pub error: Option<String>,
}

impl JsonEntityCastResult {
    /// The direction of a cast between two identifiers.
    pub fn infer_direction(from_id: &str, to_id: &str) -> (r: String)
        ensures
            r@ == spec_infer_direction(from_id@, to_id@),
    {
        match (GtsID::new(from_id), GtsID::new(to_id)) {
            (Ok(gf), Ok(gt)) => {
                let nf = gf.gts_id_segments.len();
                let nt = gt.gts_id_segments.len();
                if nf > 0 && nt > 0 {
                    proof {
                        assert(crate::ids::seg_views(gf.gts_id_segments@).last()
                            == gf.gts_id_segments@.last()@);
                        assert(crate::ids::seg_views(gt.gts_id_segments@).last()
                            == gt.gts_id_segments@.last()@);
                    }
                    match (gf.gts_id_segments[nf - 1].ver_minor, gt.gts_id_segments[nt
                        - 1].ver_minor) {
                        (Some(fm), Some(tm)) => {
                            if tm > fm {
                                "up".to_owned()
                            } else if tm < fm {
                                "down".to_owned()
                            } else {
                                "none".to_owned()
                            }
                        },
                        _ => "unknown".to_owned(),
                    }
                } else {
                    "unknown".to_owned()
                }
            },
            _ => "unknown".to_owned(),
        }
    }

    /// Cast an instance document toward a target schema: infer the
    /// direction, check compatibility both ways against the pair oriented
    /// by that direction, and transform the instance against the
    /// flattened target. A non-object instance is a fatal error; a failed
    /// transformation populates the result's `error` field, with empty
    /// diff lists and no casted entity.
    pub fn cast(
        from_instance_id: &str,
        to_schema_id: &str,
        from_instance_content: &Json,
        from_schema_content: &Json,
        to_schema_content: &Json,
        _resolver: Option<&()>,
    ) -> (r: Result<JsonEntityCastResult, SchemaCastError>)
        ensures
            ({
                let dir = spec_infer_direction(from_instance_id@, to_schema_id@);
                let oriented_old = if dir == "down"@ {
                    to_schema_content@
                } else {
                    from_schema_content@
                };
                let oriented_new = if dir == "down"@ {
                    from_schema_content@
                } else {
                    to_schema_content@
                };
                match r {
                    Err(e) => e@ == SpecCastErr::Instance && entries_of(from_instance_content@)
                        is None,
                    Ok(res) => {
                        &&& entries_of(from_instance_content@) is Some
                        &&& res.from_id@ == from_instance_id@
                        &&& res.to_id@ == to_schema_id@
                        &&& res.old_id@ == from_instance_id@
                        &&& res.new_id@ == to_schema_id@
                        &&& res.direction@ == dir
                        &&& string_views(res.backward_errors@) == spec_compat(
                            oriented_old,
                            oriented_new,
                            true,
                            max_depth(),
                        )
                        &&& string_views(res.forward_errors@) == spec_compat(
                            oriented_old,
                            oriented_new,
                            false,
                            max_depth(),
                        )
                        &&& res.is_backward_compatible == (string_views(
                            res.backward_errors@,
                        ).len() == 0)
                        &&& res.is_forward_compatible == (string_views(res.forward_errors@).len()
                            == 0)
                        &&& res.changed_properties@.len() == 0
                        &&& match spec_cast(
                            entries_of(from_instance_content@).unwrap(),
                            spec_flatten(to_schema_content@, max_depth()),
                            ""@,
                            max_depth(),
                        ) {
                            Ok((casted, added, removed, reasons)) => {
                                &&& res.casted_entity matches Some(c) && c@ == JsonV::Obj(casted)
                                &&& string_views(res.added_properties@) == sort_dedup(added)
                                &&& string_views(res.removed_properties@) == sort_dedup(removed)
                                &&& string_views(res.incompatibility_reasons@) == reasons
                                &&& res.is_fully_compatible == true
                                &&& res.error is None
                            },
                            Err(e) => {
                                &&& res.casted_entity is None
                                &&& res.added_properties@.len() == 0
                                &&& res.removed_properties@.len() == 0
                                &&& res.incompatibility_reasons@.len() == 0
                                &&& res.is_fully_compatible == false
                                &&& res.error matches Some(m) && m@ == spec_cast_err_message(e)
                            },
                        }
                    },
                }
            }),
    {
        let target_schema = flatten_schema(to_schema_content);
        let direction = Self::infer_direction(from_instance_id, to_schema_id);
        let down = str_eq(direction.as_str(), "down");
        let (old_schema, new_schema) = if down {
            (to_schema_content, from_schema_content)
        } else {
            (from_schema_content, to_schema_content)
        };
        let (is_backward, backward_errors) = check_backward_compatibility(old_schema, new_schema);
        let (is_forward, forward_errors) = check_forward_compatibility(old_schema, new_schema);
        let instance_obj: Vec<(String, Json)> = match from_instance_content {
            Json::Obj(o) => copy_entries(o),
            _ => {
                return Err(SchemaCastError::InstanceMustBeObject);
            },
        };
        match cast_instance_to_schema(instance_obj, &target_schema, "", 64) {
            Err(e) => {
                let msg = e.message();
                Ok(
                    JsonEntityCastResult {
                        from_id: from_instance_id.to_owned(),
                        to_id: to_schema_id.to_owned(),
                        old_id: from_instance_id.to_owned(),
                        new_id: to_schema_id.to_owned(),
                        direction,
                        added_properties: Vec::new(),
                        removed_properties: Vec::new(),
                        changed_properties: Vec::new(),
                        is_fully_compatible: false,
                        is_backward_compatible: is_backward,
                        is_forward_compatible: is_forward,
                        incompatibility_reasons: Vec::new(),
                        backward_errors,
                        forward_errors,
                        casted_entity: None,
                        error: Some(msg),
                    },
                )
            },
            Ok((casted, added, removed, reasons)) => {
                let added_sorted = sort_dedup_exec(added);
                let removed_sorted = sort_dedup_exec(removed);
                Ok(
                    JsonEntityCastResult {
                        from_id: from_instance_id.to_owned(),
                        to_id: to_schema_id.to_owned(),
                        old_id: from_instance_id.to_owned(),
                        new_id: to_schema_id.to_owned(),
                        direction,
                        added_properties: added_sorted,
                        removed_properties: removed_sorted,
                        changed_properties: Vec::new(),
                        is_fully_compatible: true,
                        is_backward_compatible: is_backward,
                        is_forward_compatible: is_forward,
                        incompatibility_reasons: reasons,
                        backward_errors,
                        forward_errors,
                        casted_entity: Some(Json::Obj(casted)),
                        error: None,
                    },
                )
            },
        }
    }
}

pub open spec fn strs_jv_from(s: Seq<Seq<char>>, i: int) -> Seq<JsonV>
    decreases s.len() - i,
{
    if i < 0 || i >= s.len() {
        Seq::empty()
    } else {
        seq![JsonV::Str(s[i])] + strs_jv_from(s, i + 1)
    }
}

pub open spec fn pairs_kvs_from(p: Seq<(String, String)>, i: int) -> Seq<(Seq<char>, JsonV)>
    decreases p.len() - i,
{
    if i < 0 || i >= p.len() {
        Seq::empty()
    } else {
        seq![(p[i].0@, JsonV::Str(p[i].1@))] + pairs_kvs_from(p, i + 1)
    }
}

pub open spec fn changed_jv_from(cs: Seq<Vec<(String, String)>>, i: int) -> Seq<JsonV>
    decreases cs.len() - i,
{
    if i < 0 || i >= cs.len() {
        Seq::empty()
    } else {
        seq![JsonV::Obj(pairs_kvs_from(cs[i]@, 0))] + changed_jv_from(cs, i + 1)
    }
}

/// The serialized shape of a cast result: one object with the fixed field
/// names, `error` present only when set.
pub open spec fn spec_to_dict(r: JsonEntityCastResult) -> JsonV {
    let base = seq![
        ("from"@, JsonV::Str(r.from_id@)),
        ("to"@, JsonV::Str(r.to_id@)),
        ("old"@, JsonV::Str(r.old_id@)),
        ("new"@, JsonV::Str(r.new_id@)),
        ("direction"@, JsonV::Str(r.direction@)),
        ("added_properties"@, JsonV::Arr(strs_jv_from(string_views(r.added_properties@), 0))),
        ("removed_properties"@, JsonV::Arr(strs_jv_from(string_views(r.removed_properties@), 0))),
        ("changed_properties"@, JsonV::Arr(changed_jv_from(r.changed_properties@, 0))),
        ("is_fully_compatible"@, JsonV::Bool(r.is_fully_compatible)),
        ("is_backward_compatible"@, JsonV::Bool(r.is_backward_compatible)),
        ("is_forward_compatible"@, JsonV::Bool(r.is_forward_compatible)),
        (
            "incompatibility_reasons"@,
            JsonV::Arr(strs_jv_from(string_views(r.incompatibility_reasons@), 0)),
        ),
        ("backward_errors"@, JsonV::Arr(strs_jv_from(string_views(r.backward_errors@), 0))),
        ("forward_errors"@, JsonV::Arr(strs_jv_from(string_views(r.forward_errors@), 0))),
        (
            "casted_entity"@,
            match r.casted_entity {
                Some(c) => c@,
                None => JsonV::Null,
            },
        ),
    ];
    match r.error {
        Some(e) => JsonV::Obj(base + seq![("error"@, JsonV::Str(e@))]),
        None => JsonV::Obj(base),
    }
}

fn strs_to_json(v: &Vec<String>, i: usize) -> (r: Vec<Json>)
    requires
        i <= v@.len(),
    ensures
        jv_seq(r@) == strs_jv_from(string_views(v@), i as int),
    decreases v@.len() - i,
{
    if i >= v.len() {
        let r: Vec<Json> = Vec::new();
        proof {
            assert(jv_seq(r@) =~= strs_jv_from(string_views(v@), i as int));
        }
        return r;
    }
    let mut rest = strs_to_json(v, i + 1);
    let ghost rest_seq = rest@;
    let mut out: Vec<Json> = Vec::new();
    out.push(Json::Str(v[i].clone()));
    out.append(&mut rest);
    proof {
        lemma_jv_seq(rest_seq);
        lemma_jv_seq(out@);
        assert(string_views(v@)[i as int] == v@[i as int]@);
        assert(jv_seq(out@) =~= strs_jv_from(string_views(v@), i as int));
    }
    out
}

fn pairs_to_entries(p: &Vec<(String, String)>, i: usize) -> (r: Vec<(String, Json)>)
    requires
        i <= p@.len(),
    ensures
        jv_kvs(r@) == pairs_kvs_from(p@, i as int),
    decreases p@.len() - i,
{
    if i >= p.len() {
        let r: Vec<(String, Json)> = Vec::new();
        proof {
            assert(jv_kvs(r@) =~= pairs_kvs_from(p@, i as int));
        }
        return r;
    }
    let mut rest = pairs_to_entries(p, i + 1);
    let ghost rest_seq = rest@;
    let mut out: Vec<(String, Json)> = Vec::new();
    out.push((p[i].0.clone(), Json::Str(p[i].1.clone())));
    out.append(&mut rest);
    proof {
        lemma_jv_kvs(rest_seq);
        lemma_jv_kvs(out@);
        assert(jv_kvs(out@) =~= pairs_kvs_from(p@, i as int));
    }
    out
}

fn changed_to_json(cs: &Vec<Vec<(String, String)>>, i: usize) -> (r: Vec<Json>)
    requires
        i <= cs@.len(),
    ensures
        jv_seq(r@) == changed_jv_from(cs@, i as int),
    decreases cs@.len() - i,
{
    if i >= cs.len() {
        let r: Vec<Json> = Vec::new();
        proof {
            assert(jv_seq(r@) =~= changed_jv_from(cs@, i as int));
        }
        return r;
    }
    let mut rest = changed_to_json(cs, i + 1);
    let ghost rest_seq = rest@;
    let entries = pairs_to_entries(&cs[i], 0);
    let mut out: Vec<Json> = Vec::new();
    out.push(Json::Obj(entries));
    out.append(&mut rest);
    proof {
        lemma_jv_seq(rest_seq);
        lemma_jv_seq(out@);
        assert(jv_seq(out@) =~= changed_jv_from(cs@, i as int));
    }
    out
}

impl JsonEntityCastResult {
    /// The result as one JSON object, with the serialized field names.
    #[verifier::rlimit(30)]
    pub fn to_dict(&self) -> (r: Json)
        ensures
            r@ == spec_to_dict(*self),
    {
        let mut entries: Vec<(String, Json)> = Vec::new();
        entries.push(("from".to_owned(), Json::Str(self.from_id.clone())));
        entries.push(("to".to_owned(), Json::Str(self.to_id.clone())));
        entries.push(("old".to_owned(), Json::Str(self.old_id.clone())));
        entries.push(("new".to_owned(), Json::Str(self.new_id.clone())));
        entries.push(("direction".to_owned(), Json::Str(self.direction.clone())));
        entries.push(
            ("added_properties".to_owned(), Json::Arr(strs_to_json(&self.added_properties, 0))),
        );
        entries.push(
            ("removed_properties".to_owned(), Json::Arr(strs_to_json(&self.removed_properties, 0))),
        );
        entries.push(
            (
                "changed_properties".to_owned(),
                Json::Arr(changed_to_json(&self.changed_properties, 0)),
            ),
        );
        entries.push(("is_fully_compatible".to_owned(), Json::Bool(self.is_fully_compatible)));
        entries.push(
            ("is_backward_compatible".to_owned(), Json::Bool(self.is_backward_compatible)),
        );
        entries.push(("is_forward_compatible".to_owned(), Json::Bool(self.is_forward_compatible)));
        entries.push(
            (
                "incompatibility_reasons".to_owned(),
                Json::Arr(strs_to_json(&self.incompatibility_reasons, 0)),
            ),
        );
        entries.push(
            ("backward_errors".to_owned(), Json::Arr(strs_to_json(&self.backward_errors, 0))),
        );
        entries.push(
            ("forward_errors".to_owned(), Json::Arr(strs_to_json(&self.forward_errors, 0))),
        );
        let casted = match &self.casted_entity {
            Some(c) => c.clone_json(),
            None => Json::Null,
        };
        entries.push(("casted_entity".to_owned(), casted));
        match &self.error {
            Some(e) => {
                entries.push(("error".to_owned(), Json::Str(e.clone())));
            },
            None => {},
        }
        let r = Json::Obj(entries);
        proof {
            lemma_jv_kvs(r->Obj_0@);
            match self.error {
                Some(_) => {
                    assert(r@ == spec_to_dict(*self)) by {
                        assert(jv_kvs(r->Obj_0@) =~= spec_to_dict(*self)->Obj_0);
                    };
                },
                None => {
                    assert(r@ == spec_to_dict(*self)) by {
                        assert(jv_kvs(r->Obj_0@) =~= spec_to_dict(*self)->Obj_0);
                    };
                },
            }
        }
        r
    }
}

} // verus!
