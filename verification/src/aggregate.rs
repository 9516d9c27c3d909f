use vstd::prelude::*;
use vstd::string::*;
use crate::json::{JsonValue, Json, jm, jm_seq, jm_obj, lemma_jm_obj_index, lemma_jm_obj_len,
    clone_value, clone_values};
use crate::store::{lookup, key_at, has_key, lemma_key_at_properties};
use crate::text::str_eq;

verus! {

/// One function of an analyzed file, as the aggregate payload carries it.
#[derive(Debug, PartialEq, Eq)]
pub struct FunctionData {
    pub name: String,
    pub parameters: Vec<JsonValue>,
    pub return_type: Option<JsonValue>,
    pub function_calls: Vec<JsonValue>,
}

/// The aggregate payload's entry for one analyzed file.
#[derive(Debug, PartialEq, Eq)]
pub struct LspFileMessage {
    pub file_name: String,
    pub classes: Vec<JsonValue>,
    pub functions: Vec<FunctionData>,
    pub imports: Vec<JsonValue>,
}

#[verifier::ext_equal]
pub struct FunctionDataModel {
    pub name: Seq<char>,
    pub parameters: Seq<Json>,
    pub return_type: Option<Json>,
    pub function_calls: Seq<Json>,
}

#[verifier::ext_equal]
pub struct LspFileMessageModel {
    pub file_name: Seq<char>,
    pub classes: Seq<Json>,
    pub functions: Seq<FunctionDataModel>,
    pub imports: Seq<Json>,
}

pub open spec fn fd_model(f: FunctionData) -> FunctionDataModel {
    FunctionDataModel {
        name: f.name@,
        parameters: jm_seq(f.parameters@),
        return_type: match f.return_type {
            Some(v) => Some(jm(v)),
            None => None,
        },
        function_calls: jm_seq(f.function_calls@),
    }
}

pub open spec fn fds_model(s: Seq<FunctionData>) -> Seq<FunctionDataModel> {
    Seq::new(s.len(), |i: int| fd_model(s[i]))
}

pub open spec fn msg_model(m: LspFileMessage) -> LspFileMessageModel {
    LspFileMessageModel {
        file_name: m.file_name@,
        classes: jm_seq(m.classes@),
        functions: fds_model(m.functions@),
        imports: jm_seq(m.imports@),
    }
}

pub open spec fn msgs_model(s: Seq<LspFileMessage>) -> Seq<LspFileMessageModel> {
    Seq::new(s.len(), |i: int| msg_model(s[i]))
}

/// The function descriptor a stored document yields, where it has the
/// expected shape: an object whose `name` is a string and whose `parameters`
/// and `function_calls` are arrays; a missing or null `return_type` is no
/// return type at all.
pub open spec fn function_of_json(v: Json) -> Option<FunctionDataModel> {
    match v {
        Json::Obj(o) => match (lookup(o, "name"@), lookup(o, "parameters"@), lookup(
            o,
            "function_calls"@,
        )) {
            (Some(Json::Str(nm)), Some(Json::Arr(ps)), Some(Json::Arr(cs))) => Some(
                FunctionDataModel {
                    name: nm,
                    parameters: ps,
                    return_type: match lookup(o, "return_type"@) {
                        Some(Json::Null) => None,
                        Some(x) => Some(x),
                        None => None,
                    },
                    function_calls: cs,
                },
            ),
            _ => None,
        },
        _ => None,
    }
}

/// All function descriptors of a `functions` array, or nothing where any
/// element fails to convert.
pub open spec fn functions_of_json(vs: Seq<Json>) -> Option<Seq<FunctionDataModel>>
    decreases vs.len(),
{
    if vs.len() == 0 {
        Some(Seq::empty())
    } else {
        match (functions_of_json(vs.drop_last()), function_of_json(vs.last())) {
            (Some(rest), Some(f)) => Some(rest.push(f)),
            _ => None,
        }
    }
}

/// The aggregate entry a stored document yields, or nothing where the
/// document lacks `classes`, `functions` or `imports`, or its `functions` do
/// not convert. A non-array `classes` or `imports` is carried as empty.
pub open spec fn entry_message(path: Seq<char>, v: Json) -> Option<LspFileMessageModel> {
    match v {
        Json::Obj(o) => match (lookup(o, "classes"@), lookup(o, "functions"@), lookup(
            o,
            "imports"@,
        )) {
            (Some(cl), Some(fs), Some(im)) => match fs {
                Json::Arr(fa) => match functions_of_json(fa) {
                    Some(fm) => Some(
                        LspFileMessageModel {
                            file_name: path,
                            classes: match cl {
                                Json::Arr(a) => a,
                                _ => Seq::empty(),
                            },
                            functions: fm,
                            imports: match im {
                                Json::Arr(a) => a,
                                _ => Seq::empty(),
                            },
                        },
                    ),
                    None => None,
                },
                _ => None,
            },
            _ => None,
        },
        _ => None,
    }
}

/// The whole aggregate payload of a snapshot, in the snapshot's own order:
/// every entry that converts, and no other.
pub open spec fn project_model(s: Seq<(Seq<char>, Json)>) -> Seq<LspFileMessageModel>
    decreases s.len(),
{
    if s.len() == 0 {
        Seq::empty()
    } else {
        match entry_message(s.last().0, s.last().1) {
            Some(msg) => project_model(s.drop_last()).push(msg),
            None => project_model(s.drop_last()),
        }
    }
}

/// First-match lookup of a member of a document object.
#[verifier::loop_isolation(false)]
fn obj_lookup<'a>(o: &'a Vec<(String, JsonValue)>, name: &str) -> (r: Option<&'a JsonValue>)
    ensures
        match r {
            Some(v) => lookup(jm_obj(o@), name@) == Some(jm(*v)),
            None => lookup(jm_obj(o@), name@) is None,
        },
{
    let ghost m = jm_obj(o@);
    let n = o.len();
    proof {
        lemma_jm_obj_len(o@);
    }
    let mut i: usize = 0;
    while i < n
        invariant
            i <= n,
            forall|q: int| 0 <= q < i ==> m[q].0 != name@,
        decreases n - i,
    {
        proof {
            lemma_jm_obj_index(o@, i as int);
        }
        if str_eq(o[i].0.as_str(), name) {
            proof {
                lemma_key_at_properties(m, name@);
                assert(key_at(m, name@) == i as int) by {
                    if key_at(m, name@) < i as int {
                        assert(m[key_at(m, name@)].0 == name@);
                    }
                    if key_at(m, name@) > i as int {
                        assert(m[i as int].0 != name@);
                    }
                }
            }
            return Some(&o[i].1);
        }
        i += 1;
    }
    proof {
        lemma_key_at_properties(m, name@);
        assert(!has_key(m, name@));
    }
    None
}

/// The function descriptor of one stored document, where it has the shape.
fn function_of_value(v: &JsonValue) -> (r: Option<FunctionData>)
    ensures
        match r {
            Some(f) => function_of_json(jm(*v)) == Some(fd_model(f)),
            None => function_of_json(jm(*v)) is None,
        },
{
    match v {
        JsonValue::Obj(o) => {
            let name: String = match obj_lookup(o, "name") {
                Some(JsonValue::Str(nm)) => nm.clone(),
                _ => {
                    return None;
                },
            };
            let parameters: Vec<JsonValue> = match obj_lookup(o, "parameters") {
                Some(JsonValue::Arr(ps)) => clone_values(ps),
                _ => {
                    return None;
                },
            };
            let function_calls: Vec<JsonValue> = match obj_lookup(o, "function_calls") {
                Some(JsonValue::Arr(cs)) => clone_values(cs),
                _ => {
                    return None;
                },
            };
            let return_type: Option<JsonValue> = match obj_lookup(o, "return_type") {
                None => None,
                Some(JsonValue::Null) => None,
                Some(x) => Some(clone_value(x)),
            };
            Some(FunctionData { name, parameters, return_type, function_calls })
        },
        _ => None,
    }
}

/// All function descriptors of a `functions` array, where every one converts.
#[verifier::loop_isolation(false)]
fn functions_of_values(vs: &Vec<JsonValue>) -> (r: Option<Vec<FunctionData>>)
    ensures
        match r {
            Some(fs) => functions_of_json(jm_seq(vs@)) == Some(fds_model(fs@)),
            None => functions_of_json(jm_seq(vs@)) is None,
        },
{
    let ghost m = jm_seq(vs@);
    let n = vs.len();
    proof {
        crate::json::lemma_jm_seq_len(vs@);
    }
    let mut out: Vec<FunctionData> = Vec::new();
    let mut i: usize = 0;
    proof {
        assert(m.take(0) =~= Seq::<Json>::empty());
        assert(fds_model(out@) =~= Seq::<FunctionDataModel>::empty());
    }
    while i < n
        invariant
            i <= n,
            out@.len() == i,
            functions_of_json(m.take(i as int)) == Some(fds_model(out@)),
        decreases n - i,
    {
        proof {
            crate::json::lemma_jm_seq_index(vs@, i as int);
        }
        match function_of_value(&vs[i]) {
            Some(f) => {
                let ghost out0 = out@;
                out.push(f);
                proof {
                    assert(m.take(i + 1).drop_last() =~= m.take(i as int));
                    assert(m.take(i + 1).last() == m[i as int]);
                    assert(fds_model(out@) =~= fds_model(out0).push(fd_model(out@[i as int])));
                }
            },
            None => {
                proof {
                    lemma_functions_prefix_none(m, i as int);
                }
                return None;
            },
        }
        i += 1;
    }
    proof {
        assert(m.take(n as int) =~= m);
    }
    Some(out)
}

/// Where one element fails to convert, the whole array fails.
proof fn lemma_functions_prefix_none(m: Seq<Json>, i: int)
    requires
        0 <= i < m.len(),
        function_of_json(m[i]) is None,
    ensures
        functions_of_json(m) is None,
    decreases m.len(),
{
    if m.len() > 0 {
        if i == m.len() - 1 {
        } else {
            assert(m.drop_last()[i] == m[i]);
            lemma_functions_prefix_none(m.drop_last(), i);
        }
    }
}

/// The aggregate entry of one stored document, where it converts.
fn message_of_entry(path: &String, v: &JsonValue) -> (r: Option<LspFileMessage>)
    ensures
        match r {
            Some(msg) => entry_message(path@, jm(*v)) == Some(msg_model(msg)),
            None => entry_message(path@, jm(*v)) is None,
        },
{
    match v {
        JsonValue::Obj(o) => {
            let cl = match obj_lookup(o, "classes") {
                Some(x) => x,
                None => {
                    return None;
                },
            };
            let fs = match obj_lookup(o, "functions") {
                Some(x) => x,
                None => {
                    return None;
                },
            };
            let im = match obj_lookup(o, "imports") {
                Some(x) => x,
                None => {
                    return None;
                },
            };
            let functions: Vec<FunctionData> = match fs {
                JsonValue::Arr(fa) => match functions_of_values(fa) {
                    Some(fm) => fm,
                    None => {
                        return None;
                    },
                },
                _ => {
                    return None;
                },
            };
            let classes: Vec<JsonValue> = match cl {
                JsonValue::Arr(a) => clone_values(a),
                _ => Vec::new(),
            };
            let imports: Vec<JsonValue> = match im {
                JsonValue::Arr(a) => clone_values(a),
                _ => Vec::new(),
            };
            proof {
                assert(jm_seq(Seq::<JsonValue>::empty()) =~= Seq::<Json>::empty());
            }
            Some(
                LspFileMessage {
                    file_name: path.clone(),
                    classes,
                    functions,
                    imports,
                },
            )
        },
        _ => None,
    }
}

/// The aggregate payload of a snapshot: every entry of the expected shape,
/// in the snapshot's own order, and no other entry at all.
#[verifier::loop_isolation(false)]
pub fn format_for_lsp_message(entries: &Vec<(String, JsonValue)>) -> (r: Vec<LspFileMessage>)
    ensures
        msgs_model(r@) == project_model(jm_obj(entries@)),
{
    let ghost m = jm_obj(entries@);
    let n = entries.len();
    proof {
        lemma_jm_obj_len(entries@);
    }
    let mut out: Vec<LspFileMessage> = Vec::new();
    let mut i: usize = 0;
    proof {
        assert(m.take(0) =~= Seq::<(Seq<char>, Json)>::empty());
        assert(msgs_model(out@) =~= Seq::<LspFileMessageModel>::empty());
    }
    while i < n
        invariant
            i <= n,
            msgs_model(out@) == project_model(m.take(i as int)),
        decreases n - i,
    {
        proof {
            lemma_jm_obj_index(entries@, i as int);
            assert(m.take(i + 1).drop_last() =~= m.take(i as int));
            assert(m.take(i + 1).last() == m[i as int]);
        }
        let ghost out0 = out@;
        match message_of_entry(&entries[i].0, &entries[i].1) {
            Some(msg) => {
                out.push(msg);
                proof {
                    assert(msgs_model(out@) =~= msgs_model(out0).push(msg_model(out@.last())));
                    assert(msgs_model(out@) =~= project_model(m.take(i + 1)));
                }
            },
            None => {
                proof {
                    assert(msgs_model(out@) =~= project_model(m.take(i + 1)));
                }
            },
        }
        i += 1;
    }
    proof {
        assert(m.take(n as int) =~= m);
    }
    out
}

} // verus!
