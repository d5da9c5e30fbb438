use vstd::prelude::*;

verus! {

/// A JSON value seen one level deep. Nested values, and the names of object
/// members, are kept as their canonical JSON text (object keys sorted, no
/// insignificant whitespace), so two values are structurally equal exactly when
/// their texts are.
pub enum Json {
    Array(Vec<String>),
    Object(Vec<(String, String)>),
    Other(String),
}

pub enum JsonModel {
    Array(Seq<Seq<char>>),
    Object(Seq<(Seq<char>, Seq<char>)>),
    Other(Seq<char>),
}

pub open spec fn texts(v: Seq<String>) -> Seq<Seq<char>> {
    v.map_values(|s: String| s@)
}

pub open spec fn pairs(v: Seq<(String, String)>) -> Seq<(Seq<char>, Seq<char>)> {
    v.map_values(|m: (String, String)| (m.0@, m.1@))
}

impl View for Json {
    type V = JsonModel;

    open spec fn view(&self) -> JsonModel {
        match self {
            Json::Array(a) => JsonModel::Array(texts(a@)),
            Json::Object(o) => JsonModel::Object(pairs(o@)),
            Json::Other(s) => JsonModel::Other(s@),
        }
    }
}

/// The JSON text of the string `pending`.
pub open spec fn pending_text() -> Seq<char> {
    "\"pending\""@
}

/// The JSON text of the name `id`.
pub open spec fn id_key() -> Seq<char> {
    "\"id\""@
}

/// Params after method normalization: for `eth_getTransactionCount` with a
/// non-empty array, at most two entries, the second being `"pending"`.
pub open spec fn normalized(method: Seq<char>, params: JsonModel) -> JsonModel {
    match params {
        JsonModel::Array(a) => {
            if method == "eth_getTransactionCount"@ && a.len() > 0 {
                if a.len() == 1 {
                    JsonModel::Array(a.push(pending_text()))
                } else {
                    JsonModel::Array(a.take(2).update(1, pending_text()))
                }
            } else {
                params
            }
        },
        _ => params,
    }
}

/// Normalizing twice gives what normalizing once gives.
pub proof fn lemma_normalize_idempotent(method: Seq<char>, params: JsonModel)
    ensures
        normalized(method, normalized(method, params)) == normalized(method, params),
{
    match params {
        JsonModel::Array(a) => {
            if method == "eth_getTransactionCount"@ && a.len() > 0 {
                let once = if a.len() == 1 { a.push(pending_text()) } else { a.take(2).update(1, pending_text()) };
                assert(once.len() == 2);
                assert(once.take(2).update(1, pending_text()) =~= once);
            }
        },
        _ => {},
    }
}

/// The members of `m` other than those named `key`.
pub open spec fn without(m: Seq<(Seq<char>, Seq<char>)>, key: Seq<char>) -> Seq<(Seq<char>, Seq<char>)>
    decreases m.len(),
{
    if m.len() == 0 {
        m
    } else {
        let prev = without(m.drop_last(), key);
        if m.last().0 == key { prev } else { prev.push(m.last()) }
    }
}

/// An object with member `key` set to `value`; any other value as it is.
pub open spec fn with_member(j: JsonModel, key: Seq<char>, value: Seq<char>) -> JsonModel {
    match j {
        JsonModel::Object(m) => JsonModel::Object(without(m, key).push((key, value))),
        _ => j,
    }
}

/// The value of the last member named `key`, if `j` is an object that has one.
pub open spec fn member(j: JsonModel, key: Seq<char>) -> Option<Seq<char>> {
    match j {
        JsonModel::Object(m) => member_in(m, key),
        _ => None,
    }
}

pub open spec fn member_in(m: Seq<(Seq<char>, Seq<char>)>, key: Seq<char>) -> Option<Seq<char>>
    decreases m.len(),
{
    if m.len() == 0 {
        None
    } else if m.last().0 == key {
        Some(m.last().1)
    } else {
        member_in(m.drop_last(), key)
    }
}

/// The JSON texts `parts` joined by commas.
pub open spec fn joined(parts: Seq<Seq<char>>) -> Seq<char>
    decreases parts.len(),
{
    if parts.len() == 0 {
        Seq::empty()
    } else if parts.len() == 1 {
        parts[0]
    } else {
        joined(parts.drop_last()) + ","@ + parts.last()
    }
}

pub open spec fn member_texts(m: Seq<(Seq<char>, Seq<char>)>) -> Seq<Seq<char>> {
    m.map_values(|p: (Seq<char>, Seq<char>)| p.0 + ":"@ + p.1)
}

/// The canonical text of a value.
pub open spec fn text_of(j: JsonModel) -> Seq<char> {
    match j {
        JsonModel::Array(a) => "["@ + joined(a) + "]"@,
        JsonModel::Object(m) => "{"@ + joined(member_texts(m)) + "}"@,
        JsonModel::Other(s) => s,
    }
}

fn copy_texts(v: &Vec<String>) -> (r: Vec<String>)
    ensures
        texts(r@) == texts(v@),
{
    let mut out: Vec<String> = Vec::new();
    let mut i: usize = 0;
    while i < v.len()
        invariant
            i <= v@.len(),
            out@.len() == i,
            forall|k: int| 0 <= k < i ==> (#[trigger] out@[k])@ == v@[k]@,
        decreases v.len() - i,
    {
        out.push(v[i].clone());
        i = i + 1;
    }
    assert(texts(out@) =~= texts(v@));
    out
}

fn copy_pairs(v: &Vec<(String, String)>) -> (r: Vec<(String, String)>)
    ensures
        pairs(r@) == pairs(v@),
{
    let mut out: Vec<(String, String)> = Vec::new();
    let mut i: usize = 0;
    while i < v.len()
        invariant
            i <= v@.len(),
            out@.len() == i,
            forall|k: int| 0 <= k < i ==> (#[trigger] out@[k]).0@ == v@[k].0@ && out@[k].1@ == v@[k].1@,
        decreases v.len() - i,
    {
        out.push((v[i].0.clone(), v[i].1.clone()));
        i = i + 1;
    }
    assert(pairs(out@) =~= pairs(v@));
    out
}

impl Json {
    /// A copy with the same view.
    pub fn duplicate(&self) -> (r: Json)
        ensures
            r@ == self@,
    {
        match self {
            Json::Array(a) => Json::Array(copy_texts(a)),
            Json::Object(o) => Json::Object(copy_pairs(o)),
            Json::Other(s) => Json::Other(s.clone()),
        }
    }

    pub fn is_object(&self) -> (r: bool)
        ensures
            r == (self@ is Object),
    {
        match self {
            Json::Object(_) => true,
            _ => false,
        }
    }

    /// The canonical text of this value.
    pub fn text(&self) -> (r: String)
        ensures
            r@ == text_of(self@),
    {
        match self {
            Json::Array(a) => {
                let mut out = String::from_str("[");
                let mut i: usize = 0;
                while i < a.len()
                    invariant
                        i <= a@.len(),
                        out@ == "["@ + joined(texts(a@).take(i as int)),
                    decreases a.len() - i,
                {
                    let ghost before = texts(a@).take(i as int);
                    assert(texts(a@).take(i + 1).drop_last() =~= before);
                    assert(texts(a@).take(i + 1).last() == a@[i as int]@);
                    if i > 0 {
                        out.append(",");
                    } else {
                        assert(texts(a@).take(1) =~= seq![a@[0]@]);
                    }
                    out.append(a[i].as_str());
                    i = i + 1;
                }
                out.append("]");
                assert(texts(a@).take(a@.len() as int) =~= texts(a@));
                out
            },
            Json::Object(o) => {
                let mut out = String::from_str("{");
                let mut i: usize = 0;
                while i < o.len()
                    invariant
                        i <= o@.len(),
                        out@ == "{"@ + joined(member_texts(pairs(o@)).take(i as int)),
                    decreases o.len() - i,
                {
                    let ghost all = member_texts(pairs(o@));
                    assert(all.take(i + 1).drop_last() =~= all.take(i as int));
                    assert(all.take(i + 1).last() == o@[i as int].0@ + ":"@ + o@[i as int].1@);
                    if i > 0 {
                        out.append(",");
                    } else {
                        assert(all.take(1) =~= seq![all[0]]);
                    }
                    out.append(o[i].0.as_str());
                    out.append(":");
                    out.append(o[i].1.as_str());
                    i = i + 1;
                }
                out.append("}");
                assert(member_texts(pairs(o@)).take(o@.len() as int) =~= member_texts(pairs(o@)));
                out
            },
            Json::Other(s) => s.clone(),
        }
    }
}

/// Method normalization: pins the block tag of `eth_getTransactionCount` to pending.
pub fn normalize_params(method: &String, params: Json) -> (r: Json)
    ensures
        r@ == normalized(method@, params@),
{
    let target = String::from_str("eth_getTransactionCount");
    proof { reveal_strlit("eth_getTransactionCount"); }
    if *method != target {
        return params;
    }
    match params {
        Json::Array(a) => {
            let mut a = a;
            if a.len() == 0 {
                return Json::Array(a);
            }
            let ghost a0 = texts(a@);
            let pending = String::from_str("\"pending\"");
            proof { reveal_strlit("\"pending\""); }
            if a.len() == 1 {
                a.push(pending);
                assert(texts(a@) =~= a0.push(pending_text()));
            } else {
                a.truncate(2);
                a.set(1, pending);
                assert(texts(a@) =~= a0.take(2).update(1, pending_text()));
            }
            Json::Array(a)
        },
        other => other,
    }
}

impl Json {
    /// This value with member `key` set to `value` where it is an object.
    pub fn with_member(self, key: &String, value: String) -> (r: Json)
        ensures
            r@ == with_member(self@, key@, value@),
    {
        match self {
            Json::Object(o) => {
                let mut out: Vec<(String, String)> = Vec::new();
                let mut i: usize = 0;
                assert(pairs(o@).take(0) =~= Seq::<(Seq<char>, Seq<char>)>::empty());
                while i < o.len()
                    invariant
                        i <= o@.len(),
                        pairs(out@) == without(pairs(o@).take(i as int), key@),
                    decreases o.len() - i,
                {
                    let ghost before = out@;
                    assert(pairs(o@).take(i + 1).drop_last() =~= pairs(o@).take(i as int));
                    assert(pairs(o@).take(i + 1).last() == (o@[i as int].0@, o@[i as int].1@));
                    if o[i].0 != *key {
                        out.push((o[i].0.clone(), o[i].1.clone()));
                        assert(pairs(out@) =~= pairs(before).push((o@[i as int].0@, o@[i as int].1@)));
                    }
                    i = i + 1;
                }
                assert(pairs(o@).take(o@.len() as int) =~= pairs(o@));
                let ghost before = out@;
                out.push((key.clone(), value));
                assert(pairs(out@) =~= pairs(before).push((key@, value@)));
                Json::Object(out)
            },
            other => other,
        }
    }
}

proof fn lemma_member_set(m: Seq<(Seq<char>, Seq<char>)>, key: Seq<char>, value: Seq<char>)
    ensures
        member(with_member(JsonModel::Object(m), key, value), key) == Some(value),
{
    let r = without(m, key).push((key, value));
    assert(r.last() == (key, value));
}

/// After setting a member, an object has that member with that value.
pub proof fn lemma_with_member(j: JsonModel, key: Seq<char>, value: Seq<char>)
    requires
        j is Object,
    ensures
        member(with_member(j, key, value), key) == Some(value),
{
    match j {
        JsonModel::Object(m) => lemma_member_set(m, key, value),
        _ => {},
    }
}

impl Json {
    /// The text of the last member named `key`, if this is an object that has one.
    pub fn get_member(&self, key: &String) -> (r: Option<String>)
        ensures
            match r {
                Some(v) => member(self@, key@) == Some(v@),
                None => member(self@, key@) is None,
            },
    {
        match self {
            Json::Object(o) => {
                let mut i: usize = o.len();
                assert(pairs(o@).take(o@.len() as int) =~= pairs(o@));
                while i > 0
                    invariant
                        i <= o@.len(),
                        self@ == JsonModel::Object(pairs(o@)),
                        member_in(pairs(o@), key@) == member_in(pairs(o@).take(i as int), key@),
                    decreases i,
                {
                    let ghost t = pairs(o@).take(i as int);
                    assert(t.drop_last() =~= pairs(o@).take(i - 1));
                    assert(t.last() == (o@[i - 1].0@, o@[i - 1].1@));
                    if o[i - 1].0 == *key {
                        assert(t.last().0 == key@);
                        assert(member_in(t, key@) == Some(o@[i - 1].1@));
                        let v = o[i - 1].1.clone();
                        assert(v@ == o@[i - 1].1@);
                        return Some(v);
                    }
                    i = i - 1;
                }
                None
            },
            _ => None,
        }
    }
}

} // verus!
