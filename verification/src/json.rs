//! A JSON value tree owned by the library, its mathematical model, and the
//! calls into `serde_json` that read and write JSON text.
use vstd::prelude::*;
use crate::text::{chars_of, chars_eq, str_eq, string_of};

verus! {

/// A JSON number, kept as the text `serde_json` prints for it and, when it
/// is a non-negative integer that fits, its `u64` value.
pub struct JsonNumber {
    pub text: String,
    pub unsigned: Option<u64>,
}

/// A JSON value. Object entries keep their order; keys are compared by text.
pub enum JsonValue {
    Null,
    Bool(bool),
    Number(JsonNumber),
    String(String),
    Array(Vec<JsonValue>),
    Object(Vec<(String, JsonValue)>),
}

/// The mathematical model of a JSON value.
pub enum Json {
    Null,
    Bool(bool),
    Number(Seq<char>, Option<u64>),
    Str(Seq<char>),
    Array(Seq<Json>),
    Object(Seq<(Seq<char>, Json)>),
}

impl JsonValue {
    pub open spec fn model(self) -> Json
        decreases self, 0nat,
    {
        match self {
            JsonValue::Null => Json::Null,
            JsonValue::Bool(b) => Json::Bool(b),
            JsonValue::Number(n) => Json::Number(n.text@, n.unsigned),
            JsonValue::String(s) => Json::Str(s@),
            JsonValue::Array(items) => Json::Array(models(items@)),
            JsonValue::Object(entries) => Json::Object(entry_models(entries@)),
        }
    }
}

pub open spec fn models(items: Seq<JsonValue>) -> Seq<Json>
    decreases items, 1nat,
{
    if items.len() == 0 {
        Seq::empty()
    } else {
        models(items.drop_last()).push(items.last().model())
    }
}

pub open spec fn entry_models(entries: Seq<(String, JsonValue)>) -> Seq<(Seq<char>, Json)>
    decreases entries, 1nat,
{
    if entries.len() == 0 {
        Seq::empty()
    } else {
        entry_models(entries.drop_last()).push((entries.last().0@, entries.last().1.model()))
    }
}

pub proof fn lemma_models(items: Seq<JsonValue>)
    ensures
        models(items).len() == items.len(),
        forall|i: int| 0 <= i < items.len() ==> #[trigger] models(items)[i] == items[i].model(),
    decreases items.len(),
{
    if items.len() > 0 {
        lemma_models(items.drop_last());
    }
}

pub proof fn lemma_entry_models(entries: Seq<(String, JsonValue)>)
    ensures
        entry_models(entries).len() == entries.len(),
        forall|i: int|
            0 <= i < entries.len() ==> #[trigger] entry_models(entries)[i] == (
                entries[i].0@,
                entries[i].1.model(),
            ),
    decreases entries.len(),
{
    if entries.len() > 0 {
        lemma_entry_models(entries.drop_last());
    }
}

pub proof fn lemma_models_push(items: Seq<JsonValue>, x: JsonValue)
    ensures
        models(items.push(x)) == models(items).push(x.model()),
{
    assert(items.push(x).drop_last() =~= items);
}

pub proof fn lemma_entry_models_push(entries: Seq<(String, JsonValue)>, x: (String, JsonValue))
    ensures
        entry_models(entries.push(x)) == entry_models(entries).push((x.0@, x.1.model())),
{
    assert(entries.push(x).drop_last() =~= entries);
}

/// The name of a value's JSON type, as reports and diagnostics print it.
pub open spec fn kind_name(j: Json) -> Seq<char> {
    match j {
        Json::Null => "null"@,
        Json::Bool(_) => "boolean"@,
        Json::Number(_, _) => "number"@,
        Json::Str(_) => "string"@,
        Json::Array(_) => "array"@,
        Json::Object(_) => "object"@,
    }
}

/// Lexicographic order of texts by character, which for UTF-8 text is the
/// byte order `String` compares by.
pub open spec fn text_lt(a: Seq<char>, b: Seq<char>) -> bool
    decreases a.len(),
{
    if b.len() == 0 {
        false
    } else if a.len() == 0 {
        true
    } else if a[0] != b[0] {
        a[0] < b[0]
    } else {
        text_lt(a.drop_first(), b.drop_first())
    }
}

pub proof fn lemma_text_lt_irreflexive(a: Seq<char>)
    ensures
        !text_lt(a, a),
    decreases a.len(),
{
    if a.len() > 0 {
        lemma_text_lt_irreflexive(a.drop_first());
    }
}

pub proof fn lemma_text_lt_transitive(a: Seq<char>, b: Seq<char>, c: Seq<char>)
    requires
        text_lt(a, b),
        text_lt(b, c),
    ensures
        text_lt(a, c),
    decreases a.len(),
{
    if a.len() > 0 && b.len() > 0 && c.len() > 0 && a[0] == b[0] && b[0] == c[0] {
        lemma_text_lt_transitive(a.drop_first(), b.drop_first(), c.drop_first());
    }
}

pub proof fn lemma_text_lt_total(a: Seq<char>, b: Seq<char>)
    ensures
        a == b || text_lt(a, b) || text_lt(b, a),
    decreases a.len(),
{
    if a.len() > 0 && b.len() > 0 && a[0] == b[0] {
        lemma_text_lt_total(a.drop_first(), b.drop_first());
        if a.drop_first() == b.drop_first() {
            assert(a =~= seq![a[0]] + a.drop_first());
            assert(b =~= seq![b[0]] + b.drop_first());
        }
    } else if a.len() == 0 && b.len() == 0 {
        assert(a =~= b);
    }
}

pub proof fn lemma_text_lt_asymmetric(a: Seq<char>, b: Seq<char>)
    requires
        text_lt(a, b),
    ensures
        !text_lt(b, a),
{
    if text_lt(b, a) {
        lemma_text_lt_transitive(a, b, a);
        lemma_text_lt_irreflexive(a);
    }
}

/// Whether `a` sorts before `b` (see `text_lt`).
pub fn text_less(a: &[char], b: &[char]) -> (res: bool)
    ensures
        res == text_lt(a@, b@),
{
    let mut i: usize = 0;
    assert(a@.skip(0) =~= a@);
    assert(b@.skip(0) =~= b@);
    while i < a.len() && i < b.len() && a[i] == b[i]
        invariant
            i <= a@.len(),
            i <= b@.len(),
            text_lt(a@, b@) == text_lt(a@.skip(i as int), b@.skip(i as int)),
        decreases a.len() - i,
    {
        assert(a@.skip(i as int).drop_first() =~= a@.skip(i + 1));
        assert(b@.skip(i as int).drop_first() =~= b@.skip(i + 1));
        i = i + 1;
    }
    if i >= b.len() {
        false
    } else if i >= a.len() {
        true
    } else {
        a[i] < b[i]
    }
}

/// Object keys strictly ascending, so each key occurs once.
pub open spec fn keys_ascending(entries: Seq<(Seq<char>, Json)>) -> bool {
    forall|i: int, j: int| 0 <= i < j < entries.len() ==> text_lt(#[trigger] entries[i].0, #[trigger] entries[j].0)
}

/// Every object in the value keeps its members in ascending key order, as a
/// `serde_json` map does.
pub open spec fn json_wf(j: Json) -> bool
    decreases j, 1nat,
{
    match j {
        Json::Array(items) => items_wf(items),
        Json::Object(entries) => keys_ascending(entries) && members_wf(entries),
        _ => true,
    }
}

pub open spec fn items_wf(items: Seq<Json>) -> bool
    decreases items, 0nat,
{
    if items.len() == 0 {
        true
    } else {
        items_wf(items.drop_last()) && json_wf(items.last())
    }
}

pub open spec fn members_wf(entries: Seq<(Seq<char>, Json)>) -> bool
    decreases entries, 0nat,
{
    if entries.len() == 0 {
        true
    } else {
        members_wf(entries.drop_last()) && json_wf(entries.last().1)
    }
}

pub proof fn lemma_items_wf(items: Seq<Json>)
    ensures
        items_wf(items) <==> forall|i: int| 0 <= i < items.len() ==> #[trigger] json_wf(items[i]),
    decreases items.len(),
{
    if items.len() > 0 {
        lemma_items_wf(items.drop_last());
        if forall|i: int| 0 <= i < items.len() ==> #[trigger] json_wf(items[i]) {
            assert forall|i: int| 0 <= i < items.drop_last().len() implies #[trigger] json_wf(items.drop_last()[i]) by {
                assert(json_wf(items[i]));
            }
            assert(json_wf(items[items.len() - 1]));
        }
        if items_wf(items) {
            assert forall|i: int| 0 <= i < items.len() implies #[trigger] json_wf(items[i]) by {
                if i < items.len() - 1 {
                    assert(items.drop_last()[i] == items[i]);
                }
            }
        }
    }
}

pub proof fn lemma_members_wf(entries: Seq<(Seq<char>, Json)>)
    ensures
        members_wf(entries) <==> forall|i: int| 0 <= i < entries.len() ==> #[trigger] json_wf(entries[i].1),
    decreases entries.len(),
{
    if entries.len() > 0 {
        lemma_members_wf(entries.drop_last());
        if forall|i: int| 0 <= i < entries.len() ==> #[trigger] json_wf(entries[i].1) {
            assert forall|i: int| 0 <= i < entries.drop_last().len() implies #[trigger] json_wf(entries.drop_last()[i].1) by {
                assert(json_wf(entries[i].1));
            }
            assert(json_wf(entries[entries.len() - 1].1));
        }
        if members_wf(entries) {
            assert forall|i: int| 0 <= i < entries.len() implies #[trigger] json_wf(entries[i].1) by {
                if i < entries.len() - 1 {
                    assert(entries.drop_last()[i] == entries[i]);
                }
            }
        }
    }
}

pub proof fn lemma_json_wf_children(j: Json)
    requires
        json_wf(j),
    ensures
        j matches Json::Array(items) ==> forall|i: int| 0 <= i < items.len() ==> #[trigger] json_wf(items[i]),
        j matches Json::Object(entries) ==> keys_ascending(entries) && forall|i: int|
            0 <= i < entries.len() ==> #[trigger] json_wf(entries[i].1),
{
    match j {
        Json::Array(items) => lemma_items_wf(items),
        Json::Object(entries) => lemma_members_wf(entries),
        _ => {},
    }
}

/// Index of the first entry with the given key.
#[verifier::opaque]
pub open spec fn key_index(entries: Seq<(Seq<char>, Json)>, key: Seq<char>) -> Option<int> {
    if exists|i: int| 0 <= i < entries.len() && entries[i].0 == key {
        Some(
            choose|i: int|
                0 <= i < entries.len() && entries[i].0 == key && forall|j: int|
                    0 <= j < i ==> entries[j].0 != key,
        )
    } else {
        None
    }
}

pub open spec fn obj_get(entries: Seq<(Seq<char>, Json)>, key: Seq<char>) -> Option<Json> {
    match key_index(entries, key) {
        Some(i) => Some(entries[i].1),
        None => None,
    }
}

/// `serde_json::Value::get` with a string key: the member of an object.
pub open spec fn json_get(j: Json, key: Seq<char>) -> Option<Json> {
    match j {
        Json::Object(entries) => obj_get(entries, key),
        _ => None,
    }
}

pub open spec fn json_as_str(j: Json) -> Option<Seq<char>> {
    match j {
        Json::Str(s) => Some(s),
        _ => None,
    }
}

pub open spec fn json_as_u64(j: Json) -> Option<u64> {
    match j {
        Json::Number(_, u) => u,
        _ => None,
    }
}

/// The string member `key` of an object, if it is present and a string.
pub open spec fn get_str(j: Json, key: Seq<char>) -> Option<Seq<char>> {
    match json_get(j, key) {
        Some(v) => json_as_str(v),
        None => None,
    }
}

/// Whether `j` is an object whose `key` member is the string `value`.
pub open spec fn has_str(j: Json, key: Seq<char>, value: Seq<char>) -> bool {
    get_str(j, key) == Some(value)
}

/// Where a new key goes among the entries from `i` on: before the first
/// key that does not sort before it.
pub open spec fn insert_position(entries: Seq<(Seq<char>, Json)>, key: Seq<char>, i: int) -> int
    decreases entries.len() - i,
{
    if i < 0 || i >= entries.len() {
        entries.len() as int
    } else if text_lt(entries[i].0, key) {
        insert_position(entries, key, i + 1)
    } else {
        i
    }
}

/// Inserting into an object, as a `serde_json` map does: an existing key
/// takes the new value in place; a new key goes to its place in key order.
pub open spec fn obj_insert(entries: Seq<(Seq<char>, Json)>, key: Seq<char>, value: Json) -> Seq<
    (Seq<char>, Json),
> {
    match key_index(entries, key) {
        Some(i) => entries.update(i, (key, value)),
        None => entries.insert(insert_position(entries, key, 0), (key, value)),
    }
}

/// Removing an object member.
pub open spec fn obj_remove(entries: Seq<(Seq<char>, Json)>, key: Seq<char>) -> Seq<(Seq<char>, Json)> {
    match key_index(entries, key) {
        Some(i) => entries.remove(i),
        None => entries,
    }
}

pub proof fn lemma_key_index_is(entries: Seq<(Seq<char>, Json)>, key: Seq<char>, i: int)
    requires
        0 <= i < entries.len(),
        entries[i].0 == key,
        forall|j: int| 0 <= j < i ==> entries[j].0 != key,
    ensures
        key_index(entries, key) == Some(i),
{
    reveal(key_index);
    let w = choose|w: int|
        0 <= w < entries.len() && entries[w].0 == key && forall|j: int| 0 <= j < w ==> entries[j].0 != key;
    if w < i {
        assert(entries[w].0 != key);
    } else if w > i {
        assert(entries[i].0 != key);
    }
}

/// Index of the first entry whose key is `key`.
pub fn entry_position(entries: &Vec<(String, JsonValue)>, key: &str) -> (res: Option<usize>)
    ensures
        res == (match key_index(entry_models(entries@), key@) {
            Some(i) => Some(i as usize),
            None => None::<usize>,
        }),
        res matches Some(i) ==> i < entries@.len() && entries@[i as int].0@ == key@ && key_index(
            entry_models(entries@),
            key@,
        ) == Some(i as int),
        res is None ==> key_index(entry_models(entries@), key@) is None,
        res is None ==> forall|j: int| 0 <= j < entries@.len() ==> entries@[j].0@ != key@,
{
    let ghost em = entry_models(entries@);
    proof { lemma_entry_models(entries@); }
    let k = chars_of(key);
    let mut i: usize = 0;
    while i < entries.len()
        invariant
            i <= entries.len(),
            em == entry_models(entries@),
            em.len() == entries@.len(),
            forall|m: int| 0 <= m < entries@.len() ==> #[trigger] em[m] == (entries@[m].0@, entries@[m].1.model()),
            k@ == key@,
            forall|j: int| 0 <= j < i ==> em[j].0 != key@,
        decreases entries.len() - i,
    {
        let name = chars_of(entries[i].0.as_str());
        if chars_eq(name.as_slice(), k.as_slice()) {
            proof { lemma_key_index_is(em, key@, i as int); }
            return Some(i);
        }
        i = i + 1;
    }
    proof {
        reveal(key_index);
        assert forall|j: int| 0 <= j < entries@.len() implies entries@[j].0@ != key@ by {
            assert(em[j].0 != key@);
        }
    }
    None
}

/// The value of the first entry named `key`.
pub fn entry_get<'a>(entries: &'a Vec<(String, JsonValue)>, key: &str) -> (res: Option<&'a JsonValue>)
    ensures
        match res {
            Some(v) => obj_get(entry_models(entries@), key@) == Some(v.model()),
            None => obj_get(entry_models(entries@), key@) is None,
        },
{
    match entry_position(entries, key) {
        Some(i) => {
            proof {
                lemma_entry_models(entries@);
            }
            Some(&entries[i].1)
        },
        None => None,
    }
}

impl JsonValue {
    /// `serde_json::Value::get(key)`.
    pub fn get(&self, key: &str) -> (res: Option<&JsonValue>)
        ensures
            match res {
                Some(v) => json_get(self.model(), key@) == Some(v.model()),
                None => json_get(self.model(), key@) is None,
            },
    {
        match self {
            JsonValue::Object(entries) => entry_get(entries, key),
            _ => None,
        }
    }

    /// `serde_json::Value::as_str`.
    pub fn as_str(&self) -> (res: Option<&str>)
        ensures
            match res {
                Some(s) => json_as_str(self.model()) == Some(s@),
                None => json_as_str(self.model()) is None,
            },
    {
        match self {
            JsonValue::String(s) => Some(s.as_str()),
            _ => None,
        }
    }

    /// `serde_json::Value::as_u64`.
    pub fn as_u64(&self) -> (res: Option<u64>)
        ensures
            res == json_as_u64(self.model()),
    {
        match self {
            JsonValue::Number(n) => n.unsigned,
            _ => None,
        }
    }

    pub fn is_string(&self) -> (res: bool)
        ensures
            res == (self.model() is Str),
    {
        match self {
            JsonValue::String(_) => true,
            _ => false,
        }
    }

    pub fn is_array(&self) -> (res: bool)
        ensures
            res == (self.model() is Array),
    {
        match self {
            JsonValue::Array(_) => true,
            _ => false,
        }
    }

    pub fn is_object(&self) -> (res: bool)
        ensures
            res == (self.model() is Object),
    {
        match self {
            JsonValue::Object(_) => true,
            _ => false,
        }
    }

    pub fn is_null(&self) -> (res: bool)
        ensures
            res == (self.model() is Null),
    {
        match self {
            JsonValue::Null => true,
            _ => false,
        }
    }

    /// The string member `key`, if present and a string.
    pub fn get_str(&self, key: &str) -> (res: Option<&str>)
        ensures
            match res {
                Some(s) => get_str(self.model(), key@) == Some(s@),
                None => get_str(self.model(), key@) is None,
            },
    {
        match self.get(key) {
            Some(v) => v.as_str(),
            None => None,
        }
    }

    /// Whether the string member `key` equals `value`.
    pub fn has_str(&self, key: &str, value: &str) -> (res: bool)
        ensures
            res == has_str(self.model(), key@, value@),
    {
        match self.get_str(key) {
            Some(s) => str_eq(s, value),
            None => false,
        }
    }

    /// The name of this value's JSON type.
    pub fn kind_name(&self) -> (res: &'static str)
        ensures
            res@ == kind_name(self.model()),
    {
        match self {
            JsonValue::Null => "null",
            JsonValue::Bool(_) => "boolean",
            JsonValue::Number(_) => "number",
            JsonValue::String(_) => "string",
            JsonValue::Array(_) => "array",
            JsonValue::Object(_) => "object",
        }
    }

    /// A copy of the value with the same model.
    #[verifier::loop_isolation(false)]
    pub fn deep_clone(&self) -> (res: JsonValue)
        ensures
            res.model() == self.model(),
        decreases self,
    {
        match self {
            JsonValue::Null => JsonValue::Null,
            JsonValue::Bool(b) => JsonValue::Bool(*b),
            JsonValue::Number(n) => JsonValue::Number(
                JsonNumber { text: n.text.clone(), unsigned: n.unsigned },
            ),
            JsonValue::String(s) => JsonValue::String(s.clone()),
            JsonValue::Array(items) => {
                let mut out: Vec<JsonValue> = Vec::new();
                let mut i: usize = 0;
                while i < items.len()
                    invariant
                        i <= items.len(),
                        models(out@) == models(items@.take(i as int)),
                    decreases items.len() - i,
                {
                    let c = items[i].deep_clone();
                    proof {
                        lemma_models_push(out@, c);
                        lemma_models_push(items@.take(i as int), items@[i as int]);
                        assert(items@.take(i + 1) =~= items@.take(i as int).push(items@[i as int]));
                    }
                    out.push(c);
                    i = i + 1;
                }
                assert(items@.take(items@.len() as int) =~= items@);
                JsonValue::Array(out)
            },
            JsonValue::Object(entries) => {
                let mut out: Vec<(String, JsonValue)> = Vec::new();
                let mut i: usize = 0;
                while i < entries.len()
                    invariant
                        i <= entries.len(),
                        entry_models(out@) == entry_models(entries@.take(i as int)),
                    decreases entries.len() - i,
                {
                    let c = (entries[i].0.clone(), entries[i].1.deep_clone());
                    proof {
                        lemma_entry_models_push(out@, c);
                        lemma_entry_models_push(entries@.take(i as int), entries@[i as int]);
                        assert(entries@.take(i + 1) =~= entries@.take(i as int).push(entries@[i as int]));
                    }
                    out.push(c);
                    i = i + 1;
                }
                assert(entries@.take(entries@.len() as int) =~= entries@);
                JsonValue::Object(out)
            },
        }
    }
}

/// Structural equality of two JSON values.
#[verifier::loop_isolation(false)]
pub fn json_equal(a: &JsonValue, b: &JsonValue) -> (res: bool)
    ensures
        res == (a.model() == b.model()),
    decreases a,
{
    match (a, b) {
        (JsonValue::Null, JsonValue::Null) => true,
        (JsonValue::Bool(x), JsonValue::Bool(y)) => *x == *y,
        (JsonValue::Number(x), JsonValue::Number(y)) => {
            str_eq(x.text.as_str(), y.text.as_str()) && x.unsigned == y.unsigned
        },
        (JsonValue::String(x), JsonValue::String(y)) => str_eq(x.as_str(), y.as_str()),
        (JsonValue::Array(xs), JsonValue::Array(ys)) => {
            proof {
                lemma_models(xs@);
                lemma_models(ys@);
            }
            if xs.len() != ys.len() {
                return false;
            }
            let mut i: usize = 0;
            while i < xs.len()
                invariant
                    i <= xs.len(),
                    xs.len() == ys.len(),
                    models(xs@).len() == xs@.len(),
                    models(ys@).len() == ys@.len(),
                    forall|m: int| 0 <= m < xs@.len() ==> #[trigger] models(xs@)[m] == xs@[m].model(),
                    forall|m: int| 0 <= m < ys@.len() ==> #[trigger] models(ys@)[m] == ys@[m].model(),
                    forall|j: int| 0 <= j < i ==> models(xs@)[j] == models(ys@)[j],
                decreases xs.len() - i,
            {
                if !json_equal(&xs[i], &ys[i]) {
                    assert(models(xs@)[i as int] != models(ys@)[i as int]);
                    return false;
                }
                i = i + 1;
            }
            assert(models(xs@) =~= models(ys@));
            true
        },
        (JsonValue::Object(xs), JsonValue::Object(ys)) => {
            proof {
                lemma_entry_models(xs@);
                lemma_entry_models(ys@);
            }
            if xs.len() != ys.len() {
                return false;
            }
            let mut i: usize = 0;
            while i < xs.len()
                invariant
                    i <= xs.len(),
                    xs.len() == ys.len(),
                    entry_models(xs@).len() == xs@.len(),
                    entry_models(ys@).len() == ys@.len(),
                    forall|m: int|
                        0 <= m < xs@.len() ==> #[trigger] entry_models(xs@)[m] == (
                            xs@[m].0@,
                            xs@[m].1.model(),
                        ),
                    forall|m: int|
                        0 <= m < ys@.len() ==> #[trigger] entry_models(ys@)[m] == (
                            ys@[m].0@,
                            ys@[m].1.model(),
                        ),
                    forall|j: int| 0 <= j < i ==> entry_models(xs@)[j] == entry_models(ys@)[j],
                decreases xs.len() - i,
            {
                if !str_eq(xs[i].0.as_str(), ys[i].0.as_str()) || !json_equal(&xs[i].1, &ys[i].1) {
                    assert(entry_models(xs@)[i as int] != entry_models(ys@)[i as int]);
                    return false;
                }
                i = i + 1;
            }
            assert(entry_models(xs@) =~= entry_models(ys@));
            true
        },
        _ => false,
    }
}


/// `serde_json::Value`, carried only inside the conversions below.
#[verifier::external_type_specification]
#[verifier::external_body]
pub struct ExSerdeValue(serde_json::Value);

/// The JSON value `serde_json` reads from the given bytes, or `None` when
/// they are not a complete JSON text.
pub uninterp spec fn json_parse(bytes: Seq<u8>) -> Option<Json>;

/// The compact JSON text `serde_json::to_string` writes for a value.
pub uninterp spec fn json_text(value: Json) -> Seq<char>;

/// Reads JSON from bytes with `serde_json::from_slice` and converts the
/// `serde_json::Value` one-for-one into a `JsonValue`.
///
/// Trusted: the result is the name `json_parse` applied to the bytes, and
/// its objects keep their keys in ascending order (a `serde_json::Map`
/// without `preserve_order` is a `BTreeMap`).
#[verifier::external_body]
fn serde_from_slice(bytes: &[u8]) -> (res: Option<JsonValue>)
    ensures
        match res {
            Some(v) => json_parse(bytes@) == Some(v.model()) && json_wf(v.model()),
            None => json_parse(bytes@) is None,
        },
{
    serde_json::from_slice::<serde_json::Value>(bytes).ok().map(|v| from_serde(&v))
}

/// Writes a value as compact JSON text with `serde_json::to_string`.
///
/// Trusted: the result is the name `json_text` applied to the value's model.
#[verifier::external_body]
fn serde_to_string(value: &JsonValue) -> (res: String)
    ensures
        res@ == json_text(value.model()),
{
    serde_json::to_string(&into_serde(value)).unwrap_or_default()
}

/// Reads a JSON text: `None` unless the bytes are one complete JSON value.
pub fn parse_json(bytes: &[u8]) -> (res: Option<JsonValue>)
    ensures
        match res {
            Some(v) => json_parse(bytes@) == Some(v.model()) && json_wf(v.model()),
            None => json_parse(bytes@) is None,
        },
{
    serde_from_slice(bytes)
}

/// Writes a value as compact JSON text.
pub fn to_json_text(value: &JsonValue) -> (res: String)
    ensures
        res@ == json_text(value.model()),
{
    serde_to_string(value)
}

/// One-for-one conversion from `serde_json::Value` (used by `parse_json`).
#[verifier::external_body]
fn from_serde(value: &serde_json::Value) -> JsonValue {
    match value {
        serde_json::Value::Null => JsonValue::Null,
        serde_json::Value::Bool(b) => JsonValue::Bool(*b),
        serde_json::Value::Number(n) => JsonValue::Number(JsonNumber { text: n.to_string(), unsigned: n.as_u64() }),
        serde_json::Value::String(s) => JsonValue::String(s.clone()),
        serde_json::Value::Array(items) => JsonValue::Array(items.iter().map(from_serde).collect()),
        serde_json::Value::Object(map) => JsonValue::Object(map.iter().map(|(k, v)| (k.clone(), from_serde(v))).collect()),
    }
}

/// One-for-one conversion into `serde_json::Value` (used by `to_json_text`).
#[verifier::external_body]
fn into_serde(value: &JsonValue) -> serde_json::Value {
    match value {
        JsonValue::Null => serde_json::Value::Null,
        JsonValue::Bool(b) => serde_json::Value::Bool(*b),
        JsonValue::Number(n) => n.text.parse::<serde_json::Number>().map_or(serde_json::Value::Null, serde_json::Value::Number),
        JsonValue::String(s) => serde_json::Value::String(s.clone()),
        JsonValue::Array(items) => serde_json::Value::Array(items.iter().map(into_serde).collect()),
        JsonValue::Object(entries) => serde_json::Value::Object(entries.iter().map(|(k, v)| (k.clone(), into_serde(v))).collect()),
    }
}


proof fn lemma_insert_position_bounds(entries: Seq<(Seq<char>, Json)>, key: Seq<char>, i: int)
    requires
        0 <= i <= entries.len(),
    ensures
        i <= insert_position(entries, key, i) <= entries.len(),
    decreases entries.len() - i,
{
    if i < entries.len() && text_lt(entries[i].0, key) {
        lemma_insert_position_bounds(entries, key, i + 1);
    }
}

/// Puts `value` in place of entry `i`'s value and hands back the old one.
pub fn swap_member(entries: &mut Vec<(String, JsonValue)>, i: usize, value: JsonValue) -> (res: JsonValue)
    requires
        i < old(entries)@.len(),
    ensures
        res.model() == entry_models(old(entries)@)[i as int].1,
        entry_models(final(entries)@) == entry_models(old(entries)@).update(i as int, (entry_models(old(entries)@)[i as int].0, value.model())),
{
    proof { lemma_entry_models(entries@); }
    let ghost before = entries@;
    let (k, old_value) = entries.remove(i);
    entries.insert(i, (k, value));
    proof {
        assert(entries@ =~= before.update(i as int, (k, value)));
        lemma_entry_models(entries@);
        assert(entry_models(entries@) =~= entry_models(before).update(i as int, (entry_models(before)[i as int].0, value.model())));
    }
    old_value
}

/// `Map::insert` on an object's entries (see `obj_insert`).
pub fn object_insert(entries: &mut Vec<(String, JsonValue)>, key: &str, value: JsonValue)
    ensures
        entry_models(final(entries)@) == obj_insert(entry_models(old(entries)@), key@, value.model()),
{
    proof { lemma_entry_models(entries@); }
    let ghost em = entry_models(entries@);
    match entry_position(entries, key) {
        Some(i) => {
            let _ = swap_member(entries, i, value);
        },
        None => {
            let k = chars_of(key);
            let mut p: usize = 0;
            while p < entries.len() && crate::json::text_less(chars_of(entries[p].0.as_str()).as_slice(), k.as_slice())
                invariant
                    p <= entries@.len(),
                    em == entry_models(entries@),
                    em.len() == entries@.len(),
                    k@ == key@,
                    forall|m: int| 0 <= m < entries@.len() ==> #[trigger] em[m] == (entries@[m].0@, entries@[m].1.model()),
                    insert_position(em, key@, 0) == insert_position(em, key@, p as int),
                decreases entries.len() - p,
            {
                p = p + 1;
            }
            let ghost before = entries@;
            entries.insert(p, (string_of(k.as_slice()), value));
            proof {
                lemma_entry_models(entries@);
                assert(entry_models(entries@) =~= em.insert(p as int, (key@, value.model())));
            }
        },
    }
}

/// `Map::remove` on an object's entries (see `obj_remove`).
pub fn object_remove(entries: &mut Vec<(String, JsonValue)>, key: &str)
    ensures
        entry_models(final(entries)@) == obj_remove(entry_models(old(entries)@), key@),
{
    proof { lemma_entry_models(entries@); }
    let ghost em = entry_models(entries@);
    match entry_position(entries, key) {
        Some(i) => {
            let _ = entries.remove(i);
            proof {
                lemma_entry_models(entries@);
                assert(entry_models(entries@) =~= em.remove(i as int));
            }
        },
        None => {},
    }
}


/// The value with member `key` set (see `obj_insert`); other values are
/// left as they are.
#[verifier::opaque]
pub open spec fn with_member(j: Json, key: Seq<char>, v: Json) -> Json {
    match j {
        Json::Object(entries) => Json::Object(obj_insert(entries, key, v)),
        _ => j,
    }
}

#[verifier::opaque]
pub open spec fn without_member(j: Json, key: Seq<char>) -> Json {
    match j {
        Json::Object(entries) => Json::Object(obj_remove(entries, key)),
        _ => j,
    }
}

pub fn set_member(value: JsonValue, key: &str, v: JsonValue) -> (res: JsonValue)
    ensures
        res.model() == with_member(value.model(), key@, v.model()),
{
    proof { reveal(with_member); }
    match value {
        JsonValue::Object(entries) => {
            let mut entries = entries;
            object_insert(&mut entries, key, v);
            JsonValue::Object(entries)
        },
        other => other,
    }
}

pub fn remove_member(value: JsonValue, key: &str) -> (res: JsonValue)
    ensures
        res.model() == without_member(value.model(), key@),
{
    proof { reveal(without_member); }
    match value {
        JsonValue::Object(entries) => {
            let mut entries = entries;
            object_remove(&mut entries, key);
            JsonValue::Object(entries)
        },
        other => other,
    }
}

pub fn member_copy(value: &JsonValue, key: &str) -> (res: Option<JsonValue>)
    ensures
        match res {
            Some(x) => json_get(value.model(), key@) == Some(x.model()),
            None => json_get(value.model(), key@) is None,
        },
{
    match value.get(key) {
        Some(v) => Some(v.deep_clone()),
        None => None,
    }
}


proof fn lemma_key_index_props(entries: Seq<(Seq<char>, Json)>, key: Seq<char>)
    ensures
        match key_index(entries, key) {
            Some(i) => 0 <= i < entries.len() && entries[i].0 == key && forall|j: int| 0 <= j < i ==> entries[j].0 != key,
            None => forall|j: int| 0 <= j < entries.len() ==> entries[j].0 != key,
        },
{
    reveal(key_index);
    if exists|i: int| 0 <= i < entries.len() && entries[i].0 == key {
        let w = choose|i: int| 0 <= i < entries.len() && entries[i].0 == key;
        lemma_first_with_key(entries, key, w);
    }
}

proof fn lemma_first_with_key(entries: Seq<(Seq<char>, Json)>, key: Seq<char>, w: int)
    requires
        0 <= w < entries.len(),
        entries[w].0 == key,
    ensures
        exists|i: int| 0 <= i < entries.len() && entries[i].0 == key && forall|j: int| 0 <= j < i ==> entries[j].0 != key,
    decreases w,
{
    if exists|j: int| 0 <= j < w && entries[j].0 == key {
        let v = choose|j: int| 0 <= j < w && entries[j].0 == key;
        lemma_first_with_key(entries, key, v);
    } else {
        assert(forall|j: int| 0 <= j < w ==> entries[j].0 != key);
    }
}

proof fn lemma_key_index_none(entries: Seq<(Seq<char>, Json)>, key: Seq<char>)
    requires
        forall|j: int| 0 <= j < entries.len() ==> entries[j].0 != key,
    ensures
        key_index(entries, key) is None,
{
    reveal(key_index);
}

/// Entries with the same keys at the same places find a key at the same
/// place.
proof fn lemma_key_index_same_keys(a: Seq<(Seq<char>, Json)>, b: Seq<(Seq<char>, Json)>, key: Seq<char>)
    requires
        a.len() == b.len(),
        forall|j: int| 0 <= j < a.len() ==> #[trigger] a[j].0 == b[j].0,
    ensures
        key_index(a, key) == key_index(b, key),
{
    lemma_key_index_props(a, key);
    match key_index(a, key) {
        Some(i) => {
            assert forall|j: int| 0 <= j < i implies b[j].0 != key by {
                assert(a[j].0 == b[j].0);
            }
            assert(a[i].0 == b[i].0);
            lemma_key_index_is(b, key, i);
        },
        None => {
            assert forall|j: int| 0 <= j < b.len() implies b[j].0 != key by {
                assert(a[j].0 == b[j].0);
            }
            lemma_key_index_none(b, key);
        },
    }
}

proof fn lemma_insert_position_props(entries: Seq<(Seq<char>, Json)>, key: Seq<char>, i: int)
    requires
        0 <= i <= entries.len(),
    ensures
        forall|j: int| i <= j < insert_position(entries, key, i) ==> text_lt(#[trigger] entries[j].0, key),
        insert_position(entries, key, i) < entries.len() ==> !text_lt(entries[insert_position(entries, key, i)].0, key),
    decreases entries.len() - i,
{
    lemma_insert_position_bounds(entries, key, i);
    if i < entries.len() && text_lt(entries[i].0, key) {
        lemma_insert_position_props(entries, key, i + 1);
    }
}

/// Setting a member and reading it gives the value written.
pub proof fn lemma_with_member_reads_back(j: Json, key: Seq<char>, v: Json)
    requires
        j is Object,
    ensures
        json_get(with_member(j, key, v), key) == Some(v),
{
    reveal(with_member);
    let e = j->Object_0;
    lemma_key_index_props(e, key);
    match key_index(e, key) {
        Some(i) => {
            let e2 = e.update(i, (key, v));
            lemma_key_index_is(e2, key, i);
        },
        None => {
            let p = insert_position(e, key, 0);
            lemma_insert_position_bounds(e, key, 0);
            let e2 = e.insert(p, (key, v));
            assert forall|m: int| 0 <= m < p implies e2[m].0 != key by {
                assert(e2[m] == e[m]);
            }
            lemma_key_index_is(e2, key, p);
        },
    }
}

/// Setting a member leaves every other member as it was.
pub proof fn lemma_with_member_keeps_others(j: Json, key: Seq<char>, v: Json, other: Seq<char>)
    requires
        other != key,
    ensures
        json_get(with_member(j, key, v), other) == json_get(j, other),
{
    reveal(with_member);
    if let Json::Object(e) = j {
        lemma_key_index_props(e, key);
        lemma_key_index_props(e, other);
        match key_index(e, key) {
            Some(i) => {
                let e2 = e.update(i, (key, v));
                lemma_key_index_same_keys(e, e2, other);
            },
            None => {
                let p = insert_position(e, key, 0);
                lemma_insert_position_bounds(e, key, 0);
                let e2 = e.insert(p, (key, v));
                match key_index(e, other) {
                    Some(m) => {
                        let m2 = if m < p { m } else { m + 1 };
                        assert forall|q: int| 0 <= q < m2 implies e2[q].0 != other by {
                            if q < p {
                                assert(e2[q] == e[q]);
                            } else if q > p {
                                assert(e2[q] == e[q - 1]);
                            }
                        }
                        assert(e2[m2] == e[m]);
                        lemma_key_index_is(e2, other, m2);
                    },
                    None => {
                        assert forall|q: int| 0 <= q < e2.len() implies e2[q].0 != other by {
                            if q < p {
                                assert(e2[q] == e[q]);
                            } else if q > p {
                                assert(e2[q] == e[q - 1]);
                            }
                        }
                        lemma_key_index_none(e2, other);
                    },
                }
            },
        }
    }
}

/// Setting a member keeps an object's keys in ascending order.
pub proof fn lemma_with_member_keeps_order(j: Json, key: Seq<char>, v: Json)
    requires
        j matches Json::Object(e) && keys_ascending(e),
    ensures
        with_member(j, key, v) matches Json::Object(e2) && keys_ascending(e2),
{
    reveal(with_member);
    let e = j->Object_0;
    lemma_key_index_props(e, key);
    match key_index(e, key) {
        Some(i) => {
            let e2 = e.update(i, (key, v));
            assert forall|a: int, b: int| 0 <= a < b < e2.len() implies text_lt(#[trigger] e2[a].0, #[trigger] e2[b].0) by {
                assert(e2[a].0 == e[a].0 && e2[b].0 == e[b].0);
            }
        },
        None => {
            let p = insert_position(e, key, 0);
            lemma_insert_position_props(e, key, 0);
            lemma_insert_position_bounds(e, key, 0);
            let e2 = e.insert(p, (key, v));
            if p < e.len() {
                lemma_text_lt_total(e[p].0, key);
            }
            assert forall|a: int, b: int| 0 <= a < b < e2.len() implies text_lt(#[trigger] e2[a].0, #[trigger] e2[b].0) by {
                if b < p {
                    assert(e2[a] == e[a] && e2[b] == e[b]);
                } else if b == p {
                    assert(e2[a] == e[a]);
                } else if a == p {
                    assert(e2[b] == e[b - 1]);
                    if b - 1 > p {
                        lemma_text_lt_transitive(key, e[p].0, e[b - 1].0);
                    }
                } else if a < p {
                    assert(e2[a] == e[a] && e2[b] == e[b - 1]);
                } else {
                    assert(e2[a] == e[a - 1] && e2[b] == e[b - 1]);
                }
            }
        },
    }
}

/// Removing a member from an object with ascending keys leaves no member
/// of that name, and every other member as it was.
pub proof fn lemma_without_member_removes(j: Json, key: Seq<char>, other: Seq<char>)
    requires
        j matches Json::Object(e) && keys_ascending(e),
        other != key,
    ensures
        json_get(without_member(j, key), key) is None,
        json_get(without_member(j, key), other) == json_get(j, other),
{
    reveal(without_member);
    let e = j->Object_0;
    lemma_key_index_props(e, key);
    if let Some(i) = key_index(e, key) {
        let e2 = e.remove(i);
        assert forall|q: int| 0 <= q < e2.len() implies e2[q].0 != key by {
            if q < i {
                assert(e2[q] == e[q]);
            } else {
                assert(e2[q] == e[q + 1]);
                assert(text_lt(e[i].0, e[q + 1].0));
                lemma_text_lt_irreflexive(key);
            }
        }
        lemma_key_index_none(e2, key);
    }
    lemma_without_member_keeps_others(j, key, other);
}

/// Setting a member to the value it already has changes nothing.
pub proof fn lemma_with_member_same(j: Json, key: Seq<char>)
    requires
        json_get(j, key) is Some,
    ensures
        with_member(j, key, json_get(j, key).unwrap()) == j,
{
    reveal(with_member);
    let e = j->Object_0;
    lemma_key_index_props(e, key);
    let i = key_index(e, key).unwrap();
    assert(e.update(i, (key, e[i].1)) =~= e);
}


/// Setting or removing a member of an object leaves an object.
pub proof fn lemma_member_edits_keep_objects(j: Json, key: Seq<char>, v: Json)
    requires
        j is Object,
    ensures
        with_member(j, key, v) is Object,
        without_member(j, key) is Object,
{
    reveal(with_member);
    reveal(without_member);
}

/// Removing a member leaves every other member as it was.
pub proof fn lemma_without_member_keeps_others(j: Json, key: Seq<char>, other: Seq<char>)
    requires
        other != key,
    ensures
        json_get(without_member(j, key), other) == json_get(j, other),
{
    reveal(without_member);
    if let Json::Object(e) = j {
        lemma_key_index_props(e, key);
        lemma_key_index_props(e, other);
        if let Some(i) = key_index(e, key) {
            let e2 = e.remove(i);
            match key_index(e, other) {
                Some(m) => {
                    let m2 = if m < i { m } else { m - 1 };
                    assert(m != i);
                    assert forall|q: int| 0 <= q < m2 implies e2[q].0 != other by {
                        if q < i {
                            assert(e2[q] == e[q]);
                        } else {
                            assert(e2[q] == e[q + 1]);
                        }
                    }
                    assert(e2[m2] == e[m]);
                    lemma_key_index_is(e2, other, m2);
                },
                None => {
                    assert forall|q: int| 0 <= q < e2.len() implies e2[q].0 != other by {
                        if q < i {
                            assert(e2[q] == e[q]);
                        } else {
                            assert(e2[q] == e[q + 1]);
                        }
                    }
                    lemma_key_index_none(e2, other);
                },
            }
        }
    }
}

} // verus!
