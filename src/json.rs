use vstd::prelude::*;

verus! {

/// The mathematical form of a JSON tree: what contracts speak of.

pub enum Json {
    Null,
    Bool(bool),
    Number(Seq<char>),
    Str(Seq<char>),
    Array(Seq<Json>),
    Object(Seq<(Seq<char>, Json)>),
}

/// A JSON tree. Numbers are held as their decimal text, so that no float
/// is needed; object members keep their order, and a lookup by key finds
/// the first member with that key.
#[derive(Debug, PartialEq)]
pub enum JsonValue {
    Null,
    Bool(bool),
    Number(String),
    Str(String),
    Array(Vec<JsonValue>),
    Object(Vec<(String, JsonValue)>),
}

/// `i` is the first member of `m` whose key is `key`.
pub open spec fn is_first_member(m: Seq<(Seq<char>, Json)>, key: Seq<char>, i: int) -> bool {
    &&& 0 <= i < m.len()
    &&& m[i].0 == key
    &&& forall|j: int| 0 <= j < i ==> m[j].0 != key
}

/// The value of the first member of `m` with key `key`, if there is one.
pub open spec fn member(m: Seq<(Seq<char>, Json)>, key: Seq<char>) -> Option<Json> {
    if exists|i: int| is_first_member(m, key, i) {
        let i = choose|i: int| is_first_member(m, key, i);
        Some(m[i].1)
    } else {
        None
    }
}

/// `m` with the first member of key `key` given the value `v`, or, where
/// there is none, with `(key, v)` added at the end.
pub open spec fn set_member(m: Seq<(Seq<char>, Json)>, key: Seq<char>, v: Json) -> Seq<(Seq<char>, Json)> {
    if exists|i: int| is_first_member(m, key, i) {
        let i = choose|i: int| is_first_member(m, key, i);
        m.update(i, (key, v))
    } else {
        m.push((key, v))
    }
}

pub proof fn lemma_first_member_unique(m: Seq<(Seq<char>, Json)>, key: Seq<char>, i: int, k: int)
    requires
        is_first_member(m, key, i),
        is_first_member(m, key, k),
    ensures
        i == k,
{
}

/// The members of an object, as `Json` pairs.
pub open spec fn members_model(members: Vec<(String, JsonValue)>) -> Seq<(Seq<char>, Json)> {
    JsonValue::Object(members).model()->Object_0
}

/// The position of the first member of `members` whose key is `key`.
pub fn find_member(members: &Vec<(String, JsonValue)>, key: &String) -> (r: Option<usize>)
    ensures
        match r {
            Some(i) => is_first_member(members_model(*members), key@, i as int),
            None => !exists|i: int| is_first_member(members_model(*members), key@, i),
        },
{
    let ghost m = members_model(*members);
    let mut i: usize = 0;
    while i < members.len()
        invariant
            i <= members.len(),
            m == members_model(*members),
            forall|j: int| 0 <= j < i ==> m[j].0 != key@,
        decreases members.len() - i,
    {
        assert(m[i as int].0 == members[i as int].0@);
        if members[i].0 == *key {
            return Some(i);
        }
        i += 1;
    }
    None
}

/// Gives the first member of key `key` the value `value`, or adds the
/// member at the end where there is none.
pub fn put_member(members: &mut Vec<(String, JsonValue)>, key: String, value: JsonValue)
    ensures
        members_model(*final(members)) == set_member(members_model(*old(members)), key@, value.model()),
{
    let ghost m0 = members_model(*members);
    let ghost k = key@;
    let ghost v = value.model();
    match find_member(members, &key) {
        Some(i) => {
            members[i] = (key, value);
            proof {
                let m1 = members_model(*members);
                assert(m1 =~= m0.update(i as int, (k, v)));
            }
        },
        None => {
            members.push((key, value));
            proof {
                let m1 = members_model(*members);
                assert(m1 =~= m0.push((k, v)));
            }
        },
    }
}

/// After `set_member`, the key's first member holds the new value.
pub proof fn lemma_member_after_set(m: Seq<(Seq<char>, Json)>, key: Seq<char>, v: Json)
    ensures
        member(set_member(m, key, v), key) == Some(v),
{
    let t = set_member(m, key, v);
    if exists|i: int| is_first_member(m, key, i) {
        let i = choose|i: int| is_first_member(m, key, i);
        assert(is_first_member(t, key, i));
        let k = choose|k: int| is_first_member(t, key, k);
        lemma_first_member_unique(t, key, i, k);
    } else {
        let n = m.len() as int;
        assert forall|j: int| 0 <= j < n implies t[j].0 != key by {
            if t[j].0 == key {
                assert(m[j].0 == key);
                assert(false) by {
                    lemma_first_key_exists(m, key, j);
                }
            }
        }
        assert(is_first_member(t, key, n));
        let k = choose|k: int| is_first_member(t, key, k);
        lemma_first_member_unique(t, key, n, k);
    }
}

/// Where some member has the key, there is a first one.
pub proof fn lemma_first_key_exists(m: Seq<(Seq<char>, Json)>, key: Seq<char>, j: int)
    requires
        0 <= j < m.len(),
        m[j].0 == key,
    ensures
        exists|i: int| is_first_member(m, key, i),
    decreases j,
{
    if exists|l: int| 0 <= l < j && m[l].0 == key {
        let l = choose|l: int| 0 <= l < j && m[l].0 == key;
        lemma_first_key_exists(m, key, l);
    } else {
        assert(is_first_member(m, key, j));
    }
}

impl JsonValue {
    /// The tree as a value of `Json`.
    pub open spec fn model(&self) -> Json
        decreases self,
    {
        match self {
            JsonValue::Null => Json::Null,
            JsonValue::Bool(b) => Json::Bool(*b),
            JsonValue::Number(s) => Json::Number(s@),
            JsonValue::Str(s) => Json::Str(s@),
            JsonValue::Array(items) => Json::Array(
                Seq::new(
                    items.len() as nat,
                    |i: int|
                        if 0 <= i < items.len() {
                            items[i].model()
                        } else {
                            Json::Null
                        },
                ),
            ),
            JsonValue::Object(members) => Json::Object(
                Seq::new(
                    members.len() as nat,
                    |i: int|
                        if 0 <= i < members.len() {
                            (members[i].0@, members[i].1.model())
                        } else {
                            (Seq::empty(), Json::Null)
                        },
                ),
            ),
        }
    }

    /// An independent copy of the whole tree.
    pub fn deep_copy(&self) -> (r: JsonValue)
        ensures
            r.model() == self.model(),
        decreases self,
    {
        match self {
            JsonValue::Null => JsonValue::Null,
            JsonValue::Bool(b) => JsonValue::Bool(*b),
            JsonValue::Number(s) => JsonValue::Number(s.clone()),
            JsonValue::Str(s) => JsonValue::Str(s.clone()),
            JsonValue::Array(items) => {
                let mut out: Vec<JsonValue> = Vec::new();
                let mut i: usize = 0;
                while i < items.len()
                    invariant
                        i <= items.len(),
                        *self == JsonValue::Array(*items),
                        out.len() == i,
                        forall|j: int| 0 <= j < i ==> #[trigger] out[j].model() == items[j].model(),
                    decreases items.len() - i,
                {
                    proof {
                        assert(decreases_to!(*self => self->Array_0));
                        assert(decreases_to!(*items => items[i as int]));
                    }
                    let c = items[i].deep_copy();
                    out.push(c);
                    i += 1;
                }
                let r = JsonValue::Array(out);
                proof {
                    let a = r.model()->Array_0;
                    let b = self.model()->Array_0;
                    assert forall|j: int| 0 <= j < a.len() implies a[j] == b[j] by {
                        assert(a[j] == out[j].model());
                    }
                    assert(a =~= b);
                }
                r
            },
            JsonValue::Object(members) => {
                let mut out: Vec<(String, JsonValue)> = Vec::new();
                let mut i: usize = 0;
                while i < members.len()
                    invariant
                        i <= members.len(),
                        *self == JsonValue::Object(*members),
                        out.len() == i,
                        forall|j: int| 0 <= j < i ==> #[trigger] out[j].0@ == members[j].0@
                            && out[j].1.model() == members[j].1.model(),
                    decreases members.len() - i,
                {
                    proof {
                        assert(decreases_to!(*self => self->Object_0));
                        assert(decreases_to!(*members => members[i as int]));
                    }
                    let k = members[i].0.clone();
                    let c = members[i].1.deep_copy();
                    out.push((k, c));
                    i += 1;
                }
                let r = JsonValue::Object(out);
                proof {
                    if let Json::Object(a) = r.model() {
                        if let Json::Object(b) = self.model() {
                            assert(a =~= b);
                        }
                    }
                }
                r
            },
        }
    }
}

} // verus!
