//! The library's own model of structured metadata documents: a JSON-like
//! value made of plain data, so that every operation on item metadata can be
//! stated and verified over a mathematical view.

use vstd::prelude::*;

verus! {

/// Mathematical model of a structured value: the view of [`JsonValue`].
pub enum JVal {
    Null,
    Bool(bool),
    Int(int),
    Str(Seq<char>),
    Arr(Seq<JVal>),
    Obj(Seq<(Seq<char>, JVal)>),
}

/// A structured metadata value: null, boolean, integer, string, array, or
/// object with ordered fields.
pub enum JsonValue {
    Null,
    Bool(bool),
    Int(i64),
    Str(String),
    Arr(Vec<JsonValue>),
    Obj(Vec<(String, JsonValue)>),
}

impl View for JsonValue {
    type V = JVal;

    open spec fn view(&self) -> JVal {
        (*self).jval()
    }
}

impl JsonValue {
    /// The mathematical view of this value.
    pub open spec fn jval(self) -> JVal
        decreases self,
    {
        match self {
            JsonValue::Null => JVal::Null,
            JsonValue::Bool(b) => JVal::Bool(b),
            JsonValue::Int(i) => JVal::Int(i as int),
            JsonValue::Str(s) => JVal::Str(s@),
            JsonValue::Arr(items) => JVal::Arr(JsonValue::view_elems(items@)),
            JsonValue::Obj(fields) => JVal::Obj(JsonValue::view_fields(fields@)),
        }
    }

    /// The views of a sequence of values, element by element.
    pub open spec fn view_elems(items: Seq<JsonValue>) -> Seq<JVal>
        decreases items,
    {
        if items.len() == 0 {
            Seq::empty()
        } else {
            JsonValue::view_elems(items.drop_last()).push(items.last().jval())
        }
    }

    /// The views of a sequence of named fields, field by field.
    pub open spec fn view_fields(fields: Seq<(String, JsonValue)>) -> Seq<(Seq<char>, JVal)>
        decreases fields,
    {
        if fields.len() == 0 {
            Seq::empty()
        } else {
            JsonValue::view_fields(fields.drop_last()).push(
                (fields.last().0@, fields.last().1.jval()),
            )
        }
    }
}

/// The views of a sequence of values are exactly the element views, in order.
pub proof fn lemma_view_elems(items: Seq<JsonValue>)
    ensures
        JsonValue::view_elems(items).len() == items.len(),
        forall|i: int|
            0 <= i < items.len() ==> JsonValue::view_elems(items)[i] == items[i]@,
    decreases items,
{
    if items.len() > 0 {
        lemma_view_elems(items.drop_last());
        assert forall|i: int|
            0 <= i < items.len() implies JsonValue::view_elems(items)[i] == items[i]@ by {
            if i < items.len() - 1 {
                assert(items.drop_last()[i] == items[i]);
            }
        }
    }
}

/// The views of a field sequence are exactly the field views, in order.
pub proof fn lemma_view_fields(fields: Seq<(String, JsonValue)>)
    ensures
        JsonValue::view_fields(fields).len() == fields.len(),
        forall|i: int|
            0 <= i < fields.len() ==> JsonValue::view_fields(fields)[i] == (
                fields[i].0@,
                fields[i].1@,
            ),
    decreases fields,
{
    if fields.len() > 0 {
        lemma_view_fields(fields.drop_last());
        assert forall|i: int|
            0 <= i < fields.len() implies JsonValue::view_fields(fields)[i] == (
            fields[i].0@,
            fields[i].1@,
        ) by {
            if i < fields.len() - 1 {
                assert(fields.drop_last()[i] == fields[i]);
            }
        }
    }
}

/// Index of the first entry of an association list bearing key `k`, or -1.
pub open spec fn assoc_index<V>(s: Seq<(Seq<char>, V)>, k: Seq<char>) -> int
    decreases s,
{
    if s.len() == 0 {
        -1
    } else if s[0].0 == k {
        0
    } else {
        let r = assoc_index(s.drop_first(), k);
        if r == -1 {
            -1
        } else {
            r + 1
        }
    }
}

/// What `assoc_index` finds: either no entry bears the key, or the first
/// entry that does.
pub proof fn lemma_assoc_index<V>(s: Seq<(Seq<char>, V)>, k: Seq<char>)
    ensures
        assoc_index(s, k) == -1 ==> forall|i: int| 0 <= i < s.len() ==> s[i].0 != k,
        assoc_index(s, k) != -1 ==> {
            let r = assoc_index(s, k);
            &&& 0 <= r < s.len()
            &&& s[r].0 == k
            &&& forall|i: int| 0 <= i < r ==> s[i].0 != k
        },
    decreases s,
{
    if s.len() > 0 && s[0].0 != k {
        lemma_assoc_index(s.drop_first(), k);
        assert forall|i: int| 1 <= i < s.len() implies s[i] == s.drop_first()[i - 1] by {}
    }
}

/// Value of the first entry bearing key `k`, if any.
pub open spec fn assoc_lookup<V>(s: Seq<(Seq<char>, V)>, k: Seq<char>) -> Option<V> {
    let r = assoc_index(s, k);
    if r == -1 {
        None
    } else {
        Some(s[r].1)
    }
}

/// The association list after binding `k` to `v`: the first entry bearing
/// `k` is replaced, or a new entry is appended.
pub open spec fn assoc_store<V>(s: Seq<(Seq<char>, V)>, k: Seq<char>, v: V) -> Seq<
    (Seq<char>, V),
> {
    let r = assoc_index(s, k);
    if r == -1 {
        s.push((k, v))
    } else {
        s.update(r, (k, v))
    }
}

/// The association list with the first entry bearing `k` removed.
pub open spec fn assoc_del<V>(s: Seq<(Seq<char>, V)>, k: Seq<char>) -> Seq<(Seq<char>, V)> {
    let r = assoc_index(s, k);
    if r == -1 {
        s
    } else {
        s.remove(r)
    }
}

/// The first entry bearing `k` is at `j` exactly when `j` bears `k` and no
/// earlier entry does.
pub proof fn lemma_index_unique<V>(s: Seq<(Seq<char>, V)>, k: Seq<char>, j: int)
    requires
        0 <= j < s.len(),
        s[j].0 == k,
        forall|i: int| 0 <= i < j ==> s[i].0 != k,
    ensures
        assoc_index(s, k) == j,
{
    lemma_assoc_index(s, k);
    let r = assoc_index(s, k);
    if r == -1 {
        assert(s[j].0 != k);
    } else if r < j {
        assert(s[r].0 != k);
    } else if r > j {
        assert(s[j].0 != k);
    }
}

/// A lookup after binding `k` finds exactly the bound value.
pub proof fn lemma_lookup_store<V>(s: Seq<(Seq<char>, V)>, k: Seq<char>, v: V)
    ensures
        assoc_lookup(assoc_store(s, k, v), k) == Some(v),
{
    lemma_assoc_index(s, k);
    let r = assoc_index(s, k);
    let s2 = assoc_store(s, k, v);
    if r == -1 {
        assert(forall|i: int| 0 <= i < s.len() ==> s2[i] == s[i]);
        lemma_index_unique(s2, k, s.len() as int);
    } else {
        assert(forall|i: int| 0 <= i < r ==> s2[i] == s[i]);
        lemma_index_unique(s2, k, r);
    }
}

/// Binding one key leaves every other key's binding unchanged.
pub proof fn lemma_store_frame<V>(s: Seq<(Seq<char>, V)>, k: Seq<char>, v: V, k2: Seq<char>)
    requires
        k2 != k,
    ensures
        assoc_lookup(assoc_store(s, k, v), k2) == assoc_lookup(s, k2),
{
    lemma_assoc_index(s, k);
    lemma_assoc_index(s, k2);
    let r = assoc_index(s, k);
    let r2 = assoc_index(s, k2);
    let s2 = assoc_store(s, k, v);
    if r == -1 {
        if r2 == -1 {
            lemma_assoc_index(s2, k2);
            let q = assoc_index(s2, k2);
            if q != -1 {
                assert(s2[q].0 == k2);
                if q < s.len() {
                    assert(s[q].0 != k2);
                }
            }
        } else {
            assert(forall|i: int| 0 <= i < r2 ==> s2[i] == s[i]);
            lemma_index_unique(s2, k2, r2);
        }
    } else {
        assert(s[r].0 == k);
        if r2 == -1 {
            lemma_assoc_index(s2, k2);
            let q = assoc_index(s2, k2);
            if q != -1 {
                assert(s2[q].0 == k2);
                assert(s[q].0 != k2);
                assert(q == r);
            }
        } else {
            assert(forall|i: int| 0 <= i < r2 ==> s[i].0 != k2);
            assert(forall|i: int|
                0 <= i < r2 ==> s2[i].0 == (if i == r {
                    k
                } else {
                    s[i].0
                }));
            lemma_index_unique(s2, k2, r2);
            assert(s2[r2] == s[r2]);
        }
    }
}

/// A lookup after removing `k` finds nothing bound to `k`'s first entry;
/// with no duplicate keys it finds nothing at all.
pub proof fn lemma_del_frame<V>(s: Seq<(Seq<char>, V)>, k: Seq<char>, k2: Seq<char>)
    requires
        k2 != k,
    ensures
        assoc_lookup(assoc_del(s, k), k2) == assoc_lookup(s, k2),
{
    lemma_assoc_index(s, k);
    lemma_assoc_index(s, k2);
    let r = assoc_index(s, k);
    let r2 = assoc_index(s, k2);
    let s2 = assoc_del(s, k);
    if r != -1 {
        assert(s[r].0 == k);
        assert(forall|i: int|
            0 <= i < s2.len() ==> s2[i] == (if i < r {
                s[i]
            } else {
                s[i + 1]
            }));
        if r2 == -1 {
            lemma_assoc_index(s2, k2);
            let q = assoc_index(s2, k2);
            if q != -1 {
                assert(s2[q].0 == k2);
            }
        } else {
            if r2 < r {
                lemma_index_unique(s2, k2, r2);
            } else {
                assert(r2 != r);
                assert forall|i: int| 0 <= i < r2 - 1 implies s2[i].0 != k2 by {
                    if i < r {
                        assert(s2[i] == s[i]);
                    } else {
                        assert(s2[i] == s[i + 1]);
                        assert(i + 1 < r2);
                    }
                }
                assert(s2[r2 - 1] == s[r2 as int]);
                lemma_index_unique(s2, k2, r2 - 1);
            }
        }
    }
}

/// Whether no two entries of an association list bear the same key.
pub open spec fn distinct_keys<V>(s: Seq<(Seq<char>, V)>) -> bool {
    forall|i: int, j: int| 0 <= i < j < s.len() ==> s[i].0 != s[j].0
}

/// Binding a key keeps the keys distinct: an existing entry is replaced
/// in place, a new entry brings a key that no entry bears.
pub proof fn lemma_store_distinct<V>(s: Seq<(Seq<char>, V)>, k: Seq<char>, v: V)
    requires
        distinct_keys(s),
    ensures
        distinct_keys(assoc_store(s, k, v)),
{
    lemma_assoc_index(s, k);
    let r = assoc_index(s, k);
    let s2 = assoc_store(s, k, v);
    if r == -1 {
        assert forall|i: int, j: int| 0 <= i < j < s2.len() implies s2[i].0 != s2[j].0 by {
            if j < s.len() {
                assert(s2[i] == s[i] && s2[j] == s[j]);
            } else {
                assert(s2[i] == s[i] && s2[j].0 == k);
                assert(s[i].0 != k);
            }
        }
    } else {
        assert forall|i: int, j: int| 0 <= i < j < s2.len() implies s2[i].0 != s2[j].0 by {
            assert(s2[i].0 == s[i].0 && s2[j].0 == s[j].0);
        }
    }
}

/// Removing a key keeps the keys distinct.
pub proof fn lemma_del_distinct<V>(s: Seq<(Seq<char>, V)>, k: Seq<char>)
    requires
        distinct_keys(s),
    ensures
        distinct_keys(assoc_del(s, k)),
{
    lemma_assoc_index(s, k);
    let r = assoc_index(s, k);
    let s2 = assoc_del(s, k);
    if r != -1 {
        assert forall|i: int, j: int| 0 <= i < j < s2.len() implies s2[i].0 != s2[j].0 by {
            let i0: int = if i < r {
                i
            } else {
                i + 1
            };
            let j0: int = if j < r {
                j
            } else {
                j + 1
            };
            assert(s2[i] == s[i0] && s2[j] == s[j0]);
            assert(0 <= i0 < j0 < s.len());
        }
    }
}

/// Index of the first field named `key`, if any.
fn find_field(fields: &Vec<(String, JsonValue)>, key: &String) -> (r: Option<usize>)
    ensures
        ({
            let idx = assoc_index(JsonValue::view_fields(fields@), key@);
            match r {
                None => idx == -1,
                Some(j) => idx == j,
            }
        }),
{
    proof {
        lemma_view_fields(fields@);
        lemma_assoc_index(JsonValue::view_fields(fields@), key@);
    }
    let mut j: usize = 0;
    while j < fields.len()
        invariant
            j <= fields@.len(),
            forall|i: int| 0 <= i < j ==> fields@[i].0@ != key@,
            JsonValue::view_fields(fields@).len() == fields@.len(),
            forall|i: int|
                0 <= i < fields@.len() ==> JsonValue::view_fields(fields@)[i] == (
                    fields@[i].0@,
                    fields@[i].1@,
                ),
        decreases fields@.len() - j,
    {
        if fields[j].0 == *key {
            proof {
                let vf = JsonValue::view_fields(fields@);
                lemma_assoc_index(vf, key@);
                assert(vf[j as int].0 == key@);
                let r = assoc_index(vf, key@);
                if r != j {
                    if r == -1 {
                        assert(vf[j as int].0 != key@);
                    } else if r < j {
                        assert(vf[r].0 == key@);
                        assert(fields@[r].0@ != key@);
                    } else {
                        assert(vf[j as int].0 != key@);
                    }
                }
            }
            return Some(j);
        }
        j += 1;
    }
    proof {
        lemma_assoc_index(JsonValue::view_fields(fields@), key@);
    }
    None
}

/// A structurally equal copy of each element of `items`.
fn clone_vals(items: &Vec<JsonValue>) -> (r: Vec<JsonValue>)
    ensures
        r@.len() == items@.len(),
        forall|i: int| 0 <= i < items@.len() ==> r@[i]@ == items@[i]@,
    decreases items@,
{
    let mut out: Vec<JsonValue> = Vec::new();
    let mut j: usize = 0;
    while j < items.len()
        invariant
            j <= items@.len(),
            out@.len() == j,
            forall|i: int| 0 <= i < j ==> out@[i]@ == items@[i]@,
        decreases items@.len() - j,
    {
        proof {
            assert(decreases_to!(items@ => items@[j as int]));
        }
        out.push(items[j].clone_val());
        j += 1;
    }
    out
}

/// A structurally equal copy of one named field.
fn clone_entry(entry: &(String, JsonValue)) -> (r: (String, JsonValue))
    ensures
        r.0@ == entry.0@,
        r.1@ == entry.1@,
    decreases *entry,
{
    proof {
        assert(decreases_to!(*entry => entry.1));
    }
    (entry.0.clone(), entry.1.clone_val())
}

/// A structurally equal copy of each field of `fields`.
fn clone_field_vec(fields: &Vec<(String, JsonValue)>) -> (r: Vec<(String, JsonValue)>)
    ensures
        r@.len() == fields@.len(),
        forall|i: int| 0 <= i < fields@.len() ==> r@[i].0@ == fields@[i].0@ && r@[i].1@
            == fields@[i].1@,
    decreases fields@,
{
    let mut out: Vec<(String, JsonValue)> = Vec::new();
    let mut j: usize = 0;
    while j < fields.len()
        invariant
            j <= fields@.len(),
            out@.len() == j,
            forall|i: int| 0 <= i < j ==> out@[i].0@ == fields@[i].0@ && out@[i].1@
                == fields@[i].1@,
        decreases fields@.len() - j,
    {
        proof {
            assert(decreases_to!(fields@ => fields@[j as int]));
        }
        let entry = clone_entry(&fields[j]);
        out.push(entry);
        j += 1;
    }
    out
}

impl JsonValue {
    /// A structurally equal copy of this value.
    pub fn clone_val(&self) -> (r: JsonValue)
        ensures
            r@ == self@,
        decreases *self,
    {
        match self {
            JsonValue::Null => JsonValue::Null,
            JsonValue::Bool(b) => JsonValue::Bool(*b),
            JsonValue::Int(i) => JsonValue::Int(*i),
            JsonValue::Str(s) => JsonValue::Str(s.clone()),
            JsonValue::Arr(items) => {
                proof {
                    assert(decreases_to!(*self => (*self)->Arr_0));
                }
                let out = clone_vals(items);
                proof {
                    lemma_view_elems(out@);
                    lemma_view_elems(items@);
                    assert(JsonValue::view_elems(out@) =~= JsonValue::view_elems(items@));
                }
                JsonValue::Arr(out)
            },
            JsonValue::Obj(fields) => {
                proof {
                    assert(decreases_to!(*self => (*self)->Obj_0));
                }
                let out = clone_field_vec(fields);
                proof {
                    lemma_view_fields(out@);
                    lemma_view_fields(fields@);
                    assert(JsonValue::view_fields(out@) =~= JsonValue::view_fields(fields@));
                }
                JsonValue::Obj(out)
            },
        }
    }

    /// Binds `key` to `value` if this value is an object; any other value is
    /// returned unchanged.
    pub fn set_field(self, key: String, value: JsonValue) -> (r: JsonValue)
        ensures
            r@ == spec_set_field(self@, key@, value@),
    {
        match self {
            JsonValue::Obj(mut fields) => {
                proof {
                    lemma_view_fields(fields@);
                }
                match find_field(&fields, &key) {
                    Some(j) => {
                        proof {
                            lemma_assoc_index(JsonValue::view_fields(fields@), key@);
                        }
                        let ghost old_fields = fields@;
                        fields.set(j, (key, value));
                        proof {
                            lemma_view_fields(fields@);
                            assert(JsonValue::view_fields(fields@) =~= assoc_store(
                                JsonValue::view_fields(old_fields),
                                key@,
                                value@,
                            ));
                        }
                        JsonValue::Obj(fields)
                    },
                    None => {
                        let ghost old_fields = fields@;
                        fields.push((key, value));
                        proof {
                            lemma_view_fields(fields@);
                            lemma_view_fields(old_fields);
                            assert(JsonValue::view_fields(fields@) =~= assoc_store(
                                JsonValue::view_fields(old_fields),
                                key@,
                                value@,
                            ));
                        }
                        JsonValue::Obj(fields)
                    },
                }
            },
            other => other,
        }
    }

    /// Removes the field named `key` if this value is an object with such a
    /// field; returns the value that was removed, with the remaining value.
    pub fn take_field(self, key: &String) -> (r: (JsonValue, Option<JsonValue>))
        ensures
            r.0@ == spec_del_field(self@, key@),
            r.1 matches Some(v) ==> spec_get_field(self@, key@) == Some(v@),
            r.1 is None ==> spec_get_field(self@, key@) is None,
    {
        match self {
            JsonValue::Obj(mut fields) => {
                proof {
                    lemma_view_fields(fields@);
                }
                match find_field(&fields, key) {
                    Some(j) => {
                        proof {
                            lemma_assoc_index(JsonValue::view_fields(fields@), key@);
                        }
                        let ghost old_fields = fields@;
                        let entry = fields.remove(j);
                        proof {
                            lemma_view_fields(fields@);
                            lemma_view_fields(old_fields);
                            assert(JsonValue::view_fields(fields@) =~= JsonValue::view_fields(
                                old_fields,
                            ).remove(j as int));
                        }
                        (JsonValue::Obj(fields), Some(entry.1))
                    },
                    None => (JsonValue::Obj(fields), None),
                }
            },
            other => (other, None),
        }
    }
}

/// The value of the field named `k`, when `v` is an object that has one.
pub open spec fn spec_get_field(v: JVal, k: Seq<char>) -> Option<JVal> {
    match v {
        JVal::Obj(fields) => assoc_lookup(fields, k),
        _ => None,
    }
}

/// `v` with `k` bound, when `v` is an object; otherwise `v` itself.
pub open spec fn spec_set_field(v: JVal, k: Seq<char>, value: JVal) -> JVal {
    match v {
        JVal::Obj(fields) => JVal::Obj(assoc_store(fields, k, value)),
        _ => v,
    }
}

/// `v` without the field named `k`, when `v` is an object; otherwise `v`.
pub open spec fn spec_del_field(v: JVal, k: Seq<char>) -> JVal {
    match v {
        JVal::Obj(fields) => JVal::Obj(assoc_del(fields, k)),
        _ => v,
    }
}

} // verus!
