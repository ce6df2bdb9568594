//! What a write request's body becomes before it is stored: any
//! client-sent revision is dropped, the nested `fields` object is folded
//! into the top level, and the text body is taken out to be stored
//! separately. Also the entity tag attached to the answer.

use vstd::prelude::*;

use crate::json::{
    spec_del_field, spec_get_field, spec_set_field, JVal, JsonValue,
};
use crate::strutil::{chars_to_string, dec_digits, str_to_chars, u64_to_dec};

verus! {

/// The fields of `sub` bound in `m` one after another; a later field
/// overrides an earlier one of the same name.
pub open spec fn spec_merge_fields(m: JVal, sub: Seq<(Seq<char>, JVal)>) -> JVal
    decreases sub,
{
    if sub.len() == 0 {
        m
    } else {
        spec_set_field(spec_merge_fields(m, sub.drop_last()), sub.last().0, sub.last().1)
    }
}

/// The metadata after the client-sent revision is dropped and the nested
/// `fields` object is removed and folded in.
pub open spec fn spec_folded_meta(meta: JVal) -> JVal {
    let m2 = spec_del_field(meta, "revision"@);
    match spec_get_field(m2, "fields"@) {
        Some(JVal::Obj(sub)) => spec_merge_fields(spec_del_field(m2, "fields"@), sub),
        Some(_) => spec_del_field(m2, "fields"@),
        None => m2,
    }
}

/// The metadata that is stored for a request body: for an object, the
/// folded metadata without its `text` field; any other body is stored as
/// it came.
pub open spec fn spec_prepared_meta(meta: JVal) -> JVal {
    match meta {
        JVal::Obj(_) => spec_del_field(spec_folded_meta(meta), "text"@),
        _ => meta,
    }
}

/// The text body that is stored for a request body: the string under the
/// folded metadata's `text` field, if there is one; otherwise empty.
pub open spec fn spec_extracted_text(meta: JVal) -> Seq<char> {
    match meta {
        JVal::Obj(_) => match spec_get_field(spec_folded_meta(meta), "text"@) {
            Some(JVal::Str(t)) => t,
            _ => Seq::empty(),
        },
        _ => Seq::empty(),
    }
}

/// Folds each field of `sub`, in order, into `m`.
fn merge_fields(m: JsonValue, sub: &Vec<(String, JsonValue)>) -> (r: JsonValue)
    ensures
        r@ == spec_merge_fields(m@, JsonValue::view_fields(sub@)),
{
    let mut cur = m;
    let ghost m0 = cur@;
    let mut j: usize = 0;
    proof {
        assert(sub@.take(0) =~= Seq::<(String, JsonValue)>::empty());
        assert(JsonValue::view_fields(sub@.take(0)) =~= Seq::<(Seq<char>, JVal)>::empty());
    }
    while j < sub.len()
        invariant
            j <= sub@.len(),
            cur@ == spec_merge_fields(m0, JsonValue::view_fields(sub@.take(j as int))),
        decreases sub@.len() - j,
    {
        let entry = &sub[j];
        cur = cur.set_field(entry.0.clone(), entry.1.clone_val());
        proof {
            let pv = JsonValue::view_fields(sub@.take(j as int));
            let nv = JsonValue::view_fields(sub@.take(j + 1));
            assert(sub@.take(j + 1).drop_last() =~= sub@.take(j as int));
            assert(sub@.take(j + 1).last() == sub@[j as int]);
            assert(nv == pv.push((sub@[j as int].0@, sub@[j as int].1@)));
            assert(nv.drop_last() =~= pv);
            assert(spec_merge_fields(m0, nv) == spec_set_field(
                spec_merge_fields(m0, pv),
                sub@[j as int].0@,
                sub@[j as int].1@,
            ));
        }
        j += 1;
    }
    proof {
        assert(sub@.take(sub@.len() as int) =~= sub@);
    }
    cur
}

/// Turns a write request's body into what the store keeps: the prepared
/// metadata and the extracted text body.
pub fn prepare_put_meta(meta: JsonValue) -> (r: (JsonValue, String))
    ensures
        r.0@ == spec_prepared_meta(meta@),
        r.1@ == spec_extracted_text(meta@),
{
    let is_obj = matches!(meta, JsonValue::Obj(_));
    if !is_obj {
        return (meta, String::new());
    }
    let (m2, _dropped) = meta.take_field(&"revision".to_owned());
    let (m2b, fields_opt) = m2.take_field(&"fields".to_owned());
    let m3 = match fields_opt {
        Some(sub_val) => match sub_val {
            JsonValue::Obj(sub) => merge_fields(m2b, &sub),
            _ => m2b,
        },
        None => m2b,
    };
    let (m4, text_opt) = m3.take_field(&"text".to_owned());
    let text = match text_opt {
        Some(t_val) => match t_val {
            JsonValue::Str(t) => t,
            _ => String::new(),
        },
        None => String::new(),
    };
    (m4, text)
}

/// The entity tag attached to a successful write: the key and the item
/// revision just assigned, in the collection's tag form.
pub fn put_etag(key: &str, rev: u32) -> (r: String)
    ensures
        r@ == seq!['"', 'a', '/'] + key@ + seq!['/'] + dec_digits(rev as nat) + seq![':', '"'],
{
    let mut out: Vec<char> = Vec::new();
    out.push('"');
    out.push('a');
    out.push('/');
    let mut kc = str_to_chars(key);
    out.append(&mut kc);
    out.push('/');
    let mut d = u64_to_dec(rev as u64);
    out.append(&mut d);
    out.push(':');
    out.push('"');
    proof {
        assert(out@ =~= seq!['"', 'a', '/'] + key@ + seq!['/'] + dec_digits(rev as nat) + seq![
            ':',
            '"',
        ]);
    }
    chars_to_string(&out)
}

} // verus!
