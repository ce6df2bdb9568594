//! The revisioned in-memory item store: a mapping from string keys to items,
//! each with its own revision counter, plus a store-wide revision ordinal
//! that moves up by exactly one on every mutation.

use vstd::prelude::*;

use crate::json::{
    assoc_del, assoc_index, assoc_lookup, assoc_store, lemma_assoc_index, spec_set_field, JVal,
    JsonValue,
};
use crate::codec::{expect_chars, parse_entry, parse_u64};
use crate::strutil::{chars_to_string, dec_digits, str_to_chars, u64_to_string};

verus! {

/// One stored item: its metadata document, its text body, and its own
/// revision counter.
pub struct Tiddler {
    pub meta: JsonValue,
    pub text: String,
    pub revision: u32,
}

/// Mathematical model of one stored item.
pub ghost struct TiddlerView {
    pub meta: JVal,
    pub text: Seq<char>,
    pub revision: nat,
}

impl View for Tiddler {
    type V = TiddlerView;

    open spec fn view(&self) -> TiddlerView {
        TiddlerView { meta: self.meta@, text: self.text@, revision: self.revision as nat }
    }
}

/// Mathematical model of the whole store: the keyed items in insertion
/// order, and the global revision ordinal.
pub ghost struct StoreView {
    pub entries: Seq<(Seq<char>, TiddlerView)>,
    pub revision: nat,
}

/// The in-memory store of items, with the global revision counter.
pub struct MemoryTiddlersStore {
    tiddlers: Vec<(String, Tiddler)>,
    revision: u64,
}

/// The views of the store's entries, entry by entry.
pub open spec fn entries_view(s: Seq<(String, Tiddler)>) -> Seq<(Seq<char>, TiddlerView)>
    decreases s,
{
    if s.len() == 0 {
        Seq::empty()
    } else {
        entries_view(s.drop_last()).push((s.last().0@, s.last().1@))
    }
}

/// The views of the entries are exactly the entry views, in order.
pub proof fn lemma_entries_view(s: Seq<(String, Tiddler)>)
    ensures
        entries_view(s).len() == s.len(),
        forall|i: int|
            0 <= i < s.len() ==> entries_view(s)[i] == (s[i].0@, s[i].1@),
    decreases s,
{
    if s.len() > 0 {
        lemma_entries_view(s.drop_last());
        assert forall|i: int|
            0 <= i < s.len() implies entries_view(s)[i] == (s[i].0@, s[i].1@) by {
            if i < s.len() - 1 {
                assert(s.drop_last()[i] == s[i]);
            }
        }
    }
}

impl View for MemoryTiddlersStore {
    type V = StoreView;

    closed spec fn view(&self) -> StoreView {
        StoreView { entries: entries_view(self.tiddlers@), revision: self.revision as nat }
    }
}

/// The item revision that the next `put` under `key` will assign: 0 for a
/// new key, the current item revision plus one for an existing one.
pub open spec fn spec_next_item_rev(entries: Seq<(Seq<char>, TiddlerView)>, key: Seq<char>) -> nat {
    match assoc_lookup(entries, key) {
        None => 0,
        Some(t) => t.revision + 1,
    }
}

/// The metadata sequence that a listing of `entries` reports.
pub open spec fn spec_metas(entries: Seq<(Seq<char>, TiddlerView)>) -> Seq<JVal> {
    entries.map_values(|e: (Seq<char>, TiddlerView)| e.1.meta)
}

/// Index of the entry stored under `key`, if any.
fn find_entry(tiddlers: &Vec<(String, Tiddler)>, key: &String) -> (r: Option<usize>)
    ensures
        ({
            let idx = assoc_index(entries_view(tiddlers@), key@);
            match r {
                None => idx == -1,
                Some(j) => idx == j && j < tiddlers@.len(),
            }
        }),
{
    proof {
        lemma_entries_view(tiddlers@);
        lemma_assoc_index(entries_view(tiddlers@), key@);
    }
    let mut j: usize = 0;
    while j < tiddlers.len()
        invariant
            j <= tiddlers@.len(),
            forall|i: int| 0 <= i < j ==> tiddlers@[i].0@ != key@,
            entries_view(tiddlers@).len() == tiddlers@.len(),
            forall|i: int|
                0 <= i < tiddlers@.len() ==> entries_view(tiddlers@)[i] == (
                    tiddlers@[i].0@,
                    tiddlers@[i].1@,
                ),
        decreases tiddlers@.len() - j,
    {
        if tiddlers[j].0 == *key {
            proof {
                let ev = entries_view(tiddlers@);
                lemma_assoc_index(ev, key@);
                assert(ev[j as int].0 == key@);
                let r = assoc_index(ev, key@);
                if r != j {
                    if r == -1 {
                        assert(ev[j as int].0 != key@);
                    } else if r < j {
                        assert(tiddlers@[r].0@ != key@);
                    } else {
                        assert(ev[j as int].0 != key@);
                    }
                }
            }
            return Some(j);
        }
        j += 1;
    }
    proof {
        lemma_assoc_index(entries_view(tiddlers@), key@);
    }
    None
}

/// What `get` finds immediately after a `put`: exactly the item just
/// stored — the metadata, the text, and the revision the `put` assigned.
pub proof fn lemma_get_after_put(
    entries: Seq<(Seq<char>, TiddlerView)>,
    key: Seq<char>,
    meta: JVal,
    text: Seq<char>,
    rev: nat,
)
    ensures
        assoc_lookup(assoc_store(entries, key, TiddlerView { meta, text, revision: rev }), key)
            == Some(TiddlerView { meta, text, revision: rev }),
{
    crate::json::lemma_lookup_store(entries, key, TiddlerView { meta, text, revision: rev });
}

/// A `put` under one key never moves another key's item revision: the
/// revision the next `put` under `key` will assign is untouched by a `put`
/// under any different key.
pub proof fn lemma_next_rev_frame(
    entries: Seq<(Seq<char>, TiddlerView)>,
    other: Seq<char>,
    t: TiddlerView,
    key: Seq<char>,
)
    requires
        key != other,
    ensures
        spec_next_item_rev(assoc_store(entries, other, t), key) == spec_next_item_rev(
            entries,
            key,
        ),
{
    crate::json::lemma_store_frame(entries, other, t, key);
}

/// After a `put` assigned item revision `rev` under `key`, the next `put`
/// under `key` assigns `rev + 1`: item revisions under one key run 0, 1,
/// 2, ... whatever happens to other keys in between.
pub proof fn lemma_next_rev_after_put(
    entries: Seq<(Seq<char>, TiddlerView)>,
    key: Seq<char>,
    meta: JVal,
    text: Seq<char>,
    rev: nat,
)
    ensures
        spec_next_item_rev(
            assoc_store(entries, key, TiddlerView { meta, text, revision: rev }),
            key,
        ) == rev + 1,
{
    crate::json::lemma_lookup_store(entries, key, TiddlerView { meta, text, revision: rev });
}

/// A `delete` under one key leaves every other key's item alone.
pub proof fn lemma_delete_frame(
    entries: Seq<(Seq<char>, TiddlerView)>,
    other: Seq<char>,
    key: Seq<char>,
)
    requires
        key != other,
    ensures
        assoc_lookup(assoc_del(entries, other), key) == assoc_lookup(entries, key),
{
    crate::json::lemma_del_frame(entries, other, key);
}

/// What every store of revisioned items offers: keyed reads with per-item
/// validation tokens, a listing of metadata, mutations that move the
/// global revision up by exactly one, the revision in token and ordinal
/// form, and the full snapshot as text.
pub trait Store: Sized {
    /// The mathematical model of the store's state.
    spec fn store_view(&self) -> StoreView;

    /// The item under `key`: metadata with the text merged in, and the
    /// item revision as a validation token.
    fn get_tiddler(&self, key: &String) -> (r: Option<(JsonValue, String)>)
        ensures
            match assoc_lookup(self.store_view().entries, key@) {
                None => r is None,
                Some(t) => r matches Some((meta, rev)) && meta@ == spec_set_field(
                    t.meta,
                    "text"@,
                    JVal::Str(t.text),
                ) && rev@ == dec_digits(t.revision),
            },
    ;

    /// The metadata of every item, in store order, as one array.
    fn all_tiddlers(&self) -> (r: JsonValue)
        ensures
            r@ == JVal::Arr(spec_metas(self.store_view().entries)),
    ;

    /// Removes the item under `key` if present; the global revision moves
    /// up by one either way.
    fn delete_tiddler(&mut self, key: &String) -> (r: bool)
        requires
            old(self).store_view().revision < u64::MAX,
        ensures
            final(self).store_view().revision == old(self).store_view().revision + 1,
            final(self).store_view().entries == assoc_del(old(self).store_view().entries, key@),
            r == (assoc_index(old(self).store_view().entries, key@) != -1),
    ;

    /// Stores `meta` and `text` under `key`; the item revision starts at 0
    /// or moves up by one, and the global revision moves up by one.
    fn put_tiddler(&mut self, key: String, meta: JsonValue, text: String) -> (r: u32)
        requires
            old(self).store_view().revision < u64::MAX,
            spec_next_item_rev(old(self).store_view().entries, key@) <= u32::MAX,
        ensures
            final(self).store_view().revision == old(self).store_view().revision + 1,
            r == spec_next_item_rev(old(self).store_view().entries, key@),
            final(self).store_view().entries == assoc_store(
                old(self).store_view().entries,
                key@,
                TiddlerView { meta: meta@, text: text@, revision: r as nat },
            ),
    ;

    /// The global revision as a validation token.
    fn global_revision(&self) -> (r: String)
        ensures
            r@ == dec_digits(self.store_view().revision),
    ;

    /// The global revision as a comparable ordinal.
    fn global_revision_num(&self) -> (r: u64)
        ensures
            r as nat == self.store_view().revision,
    ;

    /// The full snapshot as one JSON document.
    fn to_json_string(&self) -> (r: String)
        ensures
            r@ == crate::codec::ser_snapshot(
                self.store_view().entries,
                self.store_view().revision,
            ),
    ;
}

impl Store for MemoryTiddlersStore {
    open spec fn store_view(&self) -> StoreView {
        self@
    }

    fn get_tiddler(&self, key: &String) -> (r: Option<(JsonValue, String)>) {
        MemoryTiddlersStore::get_tiddler(self, key)
    }

    fn all_tiddlers(&self) -> (r: JsonValue) {
        MemoryTiddlersStore::all_tiddlers(self)
    }

    fn delete_tiddler(&mut self, key: &String) -> (r: bool) {
        MemoryTiddlersStore::delete_tiddler(self, key)
    }

    fn put_tiddler(&mut self, key: String, meta: JsonValue, text: String) -> (r: u32) {
        MemoryTiddlersStore::put_tiddler(self, key, meta, text)
    }

    fn global_revision(&self) -> (r: String) {
        MemoryTiddlersStore::global_revision(self)
    }

    fn global_revision_num(&self) -> (r: u64) {
        MemoryTiddlersStore::global_revision_num(self)
    }

    fn to_json_string(&self) -> (r: String) {
        MemoryTiddlersStore::to_json_string(self)
    }
}

impl MemoryTiddlersStore {
    /// An empty store at global revision 0.
    pub fn new() -> (r: MemoryTiddlersStore)
        ensures
            r@.entries == Seq::<(Seq<char>, TiddlerView)>::empty(),
            r@.revision == 0,
    {
        MemoryTiddlersStore { tiddlers: Vec::new(), revision: 0 }
    }

    /// The item stored under `key`: its metadata with the text body merged
    /// in under the field `text`, and its item revision rendered in decimal
    /// as a cache-validation token. Reads nothing else and changes nothing.
    pub fn get_tiddler(&self, key: &String) -> (r: Option<(JsonValue, String)>)
        ensures
            match assoc_lookup(self@.entries, key@) {
                None => r is None,
                Some(t) => r matches Some((meta, rev)) && meta@ == spec_set_field(
                    t.meta,
                    "text"@,
                    JVal::Str(t.text),
                ) && rev@ == dec_digits(t.revision),
            },
    {
        match find_entry(&self.tiddlers, key) {
            Some(j) => {
                proof {
                    lemma_entries_view(self.tiddlers@);
                    lemma_assoc_index(entries_view(self.tiddlers@), key@);
                }
                let t = &self.tiddlers[j].1;
                let merged = t.meta.clone_val().set_field(
                    "text".to_owned(),
                    JsonValue::Str(t.text.clone()),
                );
                let rev = u64_to_string(t.revision as u64);
                Some((merged, rev))
            },
            None => None,
        }
    }

    /// The item revision currently stored under `key`, if any.
    pub fn item_revision(&self, key: &String) -> (r: Option<u32>)
        ensures
            match assoc_lookup(self@.entries, key@) {
                None => r is None,
                Some(t) => r matches Some(v) && v as nat == t.revision,
            },
    {
        match find_entry(&self.tiddlers, key) {
            Some(j) => {
                proof {
                    lemma_entries_view(self.tiddlers@);
                    lemma_assoc_index(entries_view(self.tiddlers@), key@);
                }
                Some(self.tiddlers[j].1.revision)
            },
            None => None,
        }
    }

    /// The metadata documents of all items, in store order, as one array;
    /// text bodies are not included.
    pub fn all_tiddlers(&self) -> (r: JsonValue)
        ensures
            r@ == JVal::Arr(spec_metas(self@.entries)),
    {
        let mut metas: Vec<JsonValue> = Vec::new();
        let mut j: usize = 0;
        proof {
            lemma_entries_view(self.tiddlers@);
        }
        while j < self.tiddlers.len()
            invariant
                j <= self.tiddlers@.len(),
                metas@.len() == j,
                entries_view(self.tiddlers@).len() == self.tiddlers@.len(),
                forall|i: int|
                    0 <= i < self.tiddlers@.len() ==> entries_view(self.tiddlers@)[i] == (
                        self.tiddlers@[i].0@,
                        self.tiddlers@[i].1@,
                    ),
                forall|i: int|
                    0 <= i < j ==> metas@[i]@ == entries_view(self.tiddlers@)[i].1.meta,
            decreases self.tiddlers@.len() - j,
        {
            metas.push(self.tiddlers[j].1.meta.clone_val());
            j += 1;
        }
        proof {
            crate::json::lemma_view_elems(metas@);
            assert(JsonValue::view_elems(metas@) =~= spec_metas(self@.entries));
        }
        JsonValue::Arr(metas)
    }

    /// Stores `meta` and `text` under `key`: an existing item's revision
    /// moves up by one, a new item starts at revision 0, and the global
    /// revision always moves up by exactly one.
    pub fn put_tiddler(&mut self, key: String, meta: JsonValue, text: String) -> (r: u32)
        requires
            old(self)@.revision < u64::MAX,
            spec_next_item_rev(old(self)@.entries, key@) <= u32::MAX,
        ensures
            final(self)@.revision == old(self)@.revision + 1,
            r == spec_next_item_rev(old(self)@.entries, key@),
            final(self)@.entries == assoc_store(
                old(self)@.entries,
                key@,
                TiddlerView { meta: meta@, text: text@, revision: r as nat },
            ),
    {
        self.revision = self.revision + 1;
        proof {
            lemma_entries_view(self.tiddlers@);
            lemma_assoc_index(entries_view(self.tiddlers@), key@);
        }
        match find_entry(&self.tiddlers, &key) {
            Some(j) => {
                let rev = self.tiddlers[j].1.revision + 1;
                let ghost old_entries = entries_view(self.tiddlers@);
                self.tiddlers.set(j, (key, Tiddler { meta, text, revision: rev }));
                proof {
                    lemma_entries_view(self.tiddlers@);
                    assert(entries_view(self.tiddlers@) =~= assoc_store(
                        old_entries,
                        key@,
                        TiddlerView { meta: meta@, text: text@, revision: rev as nat },
                    ));
                }
                rev
            },
            None => {
                let ghost old_entries = entries_view(self.tiddlers@);
                self.tiddlers.push((key, Tiddler { meta, text, revision: 0 }));
                proof {
                    lemma_entries_view(self.tiddlers@);
                    lemma_entries_view(old(self).tiddlers@);
                    assert(entries_view(self.tiddlers@) =~= assoc_store(
                        old_entries,
                        key@,
                        TiddlerView { meta: meta@, text: text@, revision: 0 },
                    ));
                }
                0
            },
        }
    }

    /// Removes the item under `key` if there is one, reporting whether
    /// something was removed; the global revision moves up by exactly one
    /// whether or not the key existed.
    pub fn delete_tiddler(&mut self, key: &String) -> (r: bool)
        requires
            old(self)@.revision < u64::MAX,
        ensures
            final(self)@.revision == old(self)@.revision + 1,
            final(self)@.entries == assoc_del(old(self)@.entries, key@),
            r == (assoc_index(old(self)@.entries, key@) != -1),
    {
        self.revision = self.revision + 1;
        match find_entry(&self.tiddlers, key) {
            Some(j) => {
                proof {
                    lemma_assoc_index(entries_view(self.tiddlers@), key@);
                }
                let ghost old_entries = entries_view(self.tiddlers@);
                self.tiddlers.remove(j);
                proof {
                    lemma_entries_view(self.tiddlers@);
                    lemma_entries_view(old(self).tiddlers@);
                    assert(entries_view(self.tiddlers@) =~= assoc_del(old_entries, key@));
                }
                true
            },
            None => false,
        }
    }

    /// The global revision, rendered in decimal as the collection-level
    /// cache-validation token.
    pub fn global_revision(&self) -> (r: String)
        ensures
            r@ == dec_digits(self@.revision),
    {
        u64_to_string(self.revision)
    }

    /// The global revision as a comparable ordinal.
    pub fn global_revision_num(&self) -> (r: u64)
        ensures
            r as nat == self@.revision,
    {
        self.revision
    }

    /// The full snapshot — every item and the global revision — as one
    /// JSON document, in the canonical form that `from_json_string` reads
    /// back.
    pub fn to_json_string(&self) -> (r: String)
        ensures
            r@ == crate::codec::ser_snapshot(self@.entries, self@.revision),
    {
        let ghost head = seq![
            '{',
            '"',
            't',
            'i',
            'd',
            'd',
            'l',
            'e',
            'r',
            's',
            '"',
            ':',
            '{',
        ];
        let mut out: Vec<char> = Vec::new();
        out.push('{');
        out.push('"');
        out.push('t');
        out.push('i');
        out.push('d');
        out.push('d');
        out.push('l');
        out.push('e');
        out.push('r');
        out.push('s');
        out.push('"');
        out.push(':');
        out.push('{');
        proof {
            assert(out@ =~= head + crate::codec::ser_entries(
                entries_view(self.tiddlers@.take(0)),
            ));
        }
        let mut j: usize = 0;
        while j < self.tiddlers.len()
            invariant
                j <= self.tiddlers@.len(),
                out@ == head + crate::codec::ser_entries(entries_view(self.tiddlers@.take(j as int))),
            decreases self.tiddlers@.len() - j,
        {
            if j > 0 {
                out.push(',');
            }
            crate::codec::write_qstr(&self.tiddlers[j].0, &mut out);
            out.push(':');
            crate::codec::write_tiddler(&self.tiddlers[j].1, &mut out);
            proof {
                let prev = entries_view(self.tiddlers@.take(j as int));
                let cur = entries_view(self.tiddlers@.take(j + 1));
                assert(self.tiddlers@.take(j + 1).drop_last() =~= self.tiddlers@.take(j as int));
                assert(self.tiddlers@.take(j + 1).last() == self.tiddlers@[j as int]);
                assert(cur == prev.push(
                    (self.tiddlers@[j as int].0@, self.tiddlers@[j as int].1@),
                ));
                lemma_entries_view(self.tiddlers@.take(j as int));
                if j == 0 {
                    assert(cur.len() == 1 && cur[0] == (
                        self.tiddlers@[0].0@,
                        self.tiddlers@[0].1@,
                    ));
                } else {
                    assert(cur.drop_last() =~= prev);
                }
                assert(out@ =~= head + crate::codec::ser_entries(cur));
            }
            j += 1;
        }
        proof {
            assert(self.tiddlers@.take(self.tiddlers@.len() as int) =~= self.tiddlers@);
        }
        out.push('}');
        out.push(',');
        out.push('"');
        out.push('r');
        out.push('e');
        out.push('v');
        out.push('i');
        out.push('s');
        out.push('i');
        out.push('o');
        out.push('n');
        out.push('"');
        out.push(':');
        crate::codec::write_digits(self.revision, &mut out);
        out.push('}');
        proof {
            assert(out@ =~= crate::codec::ser_snapshot(self@.entries, self@.revision));
        }
        chars_to_string(&out)
    }

    /// Reads a snapshot in the form that `to_json_string` writes. Whatever
    /// is accepted is exactly the canonical serialization of the store
    /// returned, with its keys distinct; the snapshot of every item-free
    /// store is proved to be accepted.
    pub fn from_json_string(text: &str) -> (r: Option<MemoryTiddlersStore>)
        ensures
            r matches Some(st) ==> text@ == crate::codec::ser_snapshot(
                st@.entries,
                st@.revision,
            ) && crate::json::distinct_keys(st@.entries),
            forall|n: u64|
                text@ == crate::codec::ser_snapshot(
                    Seq::<(Seq<char>, TiddlerView)>::empty(),
                    n as nat,
                ) ==> r is Some,
    {
        let s = str_to_chars(text);
        let head: Vec<char> = vec!['{', '"', 't', 'i', 'd', 'd', 'l', 'e', 'r', 's', '"', ':', '{'];
        proof {
            assert(head@ =~= seq![
                '{',
                '"',
                't',
                'i',
                'd',
                'd',
                'l',
                'e',
                'r',
                's',
                '"',
                ':',
                '{',
            ]);
            assert forall|n: u64|
                text@ == crate::codec::ser_snapshot(Seq::<(Seq<char>, TiddlerView)>::empty(), n as nat) implies (s@.len() == 27 + dec_digits(n as nat).len()
                && s@.subrange(0, 13) == head@ && s@[13] == '}' && crate::codec::canonical_number_at(
                s@,
                26,
                n,
            )) by {
                crate::codec::lemma_dec_digits_props(n as nat);
                assert(crate::codec::ser_entries(Seq::<(Seq<char>, TiddlerView)>::empty())
                    =~= Seq::<char>::empty());
                let l = dec_digits(n as nat).len() as int;
                assert(s@ =~= seq![
                    '{',
                    '"',
                    't',
                    'i',
                    'd',
                    'd',
                    'l',
                    'e',
                    'r',
                    's',
                    '"',
                    ':',
                    '{',
                    '}',
                    ',',
                    '"',
                    'r',
                    'e',
                    'v',
                    'i',
                    's',
                    'i',
                    'o',
                    'n',
                    '"',
                    ':',
                ] + dec_digits(n as nat) + seq!['}']);
                assert(s@.subrange(0, 13) =~= head@);
                assert(s@.subrange(26, 26 + l) =~= dec_digits(n as nat));
                assert(s@[26 + l] == '}');
                assert(!crate::codec::is_digit('}'));
            }
        }
        let mut cur: usize;
        match expect_chars(&s, 0, &head) {
            Some(e) => {
                cur = e;
            },
            None => {
                proof {
                    assert forall|n: u64| !(text@ == crate::codec::ser_snapshot(Seq::<(Seq<char>, TiddlerView)>::empty(), n as nat)) by {}
                }
                return None;
            },
        }
        let mut tiddlers: Vec<(String, Tiddler)> = Vec::new();
        if cur < s.len() && s[cur] == '}' {
            proof {
                assert(entries_view(tiddlers@) =~= Seq::<(Seq<char>, TiddlerView)>::empty());
                assert(s@.subrange(13, cur as int) =~= crate::codec::ser_entries(
                    entries_view(tiddlers@),
                ));
            }
        } else {
            proof {
                assert forall|n: u64| !(text@ == crate::codec::ser_snapshot(Seq::<(Seq<char>, TiddlerView)>::empty(), n as nat)) by {}
            }
            match parse_entry(&s, cur) {
                None => {
                    return None;
                },
                Some((k, t, j)) => {
                    tiddlers.push((k, t));
                    proof {
                        lemma_entries_view(tiddlers@);
                        assert(entries_view(tiddlers@).len() == 1);
                        assert(s@.subrange(13, j as int) =~= crate::codec::ser_entries(
                            entries_view(tiddlers@),
                        ));
                    }
                    cur = j;
                },
            }
            loop
                invariant
                    forall|n: u64|
                        text@ != crate::codec::ser_snapshot(
                            Seq::<(Seq<char>, TiddlerView)>::empty(),
                            n as nat,
                        ),
                    13 <= cur <= s@.len(),
                    tiddlers@.len() >= 1,
                    s@.subrange(13, cur as int) == crate::codec::ser_entries(
                        entries_view(tiddlers@),
                    ),
                ensures
                    13 <= cur < s@.len(),
                    s@[cur as int] == '}',
                    s@.subrange(13, cur as int) == crate::codec::ser_entries(
                        entries_view(tiddlers@),
                    ),
                decreases s@.len() - cur,
            {
                if cur >= s.len() {
                    return None;
                }
                if s[cur] == '}' {
                    break;
                }
                if s[cur] != ',' {
                    return None;
                }
                match parse_entry(&s, cur + 1) {
                    None => {
                        return None;
                    },
                    Some((k, t, j2)) => {
                        let ghost prev = tiddlers@;
                        tiddlers.push((k, t));
                        proof {
                            let pv = entries_view(prev);
                            let nv = entries_view(tiddlers@);
                            assert(tiddlers@.drop_last() =~= prev);
                            assert(nv == pv.push((k@, t@)));
                            lemma_entries_view(prev);
                            assert(nv.len() >= 2);
                            assert(nv.drop_last() =~= pv);
                            assert(crate::codec::ser_entries(nv) == crate::codec::ser_entries(pv)
                                + seq![','] + crate::codec::ser_str(k@) + seq![':']
                                + crate::codec::ser_tiddler(t@));
                            assert(s@.subrange(13, j2 as int) =~= s@.subrange(13, cur as int)
                                + seq![s@[cur as int]] + s@.subrange(cur + 1, j2 as int));
                            assert(s@.subrange(13, j2 as int) =~= crate::codec::ser_entries(nv));
                        }
                        cur = j2;
                    },
                }
            }
        }
        let tail: Vec<char> = vec![
            '}',
            ',',
            '"',
            'r',
            'e',
            'v',
            'i',
            's',
            'i',
            'o',
            'n',
            '"',
            ':',
        ];
        proof {
            assert(tail@ =~= seq![
                '}',
                ',',
                '"',
                'r',
                'e',
                'v',
                'i',
                's',
                'i',
                'o',
                'n',
                '"',
                ':',
            ]);
        }
        let c2: usize;
        match expect_chars(&s, cur, &tail) {
            Some(e) => {
                c2 = e;
            },
            None => {
                proof {
                    assert forall|n: u64| !(text@ == crate::codec::ser_snapshot(Seq::<(Seq<char>, TiddlerView)>::empty(), n as nat)) by {
                        if text@ == crate::codec::ser_snapshot(Seq::<(Seq<char>, TiddlerView)>::empty(), n as nat) {
                            assert(cur == 13);
                            assert(s@.subrange(13, 26) =~= tail@);
                        }
                    }
                }
                return None;
            },
        }
        match parse_u64(&s, c2) {
            None => {
                proof {
                    assert forall|n: u64| !(text@ == crate::codec::ser_snapshot(Seq::<(Seq<char>, TiddlerView)>::empty(), n as nat)) by {
                        if text@ == crate::codec::ser_snapshot(Seq::<(Seq<char>, TiddlerView)>::empty(), n as nat) {
                            assert(cur == 13 && c2 == 26);
                        }
                    }
                }
                None
            },
            Some((rev, j3)) => {
                proof {
                    assert forall|n: u64|
                        text@ == crate::codec::ser_snapshot(Seq::<(Seq<char>, TiddlerView)>::empty(), n as nat) implies (rev == n && j3 == 26 + dec_digits(
                        n as nat,
                    ).len() && j3 + 1 == s@.len() && s@[j3 as int] == '}') by {
                        if text@ == crate::codec::ser_snapshot(Seq::<(Seq<char>, TiddlerView)>::empty(), n as nat) {
                            assert(cur == 13 && c2 == 26);
                        }
                    }
                }
                if j3 >= s.len() {
                    return None;
                }
                if s[j3] != '}' {
                    return None;
                }
                if j3 + 1 != s.len() {
                    return None;
                }
                let mut a: usize = 1;
                while a < tiddlers.len()
                    invariant
                        forall|n: u64|
                            text@ == crate::codec::ser_snapshot(
                                Seq::<(Seq<char>, TiddlerView)>::empty(),
                                n as nat,
                            ) ==> tiddlers@.len() == 0,
                        1 <= a,
                        a <= tiddlers@.len() || tiddlers@.len() == 0,
                        forall|p: int, q: int|
                            0 <= p < q < a && q < tiddlers@.len() ==> tiddlers@[p].0@
                                != tiddlers@[q].0@,
                    decreases tiddlers@.len() - a,
                {
                    let mut b: usize = 0;
                    while b < a
                        invariant
                            forall|n: u64|
                                text@ == crate::codec::ser_snapshot(
                                    Seq::<(Seq<char>, TiddlerView)>::empty(),
                                    n as nat,
                                ) ==> tiddlers@.len() == 0,
                            b <= a < tiddlers@.len(),
                            forall|p: int, q: int|
                                0 <= p < q < a ==> tiddlers@[p].0@ != tiddlers@[q].0@,
                            forall|p: int|
                                0 <= p < b ==> tiddlers@[p].0@ != tiddlers@[a as int].0@,
                        decreases a - b,
                    {
                        if tiddlers[b].0 == tiddlers[a].0 {
                            return None;
                        }
                        b += 1;
                    }
                    a += 1;
                }
                let st = MemoryTiddlersStore { tiddlers, revision: rev };
                proof {
                    assert(s@ =~= s@.subrange(0, 13) + s@.subrange(13, cur as int) + s@.subrange(
                        cur as int,
                        c2 as int,
                    ) + s@.subrange(c2 as int, j3 as int) + s@.subrange(j3 as int, j3 + 1));
                    assert(s@.subrange(j3 as int, j3 + 1) =~= seq!['}']);
                    assert(text@ =~= crate::codec::ser_snapshot(st@.entries, st@.revision));
                    lemma_entries_view(st.tiddlers@);
                    assert forall|p: int, q: int|
                        0 <= p < q < st@.entries.len() implies st@.entries[p].0
                        != st@.entries[q].0 by {
                        assert(st@.entries[p] == (st.tiddlers@[p].0@, st.tiddlers@[p].1@));
                        assert(st@.entries[q] == (st.tiddlers@[q].0@, st.tiddlers@[q].1@));
                    }
                }
                Some(st)
            },
        }
    }

    /// Replaces the whole store with `candidate` exactly when the
    /// candidate's global revision is strictly newer; otherwise leaves the
    /// store untouched. The sole conflict-resolution rule.
    pub fn replace_if_newer(&mut self, candidate: MemoryTiddlersStore)
        ensures
            candidate@.revision > old(self)@.revision ==> final(self)@ == candidate@,
            candidate@.revision <= old(self)@.revision ==> final(self)@ == old(self)@,
    {
        if candidate.global_revision_num() > self.revision {
            *self = candidate;
        }
    }
}

} // verus!
