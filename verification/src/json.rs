//! JSON values, and the lookups that the rest of the library makes in them.

use crate::text::{copy_text, i64_value, parse_i64, text_eq, to_chars};
use vstd::prelude::*;

verus! {

/// A JSON value. A number is an integer of either kind, or a real number given by its text.
pub enum Json {
    Null,
    Bool(bool),
    Int(i64),
    UInt(u64),
    Real(String),
    Str(String),
    Array(Vec<Json>),
    Object(Vec<(String, Json)>),
}

/// What a JSON value is.
pub ghost enum JsonView {
    Null,
    Bool(bool),
    Number(int),
    Real(Seq<char>),
    Str(Seq<char>),
    Array(Seq<JsonView>),
    Object(Seq<(Seq<char>, JsonView)>),
}

impl Json {
    /// What a JSON value is.
    pub open spec fn view(&self) -> JsonView
        decreases self,
    {
        match self {
            Json::Null => JsonView::Null,
            Json::Bool(b) => JsonView::Bool(*b),
            Json::Int(n) => JsonView::Number(*n as int),
            Json::UInt(n) => JsonView::Number(*n as int),
            Json::Real(text) => JsonView::Real(text@),
            Json::Str(s) => JsonView::Str(s@),
            Json::Array(items) => JsonView::Array(
                Seq::new(
                    items@.len(),
                    |i: int|
                        if 0 <= i < items@.len() {
                            items@[i].view()
                        } else {
                            JsonView::Null
                        },
                ),
            ),
            Json::Object(fields) => JsonView::Object(
                Seq::new(
                    fields@.len(),
                    |i: int|
                        if 0 <= i < fields@.len() {
                            (fields@[i].0@, fields@[i].1.view())
                        } else {
                            (Seq::empty(), JsonView::Null)
                        },
                ),
            ),
        }
    }
}

/// The value under a key, in a list of fields.
pub open spec fn lookup(fields: Seq<(Seq<char>, JsonView)>, key: Seq<char>) -> Option<JsonView>
    decreases fields.len(),
{
    if fields.len() == 0 {
        None
    } else if fields[0].0 == key {
        Some(fields[0].1)
    } else {
        lookup(fields.drop_first(), key)
    }
}

/// The value under a key, where the value is an object that has it.
pub open spec fn field(v: JsonView, key: Seq<char>) -> Option<JsonView> {
    match v {
        JsonView::Object(fields) => lookup(fields, key),
        _ => None,
    }
}

/// The integer that a value is.
pub open spec fn integer(v: JsonView) -> Option<i64> {
    match v {
        JsonView::Number(n) => if i64::MIN <= n <= i64::MAX {
            Some(n as i64)
        } else {
            None
        },
        _ => None,
    }
}

/// The natural number that a value is.
pub open spec fn natural(v: JsonView) -> Option<u64> {
    match v {
        JsonView::Number(n) => if 0 <= n <= u64::MAX {
            Some(n as u64)
        } else {
            None
        },
        _ => None,
    }
}

/// The text that a value is.
pub open spec fn text(v: JsonView) -> Option<Seq<char>> {
    match v {
        JsonView::Str(s) => Some(s),
        _ => None,
    }
}

/// The truth value that a value is.
pub open spec fn truth(v: JsonView) -> Option<bool> {
    match v {
        JsonView::Bool(b) => Some(b),
        _ => None,
    }
}

/// The items of an array.
pub open spec fn items(v: JsonView) -> Option<Seq<JsonView>> {
    match v {
        JsonView::Array(s) => Some(s),
        _ => None,
    }
}

/// The integer under a key.
pub open spec fn integer_at(v: JsonView, key: Seq<char>) -> Option<i64> {
    match field(v, key) {
        Some(x) => integer(x),
        None => None,
    }
}

/// The text under a key.
pub open spec fn text_at(v: JsonView, key: Seq<char>) -> Option<Seq<char>> {
    match field(v, key) {
        Some(x) => text(x),
        None => None,
    }
}

/// The truth value under a key.
pub open spec fn truth_at(v: JsonView, key: Seq<char>) -> Option<bool> {
    match field(v, key) {
        Some(x) => truth(x),
        None => None,
    }
}

/// The array under a key.
pub open spec fn items_at(v: JsonView, key: Seq<char>) -> Option<Seq<JsonView>> {
    match field(v, key) {
        Some(x) => items(x),
        None => None,
    }
}

/// The text under a key, or none of it.
pub open spec fn text_or_empty(v: JsonView, key: Seq<char>) -> Seq<char> {
    match text_at(v, key) {
        Some(s) => s,
        None => Seq::empty(),
    }
}

/// An optional number, with another one where it is absent.
pub open spec fn or_number(v: Option<i64>, other: i64) -> i64 {
    match v {
        Some(n) => n,
        None => other,
    }
}

/// The integer that a value spells: a number, or a text in decimal form.
pub open spec fn loose_integer(v: JsonView) -> Option<i64> {
    match v {
        JsonView::Number(n) => integer(v),
        JsonView::Str(s) => i64_value(s),
        _ => None,
    }
}

/// The loosely spelled integer under a key.
pub open spec fn loose_integer_at(v: JsonView, key: Seq<char>) -> Option<i64> {
    match field(v, key) {
        Some(x) => loose_integer(x),
        None => None,
    }
}

/// The views of an optional reference.
pub open spec fn opt_view(v: Option<&Json>) -> Option<JsonView> {
    match v {
        Some(j) => Some(j@),
        None => None,
    }
}

/// The views of a list of values.
pub open spec fn list_view(v: Seq<Json>) -> Seq<JsonView> {
    Seq::new(v.len(), |i: int| v[i]@)
}

/// The view of an array is the list of the views of its items.
pub proof fn lemma_array_view(v: Vec<Json>)
    ensures
        Json::Array(v)@ == JsonView::Array(list_view(v@)),
{
    let a = Json::Array(v)@;
    assert(a->Array_0 =~= list_view(v@));
}

/// The views of a list of fields.
pub open spec fn fields_view(v: Seq<(String, Json)>) -> Seq<(Seq<char>, JsonView)> {
    Seq::new(v.len(), |i: int| (v[i].0@, v[i].1@))
}

/// The view of an object is the list of the views of its fields.
pub proof fn lemma_object_view(v: Vec<(String, Json)>)
    ensures
        Json::Object(v)@ == JsonView::Object(fields_view(v@)),
{
    let a = Json::Object(v)@;
    assert(a->Object_0 =~= fields_view(v@));
}

/// The value under the key at a place, where no key before it is the same.
pub proof fn lemma_field_at(fields: Seq<(Seq<char>, JsonView)>, n: int)
    requires
        0 <= n < fields.len(),
        forall|k: int| 0 <= k < n ==> (#[trigger] fields[k]).0 != fields[n].0,
    ensures
        field(JsonView::Object(fields), fields[n].0) == Some(fields[n].1),
    decreases n,
{
    if n > 0 {
        let rest = fields.drop_first();
        assert(fields[0].0 != fields[n].0);
        assert forall|k: int| 0 <= k < n - 1 implies (#[trigger] rest[k]).0 != rest[n - 1].0 by {
            assert(rest[k] == fields[k + 1]);
        }
        lemma_field_at(rest, n - 1);
    }
}

/// There is no value under a key that no field has.
pub proof fn lemma_no_field(fields: Seq<(Seq<char>, JsonView)>, key: Seq<char>)
    requires
        forall|k: int| 0 <= k < fields.len() ==> (#[trigger] fields[k]).0 != key,
    ensures
        field(JsonView::Object(fields), key) is None,
    decreases fields.len(),
{
    if fields.len() > 0 {
        let rest = fields.drop_first();
        assert(fields[0].0 != key);
        assert forall|k: int| 0 <= k < rest.len() implies (#[trigger] rest[k]).0 != key by {
            assert(rest[k] == fields[k + 1]);
        }
        lemma_no_field(rest, key);
    }
}

proof fn lemma_lookup_skip(fields: Seq<(Seq<char>, JsonView)>, key: Seq<char>, n: int)
    requires
        0 <= n <= fields.len(),
        forall|k: int| 0 <= k < n ==> fields[k].0 != key,
    ensures
        lookup(fields, key) == lookup(fields.skip(n), key),
    decreases n,
{
    if n > 0 {
        lemma_lookup_skip(fields, key, n - 1);
        let rest = fields.skip(n - 1);
        assert(rest[0] == fields[n - 1]);
        assert(rest.drop_first() =~= fields.skip(n));
    } else {
        assert(fields.skip(0) =~= fields);
    }
}

impl Json {
    /// The value under a key.
    pub fn get(&self, key: &str) -> (r: Option<&Json>)
        ensures
            opt_view(r) == field(self@, key@),
    {
        match self {
            Json::Object(fields) => {
                let ghost all = fields_view(fields@);
                proof {
                    lemma_object_view(*fields);
                }
                let mut i: usize = 0;
                while i < fields.len()
                    invariant
                        i <= fields@.len(),
                        all == fields_view(fields@),
                        self@ == JsonView::Object(all),
                        forall|k: int| 0 <= k < i ==> fields@[k].0@ != key@,
                    decreases fields.len() - i,
                {
                    if text_eq(fields[i].0.as_str(), key) {
                        proof {
                            lemma_lookup_skip(all, key@, i as int);
                            assert(all.skip(i as int)[0] == all[i as int]);
                        }
                        return Some(&fields[i].1);
                    }
                    i += 1;
                }
                proof {
                    lemma_lookup_skip(all, key@, all.len() as int);
                    assert(all.skip(all.len() as int).len() == 0);
                }
                None
            },
            _ => None,
        }
    }

    /// The integer that the value is.
    pub fn as_i64(&self) -> (r: Option<i64>)
        ensures
            r == integer(self@),
    {
        match self {
            Json::Int(n) => Some(*n),
            Json::UInt(n) => if *n <= 0x7fff_ffff_ffff_ffff {
                Some(*n as i64)
            } else {
                None
            },
            _ => None,
        }
    }

    /// The natural number that the value is.
    pub fn as_u64(&self) -> (r: Option<u64>)
        ensures
            r == natural(self@),
    {
        match self {
            Json::Int(n) => if *n >= 0 {
                Some(*n as u64)
            } else {
                None
            },
            Json::UInt(n) => Some(*n),
            _ => None,
        }
    }

    /// The truth value that the value is.
    pub fn as_bool(&self) -> (r: Option<bool>)
        ensures
            r == truth(self@),
    {
        match self {
            Json::Bool(b) => Some(*b),
            _ => None,
        }
    }

    /// The text that the value is.
    pub fn as_str(&self) -> (r: Option<&String>)
        ensures
            match r {
                Some(s) => text(self@) == Some(s@),
                None => text(self@) is None,
            },
    {
        match self {
            Json::Str(s) => Some(s),
            _ => None,
        }
    }

    /// The items of the array that the value is.
    pub fn as_array(&self) -> (r: Option<&Vec<Json>>)
        ensures
            match r {
                Some(v) => items(self@) == Some(list_view(v@)),
                None => items(self@) is None,
            },
    {
        match self {
            Json::Array(v) => {
                proof {
                    lemma_array_view(*v);
                }
                Some(v)
            },
            _ => None,
        }
    }

    /// The integer under a key.
    pub fn get_i64(&self, key: &str) -> (r: Option<i64>)
        ensures
            r == integer_at(self@, key@),
    {
        match self.get(key) {
            Some(v) => v.as_i64(),
            None => None,
        }
    }

    /// The integer under a key, with another one where it is absent.
    pub fn get_i64_or(&self, key: &str, other: i64) -> (r: i64)
        ensures
            r == or_number(integer_at(self@, key@), other),
    {
        match self.get_i64(key) {
            Some(n) => n,
            None => other,
        }
    }

    /// The truth value under a key.
    pub fn get_bool(&self, key: &str) -> (r: Option<bool>)
        ensures
            r == truth_at(self@, key@),
    {
        match self.get(key) {
            Some(v) => v.as_bool(),
            None => None,
        }
    }

    /// A copy of the text under a key.
    pub fn get_text(&self, key: &str) -> (r: Option<String>)
        ensures
            match r {
                Some(s) => text_at(self@, key@) == Some(s@),
                None => text_at(self@, key@) is None,
            },
    {
        match self.get(key) {
            Some(v) => match v.as_str() {
                Some(s) => Some(copy_text(s.as_str())),
                None => None,
            },
            None => None,
        }
    }

    /// A copy of the text under a key, or none of it.
    pub fn get_text_or_empty(&self, key: &str) -> (r: String)
        ensures
            r@ == text_or_empty(self@, key@),
    {
        match self.get_text(key) {
            Some(s) => s,
            None => String::new(),
        }
    }

    /// The array under a key.
    pub fn get_array(&self, key: &str) -> (r: Option<&Vec<Json>>)
        ensures
            match r {
                Some(v) => items_at(self@, key@) == Some(list_view(v@)),
                None => items_at(self@, key@) is None,
            },
    {
        match self.get(key) {
            Some(v) => v.as_array(),
            None => None,
        }
    }

    /// The integer that the value spells.
    pub fn to_i64(&self) -> (r: Option<i64>)
        ensures
            r == loose_integer(self@),
    {
        match self {
            Json::Int(n) => Some(*n),
            Json::UInt(n) => if *n <= 0x7fff_ffff_ffff_ffff {
                Some(*n as i64)
            } else {
                None
            },
            Json::Str(s) => {
                let chars = to_chars(s.as_str());
                parse_i64(chars.as_slice())
            },
            _ => None,
        }
    }

    /// The loosely spelled integer under a key.
    pub fn get_loose_i64(&self, key: &str) -> (r: Option<i64>)
        ensures
            r == loose_integer_at(self@, key@),
    {
        match self.get(key) {
            Some(v) => v.to_i64(),
            None => None,
        }
    }

    /// A copy of the value.
    pub fn copy(&self) -> (r: Json)
        ensures
            r@ == self@,
        decreases self,
    {
        match self {
            Json::Null => Json::Null,
            Json::Bool(b) => Json::Bool(*b),
            Json::Int(n) => Json::Int(*n),
            Json::UInt(n) => Json::UInt(*n),
            Json::Real(text) => Json::Real(copy_text(text.as_str())),
            Json::Str(s) => Json::Str(copy_text(s.as_str())),
            Json::Array(v) => {
                let mut out: Vec<Json> = Vec::new();
                let mut i: usize = 0;
                while i < v.len()
                    invariant
                        i <= v@.len(),
                        out@.len() == i,
                        forall|k: int| 0 <= k < i ==> #[trigger] out@[k]@ == v@[k]@,
                        *self == Json::Array(*v),
                    decreases v.len() - i,
                {
                    assert(decreases_to!(self => self->Array_0));
                    assert(decreases_to!(self->Array_0 => self->Array_0@));
                    assert(decreases_to!(self->Array_0@ => self->Array_0@[i as int]));
                    out.push(v[i].copy());
                    i += 1;
                }
                proof {
                    lemma_array_view(*v);
                    lemma_array_view(out);
                    assert(list_view(out@) =~= list_view(v@));
                }
                Json::Array(out)
            },
            Json::Object(v) => {
                let mut out: Vec<(String, Json)> = Vec::new();
                let mut i: usize = 0;
                while i < v.len()
                    invariant
                        i <= v@.len(),
                        out@.len() == i,
                        forall|k: int|
                            0 <= k < i ==> (#[trigger] out@[k]).0@ == v@[k].0@ && out@[k].1@
                                == v@[k].1@,
                        *self == Json::Object(*v),
                    decreases v.len() - i,
                {
                    assert(decreases_to!(self => self->Object_0));
                    assert(decreases_to!(self->Object_0 => self->Object_0@));
                    assert(decreases_to!(self->Object_0@ => self->Object_0@[i as int]));
                    assert(decreases_to!(self->Object_0@[i as int] => self->Object_0@[i as int].1));
                    let copied = v[i].1.copy();
                    out.push((copy_text(v[i].0.as_str()), copied));
                    i += 1;
                }
                proof {
                    lemma_object_view(*v);
                    lemma_object_view(out);
                    assert(fields_view(out@) =~= fields_view(v@));
                }
                Json::Object(out)
            },
        }
    }
}

// ---------------------------------------------------------------------------
// Changing objects

/// The position of a key in a list of fields, or its length.
pub open spec fn key_index(fields: Seq<(Seq<char>, JsonView)>, key: Seq<char>) -> int
    decreases fields.len(),
{
    if fields.len() == 0 || fields[0].0 == key {
        0
    } else {
        1 + key_index(fields.drop_first(), key)
    }
}

/// The fields with a value under a key: in the place of the old value where there was one,
/// else behind all others.
pub open spec fn fields_with(
    fields: Seq<(Seq<char>, JsonView)>,
    key: Seq<char>,
    value: JsonView,
) -> Seq<(Seq<char>, JsonView)> {
    let at = key_index(fields, key);
    if at < fields.len() {
        fields.update(at, (key, value))
    } else {
        fields.push((key, value))
    }
}

/// The fields without a key.
pub open spec fn fields_without(
    fields: Seq<(Seq<char>, JsonView)>,
    key: Seq<char>,
) -> Seq<(Seq<char>, JsonView)> {
    let at = key_index(fields, key);
    if at < fields.len() {
        fields.remove(at)
    } else {
        fields
    }
}

/// The value with another value under a key. A value that is no object is kept.
pub open spec fn with_field(v: JsonView, key: Seq<char>, value: JsonView) -> JsonView {
    match v {
        JsonView::Object(fields) => JsonView::Object(fields_with(fields, key, value)),
        _ => v,
    }
}

/// The value without a key. A value that is no object is kept.
pub open spec fn without_field(v: JsonView, key: Seq<char>) -> JsonView {
    match v {
        JsonView::Object(fields) => JsonView::Object(fields_without(fields, key)),
        _ => v,
    }
}

/// The position of a key is the first one that holds it.
pub proof fn lemma_key_index(fields: Seq<(Seq<char>, JsonView)>, key: Seq<char>)
    ensures
        0 <= key_index(fields, key) <= fields.len(),
        key_index(fields, key) < fields.len() ==> fields[key_index(fields, key)].0 == key,
        forall|k: int| 0 <= k < key_index(fields, key) ==> (#[trigger] fields[k]).0 != key,
        lookup(fields, key) == (if key_index(fields, key) < fields.len() {
            Some(fields[key_index(fields, key)].1)
        } else {
            None
        }),
    decreases fields.len(),
{
    if fields.len() > 0 && fields[0].0 != key {
        lemma_key_index(fields.drop_first(), key);
        assert forall|k: int| 0 <= k < key_index(fields, key) implies (#[trigger] fields[k]).0
            != key by {
            if k > 0 {
                assert(fields[k] == fields.drop_first()[k - 1]);
            }
        }
    }
}

/// What a value holds under a key is smaller than the value.
pub proof fn lemma_field_smaller(v: JsonView, key: Seq<char>)
    requires
        field(v, key) is Some,
    ensures
        decreases_to!(v => field(v, key)->0),
{
    let fields = v->Object_0;
    let at = key_index(fields, key);
    lemma_key_index(fields, key);
    assert(decreases_to!(v => v->Object_0));
    assert(decreases_to!(fields => fields[at]));
    assert(decreases_to!(fields[at] => fields[at].1));
}

/// The position of a key is determined by what stands before it.
proof fn lemma_key_index_unique(fields: Seq<(Seq<char>, JsonView)>, key: Seq<char>, at: int)
    requires
        0 <= at <= fields.len(),
        at < fields.len() ==> fields[at].0 == key,
        forall|k: int| 0 <= k < at ==> (#[trigger] fields[k]).0 != key,
    ensures
        key_index(fields, key) == at,
{
    lemma_key_index(fields, key);
}

/// What was put under a key is found there, and every other key keeps its value.
pub proof fn law_field_update(v: JsonView, key: Seq<char>, value: JsonView, other: Seq<char>)
    requires
        v is Object,
        other != key,
    ensures
        field(with_field(v, key, value), key) == Some(value),
        field(with_field(v, key, value), other) == field(v, other),
{
    let fields = v->Object_0;
    let changed = fields_with(fields, key, value);
    lemma_key_index(fields, key);
    lemma_key_index(fields, other);
    let at = key_index(fields, key);
    assert forall|k: int| 0 <= k < at implies (#[trigger] changed[k]).0 != key by {
        assert(changed[k] == fields[k]);
    }
    lemma_key_index_unique(changed, key, at);
    lemma_key_index(changed, key);
    let o = key_index(fields, other);
    lemma_key_index(changed, other);
    if o < fields.len() {
        assert forall|k: int| 0 <= k < o implies (#[trigger] changed[k]).0 != other by {
            assert(fields[k].0 != other);
        }
        lemma_key_index_unique(changed, other, o);
    } else {
        assert forall|k: int| 0 <= k < changed.len() implies (#[trigger] changed[k]).0
            != other by {
            if k < fields.len() {
                assert(fields[k].0 != other);
            }
        }
        lemma_key_index_unique(changed, other, changed.len() as int);
    }
}

/// What was taken out is not found where it stood once only, and every other key keeps its
/// value.
pub proof fn law_field_removal(v: JsonView, key: Seq<char>, other: Seq<char>)
    requires
        v is Object,
        other != key,
    ensures
        field(without_field(v, key), other) == field(v, other),
        without_field(v, key) is Object,
{
    let fields = v->Object_0;
    let changed = fields_without(fields, key);
    lemma_key_index(fields, key);
    lemma_key_index(fields, other);
    lemma_key_index(changed, other);
    let at = key_index(fields, key);
    let o = key_index(fields, other);
    if at < fields.len() {
        let p = if o < at {
            o
        } else {
            o - 1
        };
        assert forall|k: int| 0 <= k < p implies (#[trigger] changed[k]).0 != other by {
            if k < at {
                assert(changed[k] == fields[k]);
            } else {
                assert(changed[k] == fields[k + 1]);
            }
        }
        if o < fields.len() {
            assert(o != at);
            assert(changed[p] == fields[o]);
        }
        lemma_key_index_unique(changed, other, p);
    }
}

impl Json {
    /// Puts a value under a key; a value that is no object stays as it is.
    pub fn set(&mut self, key: &str, value: Json)
        ensures
            final(self)@ == with_field(old(self)@, key@, value@),
    {
        match self {
            Json::Object(fields) => {
                let ghost all = fields_view(fields@);
                proof {
                    lemma_object_view(*fields);
                    lemma_key_index(all, key@);
                }
                let mut i: usize = 0;
                while i < fields.len()
                    invariant
                        i <= fields@.len(),
                        all == fields_view(fields@),
                        forall|k: int| 0 <= k < i ==> (#[trigger] all[k]).0 != key@,
                        0 <= key_index(all, key@) <= all.len(),
                        key_index(all, key@) < all.len() ==> all[key_index(all, key@)].0 == key@,
                        forall|k: int|
                            0 <= k < key_index(all, key@) ==> (#[trigger] all[k]).0 != key@,
                    ensures
                        i == key_index(all, key@),
                    decreases fields.len() - i,
                {
                    if text_eq(fields[i].0.as_str(), key) {
                        assert(all[i as int].0 == key@);
                        break ;
                    }
                    assert(all[i as int].0 != key@);
                    i += 1;
                }
                if i < fields.len() {
                    fields.set(i, (copy_text(key), value));
                    assert(fields_view(fields@) =~= fields_with(all, key@, value@));
                } else {
                    fields.push((copy_text(key), value));
                    assert(fields_view(fields@) =~= fields_with(all, key@, value@));
                }
                proof {
                    lemma_object_view(*fields);
                }
            },
            _ => {},
        }
    }

    /// Takes a key out; a value that is no object stays as it is.
    pub fn unset(&mut self, key: &str)
        ensures
            final(self)@ == without_field(old(self)@, key@),
    {
        match self {
            Json::Object(fields) => {
                let ghost all = fields_view(fields@);
                proof {
                    lemma_object_view(*fields);
                    lemma_key_index(all, key@);
                }
                let mut i: usize = 0;
                while i < fields.len()
                    invariant
                        i <= fields@.len(),
                        all == fields_view(fields@),
                        forall|k: int| 0 <= k < i ==> (#[trigger] all[k]).0 != key@,
                        0 <= key_index(all, key@) <= all.len(),
                        key_index(all, key@) < all.len() ==> all[key_index(all, key@)].0 == key@,
                        forall|k: int|
                            0 <= k < key_index(all, key@) ==> (#[trigger] all[k]).0 != key@,
                    ensures
                        i == key_index(all, key@),
                    decreases fields.len() - i,
                {
                    if text_eq(fields[i].0.as_str(), key) {
                        assert(all[i as int].0 == key@);
                        break ;
                    }
                    assert(all[i as int].0 != key@);
                    i += 1;
                }
                if i < fields.len() {
                    fields.remove(i);
                }
                assert(fields_view(fields@) =~= fields_without(all, key@));
                proof {
                    lemma_object_view(*fields);
                }
            },
            _ => {},
        }
    }
}

/// A number is an integer where it fits, and a natural number where it is none below zero; nothing
/// else is either.
pub proof fn law_numbers_read(n: int, s: Seq<char>)
    ensures
        i64::MIN <= n <= i64::MAX ==> integer(JsonView::Number(n)) == Some(n as i64),
        n < i64::MIN || n > i64::MAX ==> integer(JsonView::Number(n)) is None,
        0 <= n <= u64::MAX ==> natural(JsonView::Number(n)) == Some(n as u64),
        n < 0 || n > u64::MAX ==> natural(JsonView::Number(n)) is None,
        integer(JsonView::Str(s)) is None,
        natural(JsonView::Str(s)) is None,
        i64::MIN <= n <= i64::MAX ==> loose_integer(JsonView::Number(n)) == Some(n as i64),
        loose_integer(JsonView::Str(s)) == i64_value(s),
{
}

} // verus!
