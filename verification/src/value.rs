//! The JSON value tree: a closed tagged union over six variants, an
//! insertion-ordered, duplicate-tolerant key/value mapping for objects, and a
//! structural representation of number literals.
use vstd::prelude::*;
use vstd::string::StrSliceExecFns;

verus! {

// ---------------------------------------------------------------------------
// Mathematical model
// ---------------------------------------------------------------------------

/// Ghost model of a decoded number literal: the digits of the integer part,
/// fraction part and exponent part, with the two signs.
pub struct NumberModel {
    pub negative: bool,
    pub int_digits: Seq<u8>,
    pub frac_digits: Seq<u8>,
    pub exp_negative: bool,
    pub exp_digits: Seq<u8>,
}

/// Ghost model of a JSON value tree.
pub enum ValueModel {
    Object(Seq<(Seq<char>, ValueModel)>),
    Array(Seq<ValueModel>),
    String(Seq<char>),
    Boolean(bool),
    Number(NumberModel),
    Null,
}

// ---------------------------------------------------------------------------
// Executable value tree
// ---------------------------------------------------------------------------

/// A decoded number literal, kept in exact positional form: `negative` is the
/// leading minus, `int_digits`/`frac_digits`/`exp_digits` hold digit values
/// (each in `0..=9`), and `exp_negative` is the exponent's sign. An absent
/// fraction or exponent is an empty digit sequence. The floating-point
/// magnitude `(-1)^negative * (int.frac) * 10^(±exp)` is left to the caller,
/// since the tree itself carries no inexact arithmetic.
#[derive(Debug, PartialEq, Clone)]
pub struct JsonNumber {
    pub negative: bool,
    pub int_digits: Vec<u8>,
    pub frac_digits: Vec<u8>,
    pub exp_negative: bool,
    pub exp_digits: Vec<u8>,
}

impl View for JsonNumber {
    type V = NumberModel;

    open spec fn view(&self) -> NumberModel {
        NumberModel {
            negative: self.negative,
            int_digits: self.int_digits@,
            frac_digits: self.frac_digits@,
            exp_negative: self.exp_negative,
            exp_digits: self.exp_digits@,
        }
    }
}

pub type Array = Vec<JsonObject>;

pub type ObjectImpl = Vec<(String, JsonObject)>;

/// An ordered sequence of key/value pairs. Keys need not be unique: duplicate
/// keys are preserved in insertion order, and lookup returns the first match.
#[derive(Debug, PartialEq)]
pub struct Object {
    pub entries: ObjectImpl,
}

/// A parsed JSON value: exactly one of the six JSON variants.
#[derive(Debug, PartialEq)]
pub enum JsonObject {
    Object(Object),
    Array(Array),
    String(String),
    Boolean(bool),
    Number(JsonNumber),
    Null,
}

/// The model of one executable value.
pub open spec fn value_view(v: JsonObject) -> ValueModel
    decreases v,
{
    match v {
        JsonObject::Object(o) => ValueModel::Object(entries_view(o.entries@)),
        JsonObject::Array(a) => ValueModel::Array(values_view(a@)),
        JsonObject::String(s) => ValueModel::String(s@),
        JsonObject::Boolean(b) => ValueModel::Boolean(b),
        JsonObject::Number(n) => ValueModel::Number(n@),
        JsonObject::Null => ValueModel::Null,
    }
}

/// The models of a sequence of executable values, element by element.
pub open spec fn values_view(vs: Seq<JsonObject>) -> Seq<ValueModel>
    decreases vs,
{
    if vs.len() == 0 {
        Seq::empty()
    } else {
        values_view(vs.drop_last()).push(value_view(vs.last()))
    }
}

/// The models of a sequence of executable key/value entries.
pub open spec fn entries_view(es: Seq<(String, JsonObject)>) -> Seq<(Seq<char>, ValueModel)>
    decreases es,
{
    if es.len() == 0 {
        Seq::empty()
    } else {
        entries_view(es.drop_last()).push((es.last().0@, value_view(es.last().1)))
    }
}

impl View for JsonObject {
    type V = ValueModel;

    open spec fn view(&self) -> ValueModel {
        value_view(*self)
    }
}

impl View for Object {
    type V = Seq<(Seq<char>, ValueModel)>;

    open spec fn view(&self) -> Seq<(Seq<char>, ValueModel)> {
        entries_view(self.entries@)
    }
}

/// Element-wise description of `values_view`.
pub broadcast proof fn lemma_values_view(vs: Seq<JsonObject>)
    ensures
        (#[trigger] values_view(vs)).len() == vs.len(),
        forall|i: int| 0 <= i < vs.len() ==> values_view(vs)[i] == value_view(vs[i]),
    decreases vs.len(),
{
    if vs.len() > 0 {
        lemma_values_view(vs.drop_last());
    }
}

/// Element-wise description of `entries_view`.
pub broadcast proof fn lemma_entries_view(es: Seq<(String, JsonObject)>)
    ensures
        (#[trigger] entries_view(es)).len() == es.len(),
        forall|i: int|
            0 <= i < es.len() ==> entries_view(es)[i] == (es[i].0@, value_view(es[i].1)),
    decreases es.len(),
{
    if es.len() > 0 {
        lemma_entries_view(es.drop_last());
    }
}

/// Appending one value extends the sequence view by its model.
pub broadcast proof fn lemma_values_view_push(vs: Seq<JsonObject>, v: JsonObject)
    ensures
        #[trigger] values_view(vs.push(v)) == values_view(vs).push(value_view(v)),
{
    assert(vs.push(v).drop_last() =~= vs);
    assert(vs.push(v).last() == v);
}

/// Appending one entry extends the entry-sequence view by its model.
pub broadcast proof fn lemma_entries_view_push(es: Seq<(String, JsonObject)>, e: (String, JsonObject))
    ensures
        #[trigger] entries_view(es.push(e)) == entries_view(es).push((e.0@, value_view(e.1))),
{
    assert(es.push(e).drop_last() =~= es);
    assert(es.push(e).last() == e);
}

/// Updating one entry updates the entry-sequence view at the same place.
pub proof fn lemma_entries_view_update(es: Seq<(String, JsonObject)>, i: int, e: (String, JsonObject))
    requires
        0 <= i < es.len(),
    ensures
        entries_view(es.update(i, e)) == entries_view(es).update(i, (e.0@, value_view(e.1))),
    decreases es.len(),
{
    lemma_entries_view(es);
    lemma_entries_view(es.update(i, e));
    assert(entries_view(es.update(i, e)) =~= entries_view(es).update(i, (e.0@, value_view(e.1))));
}

/// The index of the first entry whose key equals `key`, or `-1`.
pub open spec fn spec_key_idx(es: Seq<(Seq<char>, ValueModel)>, key: Seq<char>) -> int
    decreases es.len(),
{
    if es.len() == 0 {
        -1
    } else if es[0].0 == key {
        0
    } else {
        let r = spec_key_idx(es.drop_first(), key);
        if r < 0 {
            -1
        } else {
            r + 1
        }
    }
}

/// The value of the first entry whose key equals `key`, if any.
pub open spec fn spec_get(es: Seq<(Seq<char>, ValueModel)>, key: Seq<char>) -> Option<ValueModel> {
    let i = spec_key_idx(es, key);
    if i < 0 {
        None
    } else {
        Some(es[i].1)
    }
}

/// Lookup is first-match: `spec_key_idx` names an index exactly when some
/// entry carries the key, that entry carries it, and no earlier entry does.
/// Entries after it — duplicates included — are never consulted.
pub proof fn lemma_get_first_match(es: Seq<(Seq<char>, ValueModel)>, key: Seq<char>)
    ensures
        spec_key_idx(es, key) == -1 ==> forall|k: int| 0 <= k < es.len() ==> es[k].0 != key,
        spec_key_idx(es, key) >= 0 ==> {
            let i = spec_key_idx(es, key);
            &&& 0 <= i < es.len()
            &&& es[i].0 == key
            &&& forall|k: int| 0 <= k < i ==> es[k].0 != key
            &&& spec_get(es, key) == Some(es[i].1)
        },
    decreases es.len(),
{
    if es.len() > 0 && es[0].0 != key {
        let tail = es.drop_first();
        lemma_get_first_match(tail, key);
        if spec_key_idx(tail, key) == -1 {
            assert forall|k: int| 0 <= k < es.len() implies es[k].0 != key by {
                if k >= 1 {
                    assert(es[k] == tail[k - 1]);
                }
            }
        } else {
            let r = spec_key_idx(tail, key);
            assert(es[r + 1] == tail[r]);
            assert forall|k: int| 0 <= k < r + 1 implies es[k].0 != key by {
                if k >= 1 {
                    assert(es[k] == tail[k - 1]);
                }
            }
        }
    }
}

/// A prefix scan that found no match up to `i`, and a match at `i` if `i` is
/// in range, pins `spec_key_idx` down.
proof fn lemma_key_idx_scan(es: Seq<(Seq<char>, ValueModel)>, key: Seq<char>, i: int)
    requires
        0 <= i <= es.len(),
        forall|k: int| 0 <= k < i ==> es[k].0 != key,
        i < es.len() ==> es[i].0 == key,
    ensures
        i < es.len() ==> spec_key_idx(es, key) == i,
        i == es.len() ==> spec_key_idx(es, key) == -1,
    decreases es.len(),
{
    if es.len() > 0 {
        if i == 0 {
            if i < es.len() {
            } else {
            }
        } else {
            assert(es[0].0 != key);
            assert(forall|k: int|
                0 <= k < i - 1 ==> es.drop_first()[k] == es[k + 1] && es[k + 1].0 != key);
            assert(i - 1 < es.drop_first().len() ==> es.drop_first()[i - 1] == es[i]);
            lemma_key_idx_scan(es.drop_first(), key, i - 1);
        }
    }
}

/// Character-wise string equality.
fn str_eq_str(a: &str, b: &str) -> (r: bool)
    ensures
        r == (a@ == b@),
{
    let na = a.unicode_len();
    let nb = b.unicode_len();
    if na != nb {
        return false;
    }
    let mut i: usize = 0;
    while i < na
        invariant
            i <= na,
            na == a@.len(),
            nb == b@.len(),
            na == nb,
            forall|k: int| 0 <= k < i ==> a@[k] == b@[k],
        decreases na - i,
    {
        if a.get_char(i) != b.get_char(i) {
            return false;
        }
        i = i + 1;
    }
    proof {
        assert(a@ =~= b@);
    }
    true
}

impl Object {
    /// Wraps an entry list as an `Object`, keeping order and duplicates.
    pub fn from_impl(entries: ObjectImpl) -> (o: Object)
        ensures
            o.entries == entries,
            o@ == entries_view(entries@),
    {
        Object { entries }
    }

    /// The index of the first entry whose key equals `index`, if any.
    fn find_key(&self, index: &str) -> (r: Option<usize>)
        ensures
            match r {
                Some(i) => spec_key_idx(self@, index@) == i as int,
                None => spec_key_idx(self@, index@) == -1,
            },
    {
        proof {
            lemma_entries_view(self.entries@);
        }
        let n = self.entries.len();
        let mut i: usize = 0;
        while i < n
            invariant
                i <= n,
                n == self.entries@.len(),
                self@.len() == n,
                forall|k: int| 0 <= k < self@.len() ==> self@[k].0 == self.entries@[k].0@,
                forall|k: int| 0 <= k < i ==> self@[k].0 != index@,
            decreases n - i,
        {
            if str_eq_str(self.entries[i].0.as_str(), index) {
                proof {
                    lemma_key_idx_scan(self@, index@, i as int);
                }
                return Some(i);
            }
            i = i + 1;
        }
        proof {
            lemma_key_idx_scan(self@, index@, n as int);
        }
        None
    }

    /// The value of the first entry whose key equals `index`: a linear scan
    /// that never looks past the first match, so duplicate keys keep their
    /// later entries unread.
    pub fn get(&self, index: &str) -> (r: Option<&JsonObject>)
        ensures
            match r {
                Some(v) => spec_get(self@, index@) == Some(v@),
                None => spec_get(self@, index@) is None,
            },
    {
        proof {
            lemma_entries_view(self.entries@);
            lemma_get_first_match(self@, index@);
        }
        match self.find_key(index) {
            Some(i) => Some(&self.entries[i].1),
            None => None,
        }
    }

    /// Exclusive access to the value of the first entry whose key equals
    /// `index`; every other entry is left untouched.
    pub fn get_mut(&mut self, index: &str) -> (r: Option<&mut JsonObject>)
        ensures
            match r {
                Some(v) => ({
                    let i = spec_key_idx(old(self)@, index@);
                    &&& 0 <= i < old(self)@.len()
                    &&& *v == old(self).entries@[i].1
                    &&& v@ == old(self)@[i].1
                    &&& final(self).entries@ == old(self).entries@.update(
                        i,
                        (old(self).entries@[i].0, *final(v)),
                    )
                    &&& final(self)@ == old(self)@.update(i, (old(self)@[i].0, final(v)@))
                }),
                None => spec_key_idx(old(self)@, index@) == -1 && *final(self) == *old(self),
            },
    {
        proof {
            lemma_entries_view(self.entries@);
            lemma_get_first_match(self@, index@);
        }
        match self.find_key(index) {
            Some(i) => {
                let r = &mut self.entries[i].1;
                proof {
                    lemma_entries_view_update(
                        old(self).entries@,
                        spec_key_idx(old(self)@, index@),
                        (
                            old(self).entries@[spec_key_idx(old(self)@, index@)].0,
                            *final(r),
                        ),
                    );
                }
                Some(r)
            },
            None => None,
        }
    }

    /// The full entry list, in insertion order.
    pub fn entries(&self) -> (r: &ObjectImpl)
        ensures
            r == &self.entries,
            entries_view(r@) == self@,
    {
        &self.entries
    }

    /// Exclusive access to the full entry list.
    pub fn entries_mut(&mut self) -> (r: &mut ObjectImpl)
        ensures
            *r == old(self).entries,
            final(self).entries == *final(r),
    {
        &mut self.entries
    }

    /// The keys, in insertion order, duplicates included.
    pub fn keys(&self) -> (r: Vec<String>)
        ensures
            r@.len() == self@.len(),
            forall|i: int| 0 <= i < self@.len() ==> r@[i]@ == self@[i].0,
    {
        proof {
            lemma_entries_view(self.entries@);
        }
        let n = self.entries.len();
        let mut out: Vec<String> = Vec::new();
        let mut i: usize = 0;
        while i < n
            invariant
                i <= n,
                n == self.entries@.len(),
                self@.len() == n,
                forall|k: int| 0 <= k < self@.len() ==> self@[k].0 == self.entries@[k].0@,
                out@.len() == i,
                forall|k: int| 0 <= k < i ==> out@[k]@ == self@[k].0,
            decreases n - i,
        {
            out.push(self.entries[i].0.clone());
            i = i + 1;
        }
        out
    }

    /// The values, in insertion order.
    pub fn values(&self) -> (r: Vec<&JsonObject>)
        ensures
            r@.len() == self@.len(),
            forall|i: int| 0 <= i < self@.len() ==> r@[i]@ == self@[i].1,
    {
        proof {
            lemma_entries_view(self.entries@);
        }
        let n = self.entries.len();
        let mut out: Vec<&JsonObject> = Vec::new();
        let mut i: usize = 0;
        while i < n
            invariant
                i <= n,
                n == self.entries@.len(),
                self@.len() == n,
                forall|k: int|
                    0 <= k < self@.len() ==> self@[k].1 == value_view(self.entries@[k].1),
                out@.len() == i,
                forall|k: int| 0 <= k < i ==> out@[k]@ == self@[k].1,
            decreases n - i,
        {
            out.push(&self.entries[i].1);
            i = i + 1;
        }
        out
    }
}

impl JsonObject {
    /// A view of the inner object, absent on any other variant.
    pub fn object(&self) -> (r: Option<&Object>)
        ensures
            match r {
                Some(o) => self@ == ValueModel::Object(o@),
                None => !(self@ is Object),
            },
    {
        match self {
            JsonObject::Object(o) => Some(o),
            _ => None,
        }
    }

    /// A view of the inner array, absent on any other variant.
    pub fn array(&self) -> (r: Option<&Array>)
        ensures
            match r {
                Some(a) => self@ == ValueModel::Array(values_view(a@)),
                None => !(self@ is Array),
            },
    {
        match self {
            JsonObject::Array(a) => Some(a),
            _ => None,
        }
    }

    /// A view of the inner truth value, absent on any other variant.
    pub fn boolean(&self) -> (r: Option<&bool>)
        ensures
            match r {
                Some(b) => self@ == ValueModel::Boolean(*b),
                None => !(self@ is Boolean),
            },
    {
        match self {
            JsonObject::Boolean(b) => Some(b),
            _ => None,
        }
    }

    /// A view of the inner number, absent on any other variant.
    pub fn number(&self) -> (r: Option<&JsonNumber>)
        ensures
            match r {
                Some(n) => self@ == ValueModel::Number(n@),
                None => !(self@ is Number),
            },
    {
        match self {
            JsonObject::Number(n) => Some(n),
            _ => None,
        }
    }

    /// A view of the inner string, absent on any other variant.
    pub fn string(&self) -> (r: Option<&String>)
        ensures
            match r {
                Some(s) => self@ == ValueModel::String(s@),
                None => !(self@ is String),
            },
    {
        match self {
            JsonObject::String(s) => Some(s),
            _ => None,
        }
    }

    /// Exclusive access to the inner object, absent on any other variant.
    pub fn object_mut(&mut self) -> (r: Option<&mut Object>)
        ensures
            match r {
                Some(o) => *old(self) == JsonObject::Object(*o) && *final(self)
                    == JsonObject::Object(*final(o)),
                None => !(old(self)@ is Object) && *final(self) == *old(self),
            },
    {
        match self {
            JsonObject::Object(o) => Some(o),
            _ => None,
        }
    }

    /// Exclusive access to the inner array, absent on any other variant.
    pub fn array_mut(&mut self) -> (r: Option<&mut Array>)
        ensures
            match r {
                Some(a) => *old(self) == JsonObject::Array(*a) && *final(self)
                    == JsonObject::Array(*final(a)),
                None => !(old(self)@ is Array) && *final(self) == *old(self),
            },
    {
        match self {
            JsonObject::Array(a) => Some(a),
            _ => None,
        }
    }

    /// Exclusive access to the inner truth value, absent on any other variant.
    pub fn boolean_mut(&mut self) -> (r: Option<&mut bool>)
        ensures
            match r {
                Some(b) => *old(self) == JsonObject::Boolean(*b) && *final(self)
                    == JsonObject::Boolean(*final(b)),
                None => !(old(self)@ is Boolean) && *final(self) == *old(self),
            },
    {
        match self {
            JsonObject::Boolean(b) => Some(b),
            _ => None,
        }
    }

    /// Exclusive access to the inner number, absent on any other variant.
    pub fn number_mut(&mut self) -> (r: Option<&mut JsonNumber>)
        ensures
            match r {
                Some(n) => *old(self) == JsonObject::Number(*n) && *final(self)
                    == JsonObject::Number(*final(n)),
                None => !(old(self)@ is Number) && *final(self) == *old(self),
            },
    {
        match self {
            JsonObject::Number(n) => Some(n),
            _ => None,
        }
    }

    /// Exclusive access to the inner string, absent on any other variant.
    pub fn string_mut(&mut self) -> (r: Option<&mut String>)
        ensures
            match r {
                Some(s) => *old(self) == JsonObject::String(*s) && *final(self)
                    == JsonObject::String(*final(s)),
                None => !(old(self)@ is String) && *final(self) == *old(self),
            },
    {
        match self {
            JsonObject::String(s) => Some(s),
            _ => None,
        }
    }

    /// The inner object taken out of the value, absent on any other variant.
    pub fn into_object(self) -> (r: Option<Object>)
        ensures
            match r {
                Some(o) => self@ == ValueModel::Object(o@),
                None => !(self@ is Object),
            },
    {
        match self {
            JsonObject::Object(o) => Some(o),
            _ => None,
        }
    }

    /// The inner array taken out of the value, absent on any other variant.
    pub fn into_array(self) -> (r: Option<Array>)
        ensures
            match r {
                Some(a) => self@ == ValueModel::Array(values_view(a@)),
                None => !(self@ is Array),
            },
    {
        match self {
            JsonObject::Array(a) => Some(a),
            _ => None,
        }
    }

    /// The inner truth value taken out of the value, absent on any other
    /// variant.
    pub fn into_boolean(self) -> (r: Option<bool>)
        ensures
            match r {
                Some(b) => self@ == ValueModel::Boolean(b),
                None => !(self@ is Boolean),
            },
    {
        match self {
            JsonObject::Boolean(b) => Some(b),
            _ => None,
        }
    }

    /// The inner number taken out of the value, absent on any other variant.
    pub fn into_number(self) -> (r: Option<JsonNumber>)
        ensures
            match r {
                Some(n) => self@ == ValueModel::Number(n@),
                None => !(self@ is Number),
            },
    {
        match self {
            JsonObject::Number(n) => Some(n),
            _ => None,
        }
    }

    /// The inner string taken out of the value, absent on any other variant.
    pub fn into_string(self) -> (r: Option<String>)
        ensures
            match r {
                Some(s) => self@ == ValueModel::String(s@),
                None => !(self@ is String),
            },
    {
        match self {
            JsonObject::String(s) => Some(s),
            _ => None,
        }
    }

    /// True exactly of the `Null` variant.
    pub fn is_null(self) -> (r: bool)
        ensures
            r == (self@ is Null),
    {
        matches!(self, JsonObject::Null)
    }
}

} // verus!
