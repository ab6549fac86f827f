//! JSON values as the panel reports them, field lookup, and the
//! transformation that makes every number non-negative.
use vstd::prelude::*;

use crate::text::same_text;

verus! {

/// A JSON number.
///
/// `Float` is an IEEE 754 double taken apart: its sign bit, and the remaining
/// bits read as an integer.
#[derive(Clone, Copy, Debug, PartialEq, Eq, Structural)]
pub enum Number {
    Unsigned(u64),
    Negative(i64),
    Float { negative: bool, magnitude: u64 },
}

/// The least magnitude that no finite double has.
pub const INFINITE_MAGNITUDE: u64 = 0x7ff0_0000_0000_0000;

impl Number {
    /// A `Negative` number is below zero and a `Float` is finite.
    pub open spec fn wf(self) -> bool {
        match self {
            Number::Unsigned(_) => true,
            Number::Negative(n) => n < 0,
            Number::Float { magnitude, .. } => magnitude < INFINITE_MAGNITUDE,
        }
    }

    /// Whether the number is less than zero. Negative zero is not.
    pub open spec fn below_zero(self) -> bool {
        match self {
            Number::Unsigned(_) => false,
            Number::Negative(n) => n < 0,
            Number::Float { negative, magnitude } => negative && magnitude != 0,
        }
    }

    /// The number itself where it is not below zero, else its opposite.
    pub open spec fn spec_abs(self) -> Number {
        if !self.below_zero() {
            self
        } else {
            match self {
                Number::Unsigned(n) => Number::Unsigned(n),
                Number::Negative(n) => Number::Unsigned((-n) as u64),
                Number::Float { magnitude, .. } => Number::Float { negative: false, magnitude },
            }
        }
    }

    /// The absolute value of the number.
    pub fn abs(self) -> (r: Number)
        ensures
            r == self.spec_abs(),
    {
        match self {
            Number::Unsigned(_) => self,
            Number::Negative(n) => if n < 0 {
                Number::Unsigned((-(n + 1)) as u64 + 1)
            } else {
                self
            },
            Number::Float { negative, magnitude } => if negative && magnitude != 0 {
                Number::Float { negative: false, magnitude }
            } else {
                self
            },
        }
    }
}

/// A JSON value. The fields of an object keep the order in which they came.
#[derive(Debug, PartialEq, Eq)]
pub enum Json {
    Null,
    Bool(bool),
    Number(Number),
    String(String),
    Array(Vec<Json>),
    Object(Vec<(String, Json)>),
}

/// What a JSON value holds.
#[verifier::ext_equal]
pub enum JsonView {
    Null,
    Bool(bool),
    Number(Number),
    String(Seq<char>),
    Array(Seq<JsonView>),
    Object(Seq<(Seq<char>, JsonView)>),
}

impl Json {
    /// What this value holds.
    pub open spec fn model(self) -> JsonView
        decreases self,
    {
        match self {
            Json::Null => JsonView::Null,
            Json::Bool(b) => JsonView::Bool(b),
            Json::Number(n) => JsonView::Number(n),
            Json::String(s) => JsonView::String(s@),
            Json::Array(items) => JsonView::Array(
                Seq::new(
                    items@.len(),
                    |i: int|
                        if 0 <= i < items@.len() {
                            items@[i].model()
                        } else {
                            JsonView::Null
                        },
                ),
            ),
            Json::Object(fields) => JsonView::Object(
                Seq::new(
                    fields@.len(),
                    |i: int|
                        if 0 <= i < fields@.len() {
                            (fields@[i].0@, fields@[i].1.model())
                        } else {
                            (Seq::empty(), JsonView::Null)
                        },
                ),
            ),
        }
    }
}

impl View for Json {
    type V = JsonView;

    open spec fn view(&self) -> JsonView {
        self.model()
    }
}

/// What the items of an array hold.
pub open spec fn item_views(items: Seq<Json>) -> Seq<JsonView> {
    items.map_values(|item: Json| item@)
}

/// What the fields of an object, or the entries of any keyed list, hold.
pub open spec fn entries(fields: Seq<(String, Json)>) -> Seq<(Seq<char>, JsonView)> {
    fields.map_values(|field: (String, Json)| (field.0@, field.1@))
}

/// The view of an array is made of the views of its items.
pub proof fn lemma_array_view(items: Vec<Json>)
    ensures
        Json::Array(items)@ == JsonView::Array(item_views(items@)),
{
    assert(Json::Array(items)@->Array_0 =~= item_views(items@));
}

/// The view of an object is made of the views of its fields.
pub proof fn lemma_object_view(fields: Vec<(String, Json)>)
    ensures
        Json::Object(fields)@ == JsonView::Object(entries(fields@)),
{
    assert(Json::Object(fields)@->Object_0 =~= entries(fields@));
}

/// The value of the first field with the key, if there is one.
pub open spec fn lookup(fields: Seq<(Seq<char>, JsonView)>, key: Seq<char>) -> Option<JsonView>
    decreases fields.len(),
{
    if fields.len() == 0 {
        None
    } else if fields[0].0 == key {
        Some(fields[0].1)
    } else {
        lookup(fields.drop_first(), key)
    }
}

/// A lookup finds the field at `i` where no field before it has the key.
pub proof fn lemma_lookup_at(fields: Seq<(Seq<char>, JsonView)>, key: Seq<char>, i: int)
    requires
        0 <= i < fields.len(),
        fields[i].0 == key,
        forall|j: int| 0 <= j < i ==> (#[trigger] fields[j]).0 != key,
    ensures
        lookup(fields, key) == Some(fields[i].1),
    decreases fields.len(),
{
    if i > 0 {
        let rest = fields.drop_first();
        assert(fields[0].0 != key);
        assert forall|j: int| 0 <= j < i - 1 implies (#[trigger] rest[j]).0 != key by {
            assert(fields[j + 1].0 != key);
        }
        lemma_lookup_at(rest, key, i - 1);
    }
}

/// A lookup finds nothing where no field has the key.
pub proof fn lemma_lookup_none(fields: Seq<(Seq<char>, JsonView)>, key: Seq<char>)
    requires
        forall|j: int| 0 <= j < fields.len() ==> (#[trigger] fields[j]).0 != key,
    ensures
        lookup(fields, key) is None,
    decreases fields.len(),
{
    if fields.len() > 0 {
        let rest = fields.drop_first();
        assert forall|j: int| 0 <= j < rest.len() implies (#[trigger] rest[j]).0 != key by {
            assert(fields[j + 1].0 != key);
        }
        lemma_lookup_none(rest, key);
    }
}

/// Whether no two fields have the same key.
pub open spec fn distinct_keys(fields: Seq<(Seq<char>, JsonView)>) -> bool {
    forall|i: int, j: int|
        0 <= i < j < fields.len() ==> (#[trigger] fields[i]).0 != (#[trigger] fields[j]).0
}

/// Whether every number in the value is well-formed and no object in it has a
/// key twice.
pub open spec fn wf_json(v: JsonView) -> bool
    decreases v,
{
    match v {
        JsonView::Number(n) => n.wf(),
        JsonView::Array(items) => forall|i: int|
            0 <= i < items.len() ==> wf_json(#[trigger] items[i]),
        JsonView::Object(fields) => distinct_keys(fields) && forall|i: int|
            0 <= i < fields.len() ==> wf_json((#[trigger] fields[i]).1),
        _ => true,
    }
}

/// In a well-formed object a lookup finds each field under its key.
pub proof fn law_lookup_finds_each_field(fields: Seq<(Seq<char>, JsonView)>, i: int)
    requires
        wf_json(JsonView::Object(fields)),
        0 <= i < fields.len(),
    ensures
        lookup(fields, fields[i].0) == Some(fields[i].1),
{
    lemma_lookup_at(fields, fields[i].0, i);
}

/// The field of an object under the key. Any other value has no fields.
pub open spec fn field_of(v: JsonView, key: Seq<char>) -> Option<JsonView> {
    match v {
        JsonView::Object(fields) => lookup(fields, key),
        _ => None,
    }
}

/// The text of the field, where the field is there and holds a string.
pub open spec fn string_field(v: JsonView, key: Seq<char>) -> Option<Seq<char>> {
    match field_of(v, key) {
        Some(JsonView::String(s)) => Some(s),
        _ => None,
    }
}

/// What an optional value holds.
pub open spec fn shown(v: Option<&Json>) -> Option<JsonView> {
    match v {
        Some(j) => Some(j@),
        None => None,
    }
}

impl Json {
    /// The fields, where the value is an object.
    pub fn as_object(&self) -> (r: Option<&Vec<(String, Json)>>)
        ensures
            r is Some <==> self@ is Object,
            r matches Some(fields) ==> self@ == JsonView::Object(entries(fields@)),
    {
        match self {
            Json::Object(fields) => {
                proof {
                    lemma_object_view(*fields);
                }
                Some(fields)
            },
            _ => None,
        }
    }

    /// The field of an object under the key.
    pub fn get(&self, key: &str) -> (r: Option<&Json>)
        ensures
            shown(r) == field_of(self@, key@),
    {
        match self.as_object() {
            Some(fields) => find(fields, key),
            None => None,
        }
    }
}

/// The value of the first field with the key.
pub fn find<'a>(fields: &'a Vec<(String, Json)>, key: &str) -> (r: Option<&'a Json>)
    ensures
        shown(r) == lookup(entries(fields@), key@),
{
    let mut i: usize = 0;
    while i < fields.len()
        invariant
            i <= fields.len(),
            forall|j: int| 0 <= j < i ==> (#[trigger] entries(fields@)[j]).0 != key@,
        decreases fields.len() - i,
    {
        if same_text(fields[i].0.as_str(), key) {
            proof {
                lemma_lookup_at(entries(fields@), key@, i as int);
            }
            return Some(&fields[i].1);
        }
        i += 1;
    }
    proof {
        lemma_lookup_none(entries(fields@), key@);
    }
    None
}

/// The text of the field, where the field is there and holds a string.
pub fn get_string_field(obj: &Json, field: &str) -> (r: Option<String>)
    ensures
        match r {
            Some(s) => string_field(obj@, field@) == Some(s@),
            None => string_field(obj@, field@) is None,
        },
{
    match obj.get(field) {
        Some(Json::String(s)) => Some(s.clone()),
        _ => None,
    }
}

impl Clone for Json {
    fn clone(&self) -> (r: Self)
        ensures
            r@ == self@,
        decreases self,
    {
        match self {
            Json::Null => Json::Null,
            Json::Bool(b) => Json::Bool(*b),
            Json::Number(n) => Json::Number(*n),
            Json::String(s) => Json::String(s.clone()),
            Json::Array(items) => {
                let mut copies: Vec<Json> = Vec::new();
                let mut i: usize = 0;
                while i < items.len()
                    invariant
                        i <= items.len(),
                        copies@.len() == i,
                        decreases_to!(*self => *items),
                        forall|j: int| 0 <= j < i ==> (#[trigger] copies@[j])@ == items@[j]@,
                    decreases items.len() - i,
                {
                    proof {
                        assert(decreases_to!(*items => items@));
                        assert(decreases_to!(items@ => items@[i as int]));
                    }
                    copies.push(items[i].clone());
                    i += 1;
                }
                proof {
                    assert(item_views(copies@) =~= item_views(items@));
                    lemma_array_view(copies);
                    lemma_array_view(*items);
                }
                Json::Array(copies)
            },
            Json::Object(fields) => {
                let mut copies: Vec<(String, Json)> = Vec::new();
                let mut i: usize = 0;
                while i < fields.len()
                    invariant
                        i <= fields.len(),
                        copies@.len() == i,
                        decreases_to!(*self => *fields),
                        forall|j: int|
                            0 <= j < i ==> (#[trigger] copies@[j]).0 == fields@[j].0
                                && copies@[j].1@ == fields@[j].1@,
                    decreases fields.len() - i,
                {
                    proof {
                        assert(decreases_to!(*fields => fields@));
                        assert(decreases_to!(fields@ => fields@[i as int]));
                        assert(decreases_to!(fields@[i as int] => fields@[i as int].1));
                    }
                    copies.push((fields[i].0.clone(), fields[i].1.clone()));
                    i += 1;
                }
                proof {
                    assert(entries(copies@) =~= entries(fields@));
                    lemma_object_view(copies);
                    lemma_object_view(*fields);
                }
                Json::Object(copies)
            },
        }
    }
}

/// The value with every number in it, at any depth, replaced by its absolute
/// value.
pub open spec fn abs_json(v: JsonView) -> JsonView
    decreases v,
{
    match v {
        JsonView::Number(n) => JsonView::Number(n.spec_abs()),
        JsonView::Array(items) => JsonView::Array(
            Seq::new(
                items.len(),
                |i: int|
                    if 0 <= i < items.len() {
                        abs_json(items[i])
                    } else {
                        JsonView::Null
                    },
            ),
        ),
        JsonView::Object(fields) => JsonView::Object(
            Seq::new(
                fields.len(),
                |i: int|
                    if 0 <= i < fields.len() {
                        (fields[i].0, abs_json(fields[i].1))
                    } else {
                        (Seq::empty(), JsonView::Null)
                    },
            ),
        ),
        _ => v,
    }
}

/// Replaces every number below zero, at any depth, by its absolute value.
pub fn apply_abs(val: &mut Json)
    ensures
        final(val)@ == abs_json(old(val)@),
    decreases *old(val),
{
    match val {
        Json::Number(n) => {
            *n = n.abs();
        },
        Json::Array(items) => {
            abs_items(items);
        },
        Json::Object(fields) => {
            abs_fields(fields);
        },
        _ => {},
    }
    proof {
        match *old(val) {
            Json::Array(_) => {
                assert(val@->Array_0 =~= abs_json(old(val)@)->Array_0);
            },
            Json::Object(_) => {
                assert(val@->Object_0 =~= abs_json(old(val)@)->Object_0);
            },
            _ => {},
        }
    }
}

/// Applies `apply_abs` to each item.
fn abs_items(items: &mut Vec<Json>)
    ensures
        final(items)@.len() == old(items)@.len(),
        forall|i: int|
            0 <= i < old(items)@.len() ==> (#[trigger] final(items)@[i])@ == abs_json(
                old(items)@[i]@,
            ),
    decreases *old(items),
{
    let mut i: usize = 0;
    while i < items.len()
        invariant
            i <= items.len(),
            items@.len() == old(items)@.len(),
            forall|j: int| 0 <= j < i ==> (#[trigger] items@[j])@ == abs_json(old(items)@[j]@),
            forall|j: int| i <= j < items@.len() ==> #[trigger] items@[j] == old(items)@[j],
        decreases items.len() - i,
    {
        proof {
            assert(decreases_to!(*old(items) => old(items)@));
            assert(decreases_to!(old(items)@ => old(items)@[i as int]));
        }
        apply_abs(&mut items[i]);
        i += 1;
    }
}

/// Applies `apply_abs` to the value of each field.
pub fn abs_fields(fields: &mut Vec<(String, Json)>)
    ensures
        entries(final(fields)@) == abs_field_views(entries(old(fields)@)),
        final(fields)@.len() == old(fields)@.len(),
        forall|i: int|
            0 <= i < old(fields)@.len() ==> {
                &&& (#[trigger] final(fields)@[i]).0 == old(fields)@[i].0
                &&& final(fields)@[i].1@ == abs_json(old(fields)@[i].1@)
            },
    decreases *old(fields),
{
    let mut i: usize = 0;
    while i < fields.len()
        invariant
            i <= fields.len(),
            fields@.len() == old(fields)@.len(),
            forall|j: int|
                0 <= j < i ==> {
                    &&& (#[trigger] fields@[j]).0 == old(fields)@[j].0
                    &&& fields@[j].1@ == abs_json(old(fields)@[j].1@)
                },
            forall|j: int| i <= j < fields@.len() ==> #[trigger] fields@[j] == old(fields)@[j],
        decreases fields.len() - i,
    {
        proof {
            assert(decreases_to!(*old(fields) => old(fields)@));
            assert(decreases_to!(old(fields)@ => old(fields)@[i as int]));
            assert(decreases_to!(old(fields)@[i as int] => old(fields)@[i as int].1));
        }
        apply_abs(&mut fields[i].1);
        i += 1;
    }
    assert(entries(fields@) =~= abs_field_views(entries(old(fields)@)));
}

/// Whether no number in the value, at any depth, is below zero.
pub open spec fn nothing_below_zero(v: JsonView) -> bool
    decreases v,
{
    match v {
        JsonView::Number(n) => !n.below_zero(),
        JsonView::Array(items) => forall|i: int|
            0 <= i < items.len() ==> nothing_below_zero(#[trigger] items[i]),
        JsonView::Object(fields) => forall|i: int|
            0 <= i < fields.len() ==> nothing_below_zero((#[trigger] fields[i]).1),
        _ => true,
    }
}

/// After the transformation no number, at any depth, is below zero.
pub proof fn law_abs_leaves_nothing_below_zero(v: JsonView)
    ensures
        nothing_below_zero(abs_json(v)),
    decreases v,
{
    match v {
        JsonView::Array(items) => {
            let r = abs_json(v)->Array_0;
            assert forall|i: int| 0 <= i < r.len() implies nothing_below_zero(#[trigger] r[i]) by {
                law_abs_leaves_nothing_below_zero(items[i]);
            }
        },
        JsonView::Object(fields) => {
            let r = abs_json(v)->Object_0;
            assert forall|i: int| 0 <= i < r.len() implies nothing_below_zero(
                (#[trigger] r[i]).1,
            ) by {
                law_abs_leaves_nothing_below_zero(fields[i].1);
            }
        },
        _ => {},
    }
}

/// A value in which no number is below zero is left as it is.
pub proof fn law_abs_keeps_what_is_not_below_zero(v: JsonView)
    requires
        nothing_below_zero(v),
    ensures
        abs_json(v) == v,
    decreases v,
{
    match v {
        JsonView::Array(items) => {
            assert forall|i: int| 0 <= i < items.len() implies abs_json(#[trigger] items[i])
                == items[i] by {
                law_abs_keeps_what_is_not_below_zero(items[i]);
            }
            assert(abs_json(v)->Array_0 =~= items);
        },
        JsonView::Object(fields) => {
            assert forall|i: int| 0 <= i < fields.len() implies abs_json((#[trigger] fields[i]).1)
                == fields[i].1 by {
                law_abs_keeps_what_is_not_below_zero(fields[i].1);
            }
            assert(abs_json(v)->Object_0 =~= fields);
        },
        _ => {},
    }
}

/// Doing the transformation twice is the same as doing it once.
pub proof fn law_abs_idempotent(v: JsonView)
    ensures
        abs_json(abs_json(v)) == abs_json(v),
{
    law_abs_leaves_nothing_below_zero(v);
    law_abs_keeps_what_is_not_below_zero(abs_json(v));
}

/// The transformation keeps a value well-formed.
pub proof fn law_abs_keeps_wf(v: JsonView)
    requires
        wf_json(v),
    ensures
        wf_json(abs_json(v)),
    decreases v,
{
    match v {
        JsonView::Array(items) => {
            let r = abs_json(v)->Array_0;
            assert forall|i: int| 0 <= i < r.len() implies wf_json(#[trigger] r[i]) by {
                assert(wf_json(items[i]));
                law_abs_keeps_wf(items[i]);
            }
        },
        JsonView::Object(fields) => {
            let r = abs_json(v)->Object_0;
            assert forall|i: int, j: int| 0 <= i < j < r.len() implies (#[trigger] r[i]).0 != (
            #[trigger] r[j]).0 by {
                assert(fields[i].0 != fields[j].0);
            }
            assert forall|i: int| 0 <= i < r.len() implies wf_json((#[trigger] r[i]).1) by {
                assert(wf_json(fields[i].1));
                law_abs_keeps_wf(fields[i].1);
            }
        },
        _ => {},
    }
}

/// The fields with every number in their values replaced by its absolute value.
pub open spec fn abs_field_views(
    fields: Seq<(Seq<char>, JsonView)>,
) -> Seq<(Seq<char>, JsonView)> {
    fields.map_values(|field: (Seq<char>, JsonView)| (field.0, abs_json(field.1)))
}

/// The transformation of an object is that of its fields.
pub proof fn lemma_abs_of_object(fields: Seq<(Seq<char>, JsonView)>)
    ensures
        abs_json(JsonView::Object(fields)) == JsonView::Object(abs_field_views(fields)),
{
    assert(abs_json(JsonView::Object(fields))->Object_0 =~= abs_field_views(fields));
}

/// A lookup among transformed fields finds the transformed value.
pub proof fn lemma_lookup_abs(fields: Seq<(Seq<char>, JsonView)>, key: Seq<char>)
    ensures
        lookup(abs_field_views(fields), key) == match lookup(fields, key) {
            Some(value) => Some(abs_json(value)),
            None => None,
        },
    decreases fields.len(),
{
    if fields.len() > 0 {
        lemma_lookup_abs(fields.drop_first(), key);
        assert(abs_field_views(fields).drop_first() =~= abs_field_views(fields.drop_first()));
    }
}

/// Under each key of a transformed object stands the transformed value of what
/// stood there before.
pub proof fn law_abs_of_a_field(v: JsonView, key: Seq<char>)
    ensures
        field_of(abs_json(v), key) == match field_of(v, key) {
            Some(field) => Some(abs_json(field)),
            None => None,
        },
{
    if let JsonView::Object(fields) = v {
        lemma_abs_of_object(fields);
        lemma_lookup_abs(fields, key);
    }
}

/// Below zero are the negative integers and the floating-point numbers with the
/// sign bit set, except negative zero.
pub proof fn law_what_is_below_zero(u: u64, i: i64, negative: bool, magnitude: u64)
    ensures
        !Number::Unsigned(u).below_zero(),
        Number::Negative(i).below_zero() <==> (i as int) < 0,
        (Number::Float { negative, magnitude }).below_zero() <==> negative && magnitude > 0,
{
}

/// The absolute value of a number keeps its magnitude: a negative integer
/// becomes its opposite, a floating-point number below zero loses its sign bit
/// and nothing else, and every other number is kept.
pub proof fn law_absolute_value_keeps_the_magnitude(
    n: Number,
    u: u64,
    i: i64,
    negative: bool,
    magnitude: u64,
)
    ensures
        Number::Unsigned(u).spec_abs() == Number::Unsigned(u),
        (i as int) < 0 ==> (Number::Negative(i).spec_abs() matches Number::Unsigned(v) && v as int
            == -(i as int)),
        magnitude > 0 ==> (Number::Float { negative, magnitude }).spec_abs() == (Number::Float {
            negative: false,
            magnitude,
        }),
        (Number::Float { negative, magnitude: 0 }).spec_abs() == (Number::Float {
            negative,
            magnitude: 0,
        }),
        !n.below_zero() ==> n.spec_abs() == n,
        n.wf() ==> n.spec_abs().wf(),
{
}

/// What a value holds is what was put into it.
pub proof fn law_view_shows_the_value(
    b: bool,
    n: Number,
    s: String,
    items: Vec<Json>,
    fields: Vec<(String, Json)>,
    i: int,
)
    ensures
        Json::Null@ == JsonView::Null,
        Json::Bool(b)@ == JsonView::Bool(b),
        Json::Number(n)@ == JsonView::Number(n),
        Json::String(s)@ == JsonView::String(s@),
        Json::Array(items)@ == JsonView::Array(item_views(items@)),
        Json::Object(fields)@ == JsonView::Object(entries(fields@)),
        item_views(items@).len() == items@.len(),
        0 <= i < items@.len() ==> item_views(items@)[i] == items@[i]@,
        entries(fields@).len() == fields@.len(),
        0 <= i < fields@.len() ==> entries(fields@)[i] == (fields@[i].0@, fields@[i].1@),
        0 <= i < items@.len() ==> shown(Some(&items@[i])) == Some(items@[i]@),
        shown(None) is None,
{
    lemma_array_view(items);
    lemma_object_view(fields);
}

/// Well-formed are all values but those with an ill-formed number, and those
/// with an object that has a key twice, somewhere in them.
pub proof fn law_what_is_well_formed(
    b: bool,
    n: Number,
    s: Seq<char>,
    items: Seq<JsonView>,
    fields: Seq<(Seq<char>, JsonView)>,
)
    ensures
        wf_json(JsonView::Null),
        wf_json(JsonView::Bool(b)),
        wf_json(JsonView::String(s)),
        wf_json(JsonView::Number(n)) <==> n.wf(),
        wf_json(JsonView::Array(items)) <==> (forall|i: int|
            0 <= i < items.len() ==> wf_json(#[trigger] items[i])),
        wf_json(JsonView::Object(fields)) <==> (forall|i: int|
            0 <= i < fields.len() ==> wf_json((#[trigger] fields[i]).1)) && (forall|
            i: int,
            j: int,
        |
            0 <= i < fields.len() && 0 <= j < fields.len() && (#[trigger] fields[i]).0 == (
            #[trigger] fields[j]).0 ==> i == j),
{
    let array = JsonView::Array(items);
    if wf_json(array) {
        assert forall|i: int| 0 <= i < items.len() implies wf_json(#[trigger] items[i]) by {
            assert(wf_json(array->Array_0[i]));
        }
    }
    if forall|i: int| 0 <= i < items.len() ==> wf_json(#[trigger] items[i]) {
        assert(wf_json(array));
    }
    if wf_json(JsonView::Object(fields)) {
        assert forall|i: int, j: int|
            0 <= i < fields.len() && 0 <= j < fields.len() && (#[trigger] fields[i]).0 == (
            #[trigger] fields[j]).0 implies i == j by {
            if i < j {
                assert(fields[i].0 != fields[j].0);
            } else if j < i {
                assert(fields[j].0 != fields[i].0);
            }
        }
    }
}

/// A lookup finds a value exactly where it is that of a field with the key and
/// no field before that one has the key.
pub proof fn law_lookup_finds_the_first_field(
    fields: Seq<(Seq<char>, JsonView)>,
    key: Seq<char>,
    value: JsonView,
)
    ensures
        lookup(fields, key) == Some(value) <==> exists|i: int|
            0 <= i < fields.len() && #[trigger] fields[i] == (key, value) && forall|j: int|
                0 <= j < i ==> (#[trigger] fields[j]).0 != key,
        lookup(fields, key) is None <==> forall|j: int|
            0 <= j < fields.len() ==> (#[trigger] fields[j]).0 != key,
{
    lemma_lookup_place(fields, key);
    if exists|i: int|
        0 <= i < fields.len() && #[trigger] fields[i] == (key, value) && forall|j: int|
            0 <= j < i ==> (#[trigger] fields[j]).0 != key {
        let i = choose|i: int|
            0 <= i < fields.len() && #[trigger] fields[i] == (key, value) && forall|j: int|
                0 <= j < i ==> (#[trigger] fields[j]).0 != key;
        lemma_lookup_at(fields, key, i);
    }
    if forall|j: int| 0 <= j < fields.len() ==> (#[trigger] fields[j]).0 != key {
        lemma_lookup_none(fields, key);
    }
}

/// What a lookup finds stands in the first field with the key, and where it
/// finds nothing no field has the key.
proof fn lemma_lookup_place(fields: Seq<(Seq<char>, JsonView)>, key: Seq<char>)
    ensures
        lookup(fields, key) matches Some(value) ==> exists|i: int|
            0 <= i < fields.len() && #[trigger] fields[i] == (key, value) && forall|j: int|
                0 <= j < i ==> (#[trigger] fields[j]).0 != key,
        lookup(fields, key) is None ==> forall|j: int|
            0 <= j < fields.len() ==> (#[trigger] fields[j]).0 != key,
    decreases fields.len(),
{
    if fields.len() > 0 && lookup(fields, key) is None {
        let rest = fields.drop_first();
        lemma_lookup_place(rest, key);
        assert forall|j: int| 0 <= j < fields.len() implies (#[trigger] fields[j]).0 != key by {
            if j > 0 {
                assert(rest[j - 1].0 != key);
            }
        }
    }
    if fields.len() > 0 && lookup(fields, key) is Some {
        let value = lookup(fields, key)->0;
        if fields[0].0 == key {
            assert(fields[0] == (key, value));
        } else {
            let rest = fields.drop_first();
            lemma_lookup_place(rest, key);
            let i = choose|i: int|
                0 <= i < rest.len() && #[trigger] rest[i] == (key, value) && forall|j: int|
                    0 <= j < i ==> (#[trigger] rest[j]).0 != key;
            assert(fields[i + 1] == (key, value));
            assert forall|j: int| 0 <= j < i + 1 implies (#[trigger] fields[j]).0 != key by {
                if j > 0 {
                    assert(rest[j - 1].0 != key);
                }
            }
        }
    }
}

/// Only objects have fields, and a field is what a lookup of its key finds. The
/// text of a field is there exactly where the field holds that string.
pub proof fn law_only_objects_have_fields(
    v: JsonView,
    fields: Seq<(Seq<char>, JsonView)>,
    key: Seq<char>,
    s: Seq<char>,
)
    ensures
        field_of(JsonView::Object(fields), key) == lookup(fields, key),
        !(v is Object) ==> field_of(v, key) is None,
        string_field(v, key) == Some(s) <==> field_of(v, key) == Some(JsonView::String(s)),
        string_field(v, key) is None <==> !(field_of(v, key) matches Some(JsonView::String(_))),
{
}

/// The part of a value that is reached by going, step by step, to the item or
/// to the value of the field with the given index.
pub open spec fn part_at(v: JsonView, path: Seq<int>) -> Option<JsonView>
    decreases path.len(),
{
    if path.len() == 0 {
        Some(v)
    } else {
        match v {
            JsonView::Array(items) => if 0 <= path[0] < items.len() {
                part_at(items[path[0]], path.drop_first())
            } else {
                None
            },
            JsonView::Object(fields) => if 0 <= path[0] < fields.len() {
                part_at(fields[path[0]].1, path.drop_first())
            } else {
                None
            },
            _ => None,
        }
    }
}

/// The transformation changes numbers and nothing else, at every depth: in the
/// place of each number stands its absolute value, texts and truth values stay,
/// arrays keep their length, and objects keep their keys.
pub proof fn law_abs_at_every_depth(v: JsonView, path: Seq<int>)
    ensures
        part_at(abs_json(v), path) is Some <==> part_at(v, path) is Some,
        match part_at(v, path) {
            None => true,
            Some(JsonView::Null) => part_at(abs_json(v), path) == Some(JsonView::Null),
            Some(JsonView::Bool(b)) => part_at(abs_json(v), path) == Some(JsonView::Bool(b)),
            Some(JsonView::String(s)) => part_at(abs_json(v), path) == Some(JsonView::String(s)),
            Some(JsonView::Number(n)) => part_at(abs_json(v), path) == Some(
                JsonView::Number(n.spec_abs()),
            ),
            Some(JsonView::Array(items)) => part_at(abs_json(v), path) matches Some(
                JsonView::Array(after),
            ) && after.len() == items.len(),
            Some(JsonView::Object(fields)) => part_at(abs_json(v), path) matches Some(
                JsonView::Object(after),
            ) && after.len() == fields.len() && forall|i: int|
                0 <= i < fields.len() ==> (#[trigger] after[i]).0 == fields[i].0,
        },
    decreases path.len(),
{
    if path.len() > 0 {
        match v {
            JsonView::Array(items) => {
                if 0 <= path[0] < items.len() {
                    law_abs_at_every_depth(items[path[0]], path.drop_first());
                    assert(abs_json(v)->Array_0[path[0]] == abs_json(items[path[0]]));
                }
            },
            JsonView::Object(fields) => {
                if 0 <= path[0] < fields.len() {
                    law_abs_at_every_depth(fields[path[0]].1, path.drop_first());
                    assert(abs_json(v)->Object_0[path[0]].1 == abs_json(fields[path[0]].1));
                }
            },
            _ => {},
        }
    }
}

/// A list of fields is transformed field by field, each under its key.
pub proof fn law_abs_of_a_list_of_fields(fields: Seq<(Seq<char>, JsonView)>, i: int)
    ensures
        abs_field_views(fields).len() == fields.len(),
        0 <= i < fields.len() ==> abs_field_views(fields)[i] == (
            fields[i].0,
            abs_json(fields[i].1),
        ),
{
}

/// In a value without a number below zero, no part is a number below zero.
pub proof fn law_no_part_is_below_zero(v: JsonView, path: Seq<int>, n: Number)
    requires
        nothing_below_zero(v),
        part_at(v, path) == Some(JsonView::Number(n)),
    ensures
        !n.below_zero(),
    decreases path.len(),
{
    if path.len() > 0 {
        match v {
            JsonView::Array(items) => {
                law_no_part_is_below_zero(items[path[0]], path.drop_first(), n);
            },
            JsonView::Object(fields) => {
                law_no_part_is_below_zero(fields[path[0]].1, path.drop_first(), n);
            },
            _ => {},
        }
    }
}

/// Every unsigned number is well-formed, a signed one exactly where it is below
/// zero, and a floating-point one exactly where its magnitude is less than that
/// of the infinities: the bits of the exponent are not all set.
pub proof fn law_which_numbers_are_well_formed(n: u64, i: i64, negative: bool, magnitude: u64)
    ensures
        Number::Unsigned(n).wf(),
        Number::Negative(i).wf() <==> i < 0,
        (Number::Float { negative, magnitude }).wf() <==> magnitude < 0x7ff0_0000_0000_0000,
{
}

}
