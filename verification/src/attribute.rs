//! Lookup of a circuit's attribute by a name that need not match the field's
//! name in case and separators.
use vstd::prelude::*;

use crate::json::{
    abs_field_views, abs_json, entries, field_of, find, lemma_abs_of_object, lemma_lookup_abs,
    lemma_lookup_at, lemma_lookup_none, lookup, shown, Json, JsonView,
};
use crate::text::{chars_of, same_text, texts};

verus! {

/// The lowercase form of a text, by Unicode's rules, as `str::to_lowercase`
/// gives it.
pub uninterp spec fn lowercase(text: Seq<char>) -> Seq<char>;

/// The lowercase form of an ASCII letter; any other character as it is.
pub open spec fn ascii_lower(c: char) -> char {
    if 'A' <= c <= 'Z' {
        (c as u8 + 32) as u8 as char
    } else {
        c
    }
}

/// The text with every ASCII letter in lowercase.
pub open spec fn ascii_lowercase(text: Seq<char>) -> Seq<char> {
    text.map_values(|c: char| ascii_lower(c))
}

/// Whether every character of the text is ASCII.
pub open spec fn ascii(text: Seq<char>) -> bool {
    forall|i: int| 0 <= i < text.len() ==> (#[trigger] text[i] as u32) < 128
}

/// `str::to_lowercase`, which gives the lowercase equivalent of a text as a new
/// string: the same result for the same text, and for a text in ASCII the one
/// with the letters `A` to `Z` replaced by `a` to `z`.
pub assume_specification[ str::to_lowercase ](s: &str) -> (r: std::string::String)
    ensures
        r@ == lowercase(s@),
        ascii(s@) ==> r@ == ascii_lowercase(s@),
;

/// Whether the character only separates the parts of a name.
pub open spec fn separator(c: char) -> bool {
    c == '_' || c == '-'
}

/// The text without its separators.
pub open spec fn without_separators(text: Seq<char>) -> Seq<char> {
    text.filter(|c: char| !separator(c))
}

/// The form in which names are compared: in lowercase and without separators.
pub open spec fn normalized(name: Seq<char>) -> Seq<char> {
    without_separators(lowercase(name))
}

/// The form in which names in ASCII are compared.
pub open spec fn ascii_normalized(name: Seq<char>) -> Seq<char> {
    without_separators(ascii_lowercase(name))
}

/// Removes the separators from a text.
pub fn strip_separators(text: &str) -> (r: String)
    ensures
        r@ == without_separators(text@),
{
    let chars = chars_of(text);
    let mut r = String::new();
    let mut i: usize = 0;
    proof {
        assert(without_separators(chars@.take(0)) =~= Seq::<char>::empty()) by {
            reveal(Seq::filter);
        }
    }
    while i < chars.len()
        invariant
            i <= chars.len(),
            r@ == without_separators(chars@.take(i as int)),
        decreases chars.len() - i,
    {
        let c = chars[i];
        proof {
            reveal(Seq::filter);
            assert(chars@.take(i + 1).drop_last() =~= chars@.take(i as int));
            assert(chars@.take(i + 1).last() == c);
        }
        if c != '_' && c != '-' {
            r.push(c);
        }
        i += 1;
    }
    assert(chars@.take(chars@.len() as int) =~= chars@);
    r
}

/// The form in which names are compared.
pub fn normalize(name: &str) -> (r: String)
    ensures
        r@ == normalized(name@),
        ascii(name@) ==> r@ == ascii_normalized(name@),
{
    let lowered = name.to_lowercase();
    strip_separators(lowered.as_str())
}

/// The fields, each under the alias at its place.
pub open spec fn aliased(
    fields: Seq<(Seq<char>, JsonView)>,
    aliases: Seq<Seq<char>>,
) -> Seq<(Seq<char>, JsonView)> {
    Seq::new(fields.len(), |i: int| (aliases[i], fields[i].1))
}

/// The value of the first field whose alias is `alias`.
pub fn find_by_alias<'a>(
    fields: &'a Vec<(String, Json)>,
    aliases: &Vec<String>,
    alias: &str,
) -> (r: Option<&'a Json>)
    requires
        aliases.len() == fields.len(),
    ensures
        shown(r) == lookup(aliased(entries(fields@), texts(aliases@)), alias@),
{
    let ghost named = aliased(entries(fields@), texts(aliases@));
    let mut i: usize = 0;
    while i < fields.len()
        invariant
            i <= fields.len(),
            aliases.len() == fields.len(),
            named == aliased(entries(fields@), texts(aliases@)),
            forall|j: int| 0 <= j < i ==> (#[trigger] named[j]).0 != alias@,
        decreases fields.len() - i,
    {
        if same_text(aliases[i].as_str(), alias) {
            proof {
                lemma_lookup_at(named, alias@, i as int);
            }
            return Some(&fields[i].1);
        }
        i += 1;
    }
    proof {
        lemma_lookup_none(named, alias@);
    }
    None
}

/// The keys of the fields, in the form in which names are compared.
pub open spec fn normalized_keys(fields: Seq<(Seq<char>, JsonView)>) -> Seq<Seq<char>> {
    fields.map_values(|field: (Seq<char>, JsonView)| normalized(field.0))
}

/// The keys of the fields, in the form in which names in ASCII are compared.
pub open spec fn ascii_normalized_keys(fields: Seq<(Seq<char>, JsonView)>) -> Seq<Seq<char>> {
    fields.map_values(|field: (Seq<char>, JsonView)| ascii_normalized(field.0))
}

/// The attribute of an object under the name: the field of exactly this name,
/// or else the first field whose name is the same once both are normalized.
pub open spec fn attribute_of(obj: JsonView, name: Seq<char>) -> Option<JsonView> {
    match obj {
        JsonView::Object(fields) => if lookup(fields, name) is Some {
            lookup(fields, name)
        } else {
            lookup(aliased(fields, normalized_keys(fields)), normalized(name))
        },
        _ => None,
    }
}

/// The attribute of an object under the name, where the name and the names of
/// the fields are in ASCII.
pub open spec fn ascii_attribute_of(obj: JsonView, name: Seq<char>) -> Option<JsonView> {
    match obj {
        JsonView::Object(fields) => if lookup(fields, name) is Some {
            lookup(fields, name)
        } else {
            lookup(aliased(fields, ascii_normalized_keys(fields)), ascii_normalized(name))
        },
        _ => None,
    }
}

/// Whether the name and the names of the object's fields are in ASCII.
pub open spec fn ascii_names(obj: JsonView, name: Seq<char>) -> bool {
    &&& ascii(name)
    &&& obj matches JsonView::Object(fields) ==> forall|i: int|
        0 <= i < fields.len() ==> ascii((#[trigger] fields[i]).0)
}

/// The attribute of an object under a name that may differ from the field's
/// name in case, and in the hyphens and underscores between its parts. A field
/// of exactly the given name comes first.
pub fn get_attribute_resilient<'a>(obj: &'a Json, attr: &str) -> (r: Option<&'a Json>)
    ensures
        shown(r) == attribute_of(obj@, attr@),
        ascii_names(obj@, attr@) ==> shown(r) == ascii_attribute_of(obj@, attr@),
{
    let fields = match obj.as_object() {
        Some(fields) => fields,
        None => return None,
    };
    let exact = find(fields, attr);
    if exact.is_some() {
        return exact;
    }
    let target = normalize(attr);
    let ghost views = entries(fields@);
    let mut aliases: Vec<String> = Vec::new();
    let mut i: usize = 0;
    while i < fields.len()
        invariant
            i <= fields.len(),
            aliases.len() == i,
            views == entries(fields@),
            forall|j: int| 0 <= j < i ==> (#[trigger] aliases@[j])@ == normalized(views[j].0),
            forall|j: int|
                0 <= j < i && ascii((#[trigger] views[j]).0) ==> aliases@[j]@ == ascii_normalized(
                    views[j].0,
                ),
        decreases fields.len() - i,
    {
        aliases.push(normalize(fields[i].0.as_str()));
        i += 1;
    }
    proof {
        assert(texts(aliases@) =~= normalized_keys(views));
        if ascii_names(obj@, attr@) {
            assert(texts(aliases@) =~= ascii_normalized_keys(views));
        }
    }
    find_by_alias(fields, &aliases, target.as_str())
}

/// A field of exactly the given name is the one that is found.
pub proof fn law_exact_name_comes_first(obj: JsonView, name: Seq<char>)
    requires
        field_of(obj, name) is Some,
    ensures
        attribute_of(obj, name) == field_of(obj, name),
        ascii_attribute_of(obj, name) == field_of(obj, name),
{
}

/// Two names that are the same once normalized find the same attribute, unless
/// one of them is exactly the name of a field.
pub proof fn law_names_alike_find_the_same(obj: JsonView, a: Seq<char>, b: Seq<char>)
    requires
        field_of(obj, a) is None,
        field_of(obj, b) is None,
    ensures
        normalized(a) == normalized(b) ==> attribute_of(obj, a) == attribute_of(obj, b),
        ascii_normalized(a) == ascii_normalized(b) ==> ascii_attribute_of(obj, a)
            == ascii_attribute_of(obj, b),
{
}

/// A name finds the field whose name is the same once both are normalized,
/// where no other field of the object has such a name.
pub proof fn law_variant_of_a_name_finds_the_field(
    fields: Seq<(Seq<char>, JsonView)>,
    i: int,
    name: Seq<char>,
)
    requires
        0 <= i < fields.len(),
    ensures
        normalized(name) == normalized(fields[i].0) && (forall|j: int|
            0 <= j < fields.len() && j != i ==> normalized((#[trigger] fields[j]).0) != normalized(
                name,
            )) ==> attribute_of(JsonView::Object(fields), name) == Some(fields[i].1),
        ascii_normalized(name) == ascii_normalized(fields[i].0) && (forall|j: int|
            0 <= j < fields.len() && j != i ==> ascii_normalized((#[trigger] fields[j]).0)
                != ascii_normalized(name)) ==> ascii_attribute_of(JsonView::Object(fields), name)
            == Some(fields[i].1),
{
    if normalized(name) == normalized(fields[i].0) && (forall|j: int|
        0 <= j < fields.len() && j != i ==> normalized((#[trigger] fields[j]).0) != normalized(
            name,
        )) {
        let named = aliased(fields, normalized_keys(fields));
        assert forall|j: int| 0 <= j < i implies (#[trigger] named[j]).0 != normalized(name) by {
            assert(normalized(fields[j].0) != normalized(name));
        }
        lemma_lookup_at(named, normalized(name), i);
        lemma_only_field(fields, i, name);
    }
    if ascii_normalized(name) == ascii_normalized(fields[i].0) && (forall|j: int|
        0 <= j < fields.len() && j != i ==> ascii_normalized((#[trigger] fields[j]).0)
            != ascii_normalized(name)) {
        let named = aliased(fields, ascii_normalized_keys(fields));
        assert forall|j: int| 0 <= j < i implies (#[trigger] named[j]).0 != ascii_normalized(
            name,
        ) by {
            assert(ascii_normalized(fields[j].0) != ascii_normalized(name));
        }
        lemma_lookup_at(named, ascii_normalized(name), i);
        lemma_only_field(fields, i, name);
    }
}

/// Where only the field at `i` can have the name, an exact lookup finds that
/// field or nothing.
proof fn lemma_only_field(fields: Seq<(Seq<char>, JsonView)>, i: int, name: Seq<char>)
    requires
        0 <= i < fields.len(),
        forall|j: int| 0 <= j < fields.len() && j != i ==> (#[trigger] fields[j]).0 != name,
    ensures
        lookup(fields, name) is Some ==> lookup(fields, name) == Some(fields[i].1),
{
    if fields[i].0 == name {
        lemma_lookup_at(fields, name, i);
    } else {
        lemma_lookup_none(fields, name);
    }
}

/// A separator anywhere in a name in ASCII does not count.
pub proof fn law_separators_do_not_count(before: Seq<char>, c: char, after: Seq<char>)
    requires
        separator(c),
    ensures
        ascii_normalized(before + seq![c] + after) == ascii_normalized(before + after),
{
    let keep = |c: char| !separator(c);
    let l = ascii_lowercase(before);
    let m = ascii_lowercase(seq![c]);
    let r = ascii_lowercase(after);
    assert(ascii_lowercase(before + seq![c] + after) =~= l + m + r);
    assert(ascii_lowercase(before + after) =~= l + r);
    Seq::filter_distributes_over_add(l + m, r, keep);
    Seq::filter_distributes_over_add(l, m, keep);
    Seq::filter_distributes_over_add(l, r, keep);
    assert(m =~= seq![c]);
    assert(m.filter(keep) =~= Seq::<char>::empty()) by {
        reveal_with_fuel(Seq::<_>::filter, 2);
        assert(m.drop_last() =~= Seq::<char>::empty());
    }
    assert(without_separators(l + m + r) =~= without_separators(l + r));
}

/// The case of the letters of a name in ASCII does not count.
pub proof fn law_case_does_not_count(name: Seq<char>)
    ensures
        ascii_normalized(ascii_lowercase(name)) == ascii_normalized(name),
{
    assert(ascii_lowercase(ascii_lowercase(name)) =~= ascii_lowercase(name));
}

/// A name finds in a transformed object the transformed value of what it finds
/// in the object itself.
pub proof fn law_abs_of_an_attribute(obj: JsonView, name: Seq<char>)
    ensures
        attribute_of(abs_json(obj), name) == match attribute_of(obj, name) {
            Some(value) => Some(abs_json(value)),
            None => None,
        },
        ascii_attribute_of(abs_json(obj), name) == match ascii_attribute_of(obj, name) {
            Some(value) => Some(abs_json(value)),
            None => None,
        },
{
    if let JsonView::Object(fields) = obj {
        let after = abs_field_views(fields);
        lemma_abs_of_object(fields);
        lemma_lookup_abs(fields, name);
        let named = aliased(fields, normalized_keys(fields));
        assert(aliased(after, normalized_keys(after)) =~= abs_field_views(named));
        lemma_lookup_abs(named, normalized(name));
        let named = aliased(fields, ascii_normalized_keys(fields));
        assert(aliased(after, ascii_normalized_keys(after)) =~= abs_field_views(named));
        lemma_lookup_abs(named, ascii_normalized(name));
    }
}

/// In ASCII, lowercase letters stand 32 places after the capital letters, and
/// every other character is its own lowercase form. A text is lowered character
/// by character.
pub proof fn law_ascii_lowercase(c: char, text: Seq<char>, i: int)
    ensures
        'A' <= c <= 'Z' ==> ascii_lower(c) as int == c as int + 32,
        !('A' <= c <= 'Z') ==> ascii_lower(c) == c,
        ascii_lowercase(text).len() == text.len(),
        0 <= i < text.len() ==> ascii_lowercase(text)[i] == ascii_lower(text[i]),
        ascii(text) && 0 <= i < text.len() ==> (text[i] as u32) < 128,
        !ascii(text) ==> exists|k: int| 0 <= k < text.len() && (#[trigger] text[k]) as u32 >= 128,
{
}

/// Removing the separators goes character by character: hyphens and underscores
/// go, and any other character stays.
pub proof fn law_separators_are_removed(a: Seq<char>, b: Seq<char>, c: char)
    ensures
        without_separators(Seq::empty()) == Seq::<char>::empty(),
        without_separators(seq!['_']) == Seq::<char>::empty(),
        without_separators(seq!['-']) == Seq::<char>::empty(),
        c != '_' && c != '-' ==> without_separators(seq![c]) == seq![c],
        without_separators(a + b) == without_separators(a) + without_separators(b),
{
    let keep = |c: char| !separator(c);
    Seq::filter_distributes_over_add(a, b, keep);
    reveal_with_fuel(Seq::<_>::filter, 2);
    assert(seq!['_'].drop_last() =~= Seq::<char>::empty());
    assert(seq!['-'].drop_last() =~= Seq::<char>::empty());
    assert(seq![c].drop_last() =~= Seq::<char>::empty());
    assert(without_separators(Seq::empty()) =~= Seq::<char>::empty());
    assert(without_separators(seq!['_']) =~= Seq::<char>::empty());
    assert(without_separators(seq!['-']) =~= Seq::<char>::empty());
    if c != '_' && c != '-' {
        assert(without_separators(seq![c]) =~= seq![c]);
    }
}

/// Names are compared in lowercase and without separators: the form for
/// comparison is made from the lowercase form by removing hyphens and underscores
/// and nothing else.
pub proof fn law_normalized_names(name: Seq<char>)
    ensures
        normalized(name) == lowercase(name).filter(|c: char| c != '_' && c != '-'),
        ascii_normalized(name) == ascii_lowercase(name).filter(|c: char| c != '_' && c != '-'),
{
    let given = |c: char| !separator(c);
    let plain = |c: char| c != '_' && c != '-';
    assert(given =~= plain);
}

/// Where no field has exactly the given name, the first field whose name is the
/// same once normalized is found, and where there is no such field, nothing is.
pub proof fn law_first_name_alike_is_found(
    fields: Seq<(Seq<char>, JsonView)>,
    i: int,
    name: Seq<char>,
)
    requires
        field_of(JsonView::Object(fields), name) is None,
    ensures
        0 <= i < fields.len() && normalized(fields[i].0) == normalized(name) && (forall|j: int|
            0 <= j < i ==> normalized((#[trigger] fields[j]).0) != normalized(name))
            ==> attribute_of(JsonView::Object(fields), name) == Some(fields[i].1),
        (forall|j: int|
            0 <= j < fields.len() ==> normalized((#[trigger] fields[j]).0) != normalized(name))
            ==> attribute_of(JsonView::Object(fields), name) is None,
        0 <= i < fields.len() && ascii_normalized(fields[i].0) == ascii_normalized(name) && (
        forall|j: int|
            0 <= j < i ==> ascii_normalized((#[trigger] fields[j]).0) != ascii_normalized(name))
            ==> ascii_attribute_of(JsonView::Object(fields), name) == Some(fields[i].1),
        (forall|j: int|
            0 <= j < fields.len() ==> ascii_normalized((#[trigger] fields[j]).0)
                != ascii_normalized(name)) ==> ascii_attribute_of(JsonView::Object(fields), name)
            is None,
{
    let named = aliased(fields, normalized_keys(fields));
    let target = normalized(name);
    if 0 <= i < fields.len() && normalized(fields[i].0) == target && (forall|j: int|
        0 <= j < i ==> normalized((#[trigger] fields[j]).0) != target) {
        assert forall|j: int| 0 <= j < i implies (#[trigger] named[j]).0 != target by {
            assert(normalized(fields[j].0) != target);
        }
        lemma_lookup_at(named, target, i);
    }
    if forall|j: int| 0 <= j < fields.len() ==> normalized((#[trigger] fields[j]).0) != target {
        assert forall|j: int| 0 <= j < named.len() implies (#[trigger] named[j]).0 != target by {
            assert(normalized(fields[j].0) != target);
        }
        lemma_lookup_none(named, target);
    }
    let named = aliased(fields, ascii_normalized_keys(fields));
    let target = ascii_normalized(name);
    if 0 <= i < fields.len() && ascii_normalized(fields[i].0) == target && (forall|j: int|
        0 <= j < i ==> ascii_normalized((#[trigger] fields[j]).0) != target) {
        assert forall|j: int| 0 <= j < i implies (#[trigger] named[j]).0 != target by {
            assert(ascii_normalized(fields[j].0) != target);
        }
        lemma_lookup_at(named, target, i);
    }
    if forall|j: int|
        0 <= j < fields.len() ==> ascii_normalized((#[trigger] fields[j]).0) != target {
        assert forall|j: int| 0 <= j < named.len() implies (#[trigger] named[j]).0 != target by {
            assert(ascii_normalized(fields[j].0) != target);
        }
        lemma_lookup_none(named, target);
    }
}

/// Only objects have attributes.
pub proof fn law_only_objects_have_attributes(v: JsonView, name: Seq<char>)
    requires
        !(v is Object),
    ensures
        attribute_of(v, name) is None,
        ascii_attribute_of(v, name) is None,
{
}

/// Under its alias stands the value of each field. Names in ASCII are the name
/// that is asked for and those of the fields.
pub proof fn law_aliases_stand_for_fields(
    fields: Seq<(Seq<char>, JsonView)>,
    aliases: Seq<Seq<char>>,
    name: Seq<char>,
    i: int,
)
    ensures
        aliased(fields, aliases).len() == fields.len(),
        0 <= i < fields.len() && i < aliases.len() ==> aliased(fields, aliases)[i] == (
            aliases[i],
            fields[i].1,
        ),
        ascii_names(JsonView::Object(fields), name) <==> ascii(name) && (forall|k: int|
            0 <= k < fields.len() ==> ascii((#[trigger] fields[k]).0)),
{
    let object = JsonView::Object(fields);
    assert(object->Object_0 == fields);
    if ascii_names(object, name) {
        assert forall|k: int| 0 <= k < fields.len() implies ascii((#[trigger] fields[k]).0) by {
            assert(ascii(object->Object_0[k].0));
        }
    }
}

}
