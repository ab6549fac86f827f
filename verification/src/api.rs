//! The panel's circuits interface: its address, the authorization that goes
//! with a request, and the circuits in an answer.
use vstd::prelude::*;
use vstd::utf8::{encode_scalar, encode_utf8};

use crate::json::{
    distinct_keys, entries, field_of, lemma_lookup_at, lemma_lookup_none, lookup, Json, JsonView,
};
use crate::select::circuit_views;
use crate::table::Table;
use crate::text::{decimal, decimal_text};

verus! {

/// The value of an HTTP header.
#[verifier::external_type_specification]
#[verifier::external_body]
pub struct ExHeaderValue(reqwest::header::HeaderValue);

/// The refusal of a text as the value of an HTTP header.
#[verifier::external_type_specification]
#[verifier::external_body]
pub struct ExInvalidHeaderValue(reqwest::header::InvalidHeaderValue);

/// The bytes that the value of a header holds.
pub uninterp spec fn header_bytes(value: reqwest::header::HeaderValue) -> Seq<u8>;

/// Whether the value of a header may hold the byte: any but the control
/// characters, of which only the tab is allowed.
pub open spec fn header_byte(b: u8) -> bool {
    b >= 32 && b != 127 || b == 9
}

/// `HeaderValue::from_str`, which takes a text as the value of a header. It
/// refuses the text exactly if a byte of its UTF-8 form is a control character
/// other than the tab; otherwise the value holds the bytes of that form.
pub assume_specification[ reqwest::header::HeaderValue::from_str ](src: &str) -> (r: Result<
    reqwest::header::HeaderValue,
    reqwest::header::InvalidHeaderValue,
>)
    ensures
        r is Ok <==> (forall|i: int|
            0 <= i < encode_utf8(src@).len() ==> header_byte(#[trigger] encode_utf8(src@)[i])),
        r matches Ok(value) ==> header_bytes(value) == encode_utf8(src@),
;

/// Whether the value of a header may hold the character.
pub open spec fn header_char(c: char) -> bool {
    c >= ' ' && c != '\x7f' || c == '\t'
}

/// Whether the value of a header may hold the text.
pub open spec fn header_text(text: Seq<char>) -> bool {
    forall|i: int| 0 <= i < text.len() ==> header_char(#[trigger] text[i])
}

/// A byte with its highest bit set is 128 or more.
proof fn lemma_high_bytes(x: u8)
    by (bit_vector)
    ensures
        0x80u8 | x >= 128,
        0xC0u8 | x >= 128,
        0xE0u8 | x >= 128,
        0xF0u8 | x >= 128,
{
}

/// The UTF-8 form of a character is allowed where the character is.
proof fn lemma_header_char(c: char)
    ensures
        header_char(c) <==> (forall|i: int|
            0 <= i < encode_scalar(c as u32).len() ==> header_byte(
                #[trigger] encode_scalar(c as u32)[i],
            )),
{
    let scalar = c as u32;
    let bytes = encode_scalar(scalar);
    if scalar < 0x80 {
        assert(scalar & 0x7F == scalar) by (bit_vector)
            requires
                scalar < 0x80,
        ;
        assert(bytes =~= seq![scalar as u8]);
        assert(bytes[0] == scalar as u8);
    } else {
        assert forall|i: int| 0 <= i < bytes.len() implies header_byte(#[trigger] bytes[i]) by {
            lemma_high_bytes((scalar & 0x3F) as u8);
            lemma_high_bytes(((scalar >> 6) & 0x3F) as u8);
            lemma_high_bytes(((scalar >> 12) & 0x3F) as u8);
            lemma_high_bytes(((scalar >> 6) & 0x1F) as u8);
            lemma_high_bytes(((scalar >> 12) & 0x0F) as u8);
            lemma_high_bytes(((scalar >> 18) & 0x7) as u8);
        }
    }
}

/// The UTF-8 form of a text is allowed where the text is.
proof fn lemma_header_text(text: Seq<char>)
    ensures
        header_text(text) <==> (forall|i: int|
            0 <= i < encode_utf8(text).len() ==> header_byte(#[trigger] encode_utf8(text)[i])),
    decreases text.len(),
{
    if text.len() > 0 {
        let first = encode_scalar(text[0] as u32);
        let rest = encode_utf8(text.drop_first());
        let bytes = encode_utf8(text);
        assert(bytes == first + rest);
        lemma_header_char(text[0]);
        lemma_header_text(text.drop_first());
        if header_text(text) {
            assert forall|i: int| 0 <= i < text.drop_first().len() implies header_char(
                #[trigger] text.drop_first()[i],
            ) by {
                assert(header_char(text[i + 1]));
            }
            assert(header_char(text[0]));
            assert forall|i: int| 0 <= i < bytes.len() implies header_byte(#[trigger] bytes[i]) by {
                if i < first.len() {
                    assert(header_byte(first[i]));
                } else {
                    assert(header_byte(rest[i - first.len()]));
                }
            }
        }
        if forall|i: int| 0 <= i < bytes.len() ==> header_byte(#[trigger] bytes[i]) {
            assert forall|i: int| 0 <= i < first.len() implies header_byte(#[trigger] first[i]) by {
                assert(header_byte(bytes[i]));
            }
            assert forall|i: int| 0 <= i < rest.len() implies header_byte(#[trigger] rest[i]) by {
                assert(header_byte(bytes[first.len() + i]));
            }
            assert forall|i: int| 0 <= i < text.len() implies header_char(#[trigger] text[i]) by {
                if i > 0 {
                    assert(header_char(text.drop_first()[i - 1]));
                }
            }
        }
    }
}

/// The bearer token cannot go into an HTTP header.
#[derive(Clone, Copy, Debug, PartialEq, Eq, Structural)]
pub struct InvalidToken;

/// The text of the authorization with a bearer token.
pub open spec fn bearer(token: Seq<char>) -> Seq<char> {
    "Bearer "@ + token
}

/// The value of the authorization header of a request, if there is a token. A
/// token with a control character other than the tab is refused.
pub fn authorization(token: Option<&str>) -> (r: Result<
    Option<reqwest::header::HeaderValue>,
    InvalidToken,
>)
    ensures
        match token {
            None => r == Ok::<Option<reqwest::header::HeaderValue>, InvalidToken>(None),
            Some(t) => {
                &&& r is Ok <==> header_text(t@)
                &&& r is Ok ==> r->Ok_0 is Some && header_bytes(r->Ok_0->0) == encode_utf8(
                    bearer(t@),
                )
            },
        },
{
    match token {
        None => Ok(None),
        Some(t) => {
            let mut text = "Bearer ".to_owned();
            text.append(t);
            proof {
                reveal_strlit("Bearer ");
                let prefix = "Bearer "@;
                assert(text@ == bearer(t@));
                assert forall|i: int| 0 <= i < prefix.len() implies header_char(
                    #[trigger] prefix[i],
                ) by {}
                assert(header_text(text@) <==> header_text(t@)) by {
                    if header_text(text@) {
                        assert forall|i: int| 0 <= i < t@.len() implies header_char(
                            #[trigger] t@[i],
                        ) by {
                            assert(header_char(text@[prefix.len() + i]));
                        }
                    }
                }
                lemma_header_text(text@);
            }
            match reqwest::header::HeaderValue::from_str(text.as_str()) {
                Ok(value) => Ok(Some(value)),
                Err(_) => Err(InvalidToken),
            }
        },
    }
}

/// The address of the circuits interface of a panel.
pub open spec fn url_of(host: Seq<char>, port: Option<u16>, use_tls: bool) -> Seq<char> {
    let scheme = if use_tls {
        "https"@
    } else {
        "http"@
    };
    let authority = match port {
        Some(p) => host + ":"@ + decimal(p as nat),
        None => host,
    };
    scheme + "://"@ + authority + "/api/v1/circuits"@
}

/// The address of the circuits interface of a panel.
pub fn circuits_url(host: &str, port: Option<u16>, use_tls: bool) -> (r: String)
    ensures
        r@ == url_of(host@, port, use_tls),
{
    let mut r = if use_tls {
        "https".to_owned()
    } else {
        "http".to_owned()
    };
    r.append("://");
    r.append(host);
    if let Some(p) = port {
        r.append(":");
        r.append(decimal_text(p as u64).as_str());
    }
    r.append("/api/v1/circuits");
    assert(r@ =~= url_of(host@, port, use_tls));
    r
}

/// The answer of the panel holds no circuits where they are expected.
#[derive(Clone, Copy, Debug, PartialEq, Eq, Structural)]
pub struct UnexpectedStructure;

impl UnexpectedStructure {
    /// The error in words.
    pub fn message(&self) -> (r: String)
        ensures
            r@ == "Unexpected JSON structure: expected a JSON object from the SPAN API"@,
    {
        "Unexpected JSON structure: expected a JSON object from the SPAN API".to_owned()
    }
}

/// The circuits in an answer: the object under `circuits`, or else the object
/// under `spaces`, or else the answer itself, where it is an object.
pub open spec fn circuits_in(root: JsonView) -> Option<Seq<(Seq<char>, JsonView)>> {
    match field_of(root, "circuits"@) {
        Some(JsonView::Object(fields)) => Some(fields),
        _ => match field_of(root, "spaces"@) {
            Some(JsonView::Object(fields)) => Some(fields),
            _ => match root {
                JsonView::Object(fields) => Some(fields),
                _ => None,
            },
        },
    }
}

/// The fields as a map. Of several fields with one key the last one counts.
pub open spec fn collected(fields: Seq<(Seq<char>, JsonView)>) -> Map<Seq<char>, JsonView>
    decreases fields.len(),
{
    if fields.len() == 0 {
        Map::empty()
    } else {
        collected(fields.drop_last()).insert(fields.last().0, fields.last().1)
    }
}

/// Collects fields into a table.
fn collect(fields: &Vec<(String, Json)>) -> (r: Table<Json>)
    ensures
        circuit_views(r@) == collected(entries(fields@)),
{
    let mut r: Table<Json> = Table::new();
    let ghost all = entries(fields@);
    let mut i: usize = 0;
    assert(circuit_views(r@) =~= collected(all.take(0)));
    while i < fields.len()
        invariant
            i <= fields.len(),
            all == entries(fields@),
            circuit_views(r@) == collected(all.take(i as int)),
        decreases fields.len() - i,
    {
        let ghost before = r@;
        let copy = fields[i].1.clone();
        proof {
            assert(all.take(i + 1).drop_last() =~= all.take(i as int));
            assert(all.take(i + 1).last() == (fields@[i as int].0@, copy@));
        }
        r.insert(fields[i].0.clone(), copy);
        proof {
            assert(circuit_views(r@) =~= circuit_views(before).insert(
                fields@[i as int].0@,
                copy@,
            ));
        }
        i += 1;
    }
    assert(all.take(all.len() as int) =~= all);
    r
}

/// The circuits in an answer of the panel, by their identifiers.
pub fn circuits_of(root: &Json) -> (r: Result<Table<Json>, UnexpectedStructure>)
    ensures
        match r {
            Ok(circuits) => {
                &&& circuits_in(root@) is Some
                &&& circuit_views(circuits@) == collected(circuits_in(root@)->0)
            },
            Err(_) => circuits_in(root@) is None,
        },
{
    if let Some(nested) = root.get("circuits") {
        if let Some(fields) = nested.as_object() {
            return Ok(collect(fields));
        }
    }
    if let Some(nested) = root.get("spaces") {
        if let Some(fields) = nested.as_object() {
            return Ok(collect(fields));
        }
    }
    match root.as_object() {
        Some(fields) => Ok(collect(fields)),
        None => Err(UnexpectedStructure),
    }
}

/// Collecting fields with different keys keeps each field: the map holds under
/// each key what a lookup finds.
pub proof fn law_collected_keeps_each_field(
    fields: Seq<(Seq<char>, JsonView)>,
    key: Seq<char>,
)
    requires
        distinct_keys(fields),
    ensures
        collected(fields).contains_key(key) <==> lookup(fields, key) is Some,
        lookup(fields, key) matches Some(value) ==> collected(fields)[key] == value,
    decreases fields.len(),
{
    if fields.len() > 0 {
        let front = fields.drop_last();
        assert forall|i: int, j: int| 0 <= i < j < front.len() implies (#[trigger] front[i]).0 != (
        #[trigger] front[j]).0 by {
            assert(fields[i].0 != fields[j].0);
        }
        law_collected_keeps_each_field(front, key);
        let n = fields.len() - 1;
        if fields[n].0 == key {
            lemma_lookup_at(fields, key, n);
        } else if exists|i: int| 0 <= i < n && (#[trigger] fields[i]).0 == key {
            let i = choose|i: int| 0 <= i < n && (#[trigger] fields[i]).0 == key;
            assert forall|j: int| 0 <= j < i implies (#[trigger] fields[j]).0 != key by {
                assert(fields[j].0 != fields[i].0);
            }
            lemma_lookup_at(fields, key, i);
            assert forall|j: int| 0 <= j < i implies (#[trigger] front[j]).0 != key by {
                assert(fields[j].0 != key);
            }
            lemma_lookup_at(front, key, i);
        } else {
            lemma_lookup_none(fields, key);
            assert forall|j: int| 0 <= j < front.len() implies (#[trigger] front[j]).0 != key by {
                assert(fields[j].0 != key);
            }
            lemma_lookup_none(front, key);
        }
    }
}

/// Of the control characters, only the tab may stand in the value of a header;
/// every other character may.
pub proof fn law_control_characters_are_refused(b: u8, c: char, text: Seq<char>, i: int)
    ensures
        b < 32 && b != 9 || b == 127 ==> !header_byte(b),
        b == 9 || 32 <= b < 127 || b > 127 ==> header_byte(b),
        (c as int) < 32 && c != '\t' || c as int == 127 ==> !header_char(c),
        c == '\t' || 32 <= c as int && c as int != 127 ==> header_char(c),
        header_text(text) && 0 <= i < text.len() ==> header_char(text[i]),
        !header_text(text) ==> exists|k: int|
            0 <= k < text.len() && !header_char(#[trigger] text[k]),
{
}

/// The authorization consists of the scheme, a space and the token.
pub proof fn law_authorization_holds_the_token(token: Seq<char>)
    ensures
        bearer(token) == seq!['B', 'e', 'a', 'r', 'e', 'r', ' '] + token,
{
    reveal_strlit("Bearer ");
    assert("Bearer "@ =~= seq!['B', 'e', 'a', 'r', 'e', 'r', ' ']);
}

/// The address names the scheme, the host and the interface. A port goes after
/// the host and a colon, as if it were a part of the host's name.
pub proof fn law_parts_of_the_address(host: Seq<char>, port: u16, use_tls: bool)
    ensures
        url_of(host, None, false) == "http://"@ + host + "/api/v1/circuits"@,
        url_of(host, None, true) == "https://"@ + host + "/api/v1/circuits"@,
        url_of(host, Some(port), use_tls) == url_of(
            host + seq![':'] + decimal(port as nat),
            None,
            use_tls,
        ),
{
    reveal_strlit("http");
    reveal_strlit("https");
    reveal_strlit("://");
    reveal_strlit("http://");
    reveal_strlit("https://");
    reveal_strlit(":");
    assert("http"@ + "://"@ =~= "http://"@);
    assert("https"@ + "://"@ =~= "https://"@);
    assert(":"@ =~= seq![':']);
    assert(url_of(host, None, false) =~= "http://"@ + host + "/api/v1/circuits"@);
    assert(url_of(host, None, true) =~= "https://"@ + host + "/api/v1/circuits"@);
}

/// The circuits of an answer are the object under `circuits`, whatever else is
/// there; without such an object, the object under `spaces`; without either, the
/// answer itself. An answer that is no object holds none.
pub proof fn law_where_the_circuits_are(root: JsonView, fields: Seq<(Seq<char>, JsonView)>)
    ensures
        field_of(root, "circuits"@) == Some(JsonView::Object(fields)) ==> circuits_in(root)
            == Some(fields),
        !(field_of(root, "circuits"@) matches Some(JsonView::Object(_))) && field_of(
            root,
            "spaces"@,
        ) == Some(JsonView::Object(fields)) ==> circuits_in(root) == Some(fields),
        !(field_of(root, "circuits"@) matches Some(JsonView::Object(_))) && !(field_of(
            root,
            "spaces"@,
        ) matches Some(JsonView::Object(_))) && root == JsonView::Object(fields) ==> circuits_in(
            root,
        ) == Some(fields),
        !(root is Object) ==> circuits_in(root) is None,
{
}

/// The same circuits are found whether they are nested under `circuits`, nested
/// under `spaces`, or flat at the root.
pub proof fn law_nesting_makes_no_difference(fields: Seq<(Seq<char>, JsonView)>)
    requires
        lookup(fields, "circuits"@) is None,
        lookup(fields, "spaces"@) is None,
    ensures
        circuits_in(JsonView::Object(fields)) == Some(fields),
        circuits_in(JsonView::Object(seq![("circuits"@, JsonView::Object(fields))])) == Some(
            fields,
        ),
        circuits_in(JsonView::Object(seq![("spaces"@, JsonView::Object(fields))])) == Some(fields),
{
    reveal_strlit("circuits");
    reveal_strlit("spaces");
    let a = seq![("circuits"@, JsonView::Object(fields))];
    let b = seq![("spaces"@, JsonView::Object(fields))];
    lemma_lookup_at(a, "circuits"@, 0);
    assert("circuits"@.len() == 8 && "spaces"@.len() == 6);
    lemma_lookup_none(b, "circuits"@);
    lemma_lookup_at(b, "spaces"@, 0);
}

/// The collected map has the keys of the fields, and holds under each key the
/// value of the last field with that key.
pub proof fn law_last_field_with_a_key_counts(
    fields: Seq<(Seq<char>, JsonView)>,
    i: int,
    key: Seq<char>,
)
    ensures
        collected(fields).contains_key(key) <==> exists|k: int|
            0 <= k < fields.len() && (#[trigger] fields[k]).0 == key,
        0 <= i < fields.len() && fields[i].0 == key && (forall|j: int|
            i < j < fields.len() ==> (#[trigger] fields[j]).0 != key) ==> collected(fields)[key]
            == fields[i].1,
    decreases fields.len(),
{
    if fields.len() > 0 {
        let front = fields.drop_last();
        let n = fields.len() - 1;
        law_last_field_with_a_key_counts(front, i, key);
        if collected(front).contains_key(key) {
            let k = choose|k: int| 0 <= k < front.len() && (#[trigger] front[k]).0 == key;
            assert(fields[k].0 == key);
        }
        if fields[n].0 == key {
            assert(collected(fields).contains_key(key));
        } else if exists|k: int| 0 <= k < fields.len() && (#[trigger] fields[k]).0 == key {
            let k = choose|k: int| 0 <= k < fields.len() && (#[trigger] fields[k]).0 == key;
            assert(front[k].0 == key);
        }
        if 0 <= i < n && fields[i].0 == key && (forall|j: int|
            i < j < fields.len() ==> (#[trigger] fields[j]).0 != key) {
            assert(fields[n].0 != key);
            assert forall|j: int| i < j < front.len() implies (#[trigger] front[j]).0 != key by {
                assert(fields[j].0 != key);
            }
            assert(front[i].0 == key);
        }
    }
}

}
