//! Which circuits a request selects, and in which order.
use vstd::prelude::*;

use crate::json::{entries, field_of, get_string_field, string_field, Json, JsonView};
use crate::table::Table;
use crate::text::{is_before, precedes, same_text, texts};
use crate::text::{lemma_precedes_irreflexive, lemma_precedes_total, lemma_precedes_transitive};

verus! {

/// A part of a request that matches no circuit.
#[derive(Debug, PartialEq, Eq)]
pub enum Warning {
    UnknownId(String),
    UnknownName(String),
}

/// What a warning holds.
pub enum WarningView {
    UnknownId(Seq<char>),
    UnknownName(Seq<char>),
}

impl View for Warning {
    type V = WarningView;

    open spec fn view(&self) -> WarningView {
        match self {
            Warning::UnknownId(id) => WarningView::UnknownId(id@),
            Warning::UnknownName(name) => WarningView::UnknownName(name@),
        }
    }
}

impl Warning {
    /// The warning in words.
    pub fn message(&self) -> (r: String)
        ensures
            r@ == match self@ {
                WarningView::UnknownId(id) => "Warning: Circuit ID '"@ + id + "' not found"@,
                WarningView::UnknownName(name) => "Warning: Circuit Name '"@ + name
                    + "' not found"@,
            },
    {
        match self {
            Warning::UnknownId(id) => {
                let mut r = "Warning: Circuit ID '".to_owned();
                r.append(id.as_str());
                r.append("' not found");
                r
            },
            Warning::UnknownName(name) => {
                let mut r = "Warning: Circuit Name '".to_owned();
                r.append(name.as_str());
                r.append("' not found");
                r
            },
        }
    }
}

/// The selected circuits, each with its identifier, and what could not be
/// found.
#[derive(Debug, PartialEq, Eq)]
pub struct Selection {
    pub circuits: Vec<(String, Json)>,
    pub warnings: Vec<Warning>,
}

/// The circuits by their identifiers.
pub open spec fn circuit_views(circuits: Map<Seq<char>, Json>) -> Map<Seq<char>, JsonView> {
    circuits.map_values(|circuit: Json| circuit@)
}

/// The name of a circuit, if it has one.
pub open spec fn name_of(circuit: JsonView) -> Option<Seq<char>> {
    string_field(circuit, "name"@)
}

/// Whether the identifier is that of a circuit with the name.
pub open spec fn bears(m: Map<Seq<char>, JsonView>, id: Seq<char>, name: Seq<char>) -> bool {
    m.contains_key(id) && name_of(m[id]) == Some(name)
}

/// Whether some circuit has the name.
pub open spec fn known_name(m: Map<Seq<char>, JsonView>, name: Seq<char>) -> bool {
    exists|id: Seq<char>| bears(m, id, name)
}

/// Whether the identifier is the least of a circuit with the name.
pub open spec fn least_bearer(m: Map<Seq<char>, JsonView>, id: Seq<char>, name: Seq<char>) -> bool {
    &&& bears(m, id, name)
    &&& forall|other: Seq<char>|
        bears(m, other, name) ==> other == id || #[trigger] precedes(id, other)
}

/// The identifier that a name stands for: the least of a circuit with the name.
pub open spec fn id_of_name(m: Map<Seq<char>, JsonView>, name: Seq<char>) -> Seq<char> {
    choose|id: Seq<char>| least_bearer(m, id, name)
}

/// The identifiers that a request asks for: the known ones among `ids`, and
/// then those that the known ones among `names` stand for.
pub open spec fn wanted(
    m: Map<Seq<char>, JsonView>,
    ids: Seq<Seq<char>>,
    names: Seq<Seq<char>>,
) -> Seq<Seq<char>> {
    known_ids(m, ids) + ids_of_names(m, names)
}

/// The identifiers among `ids` that are those of circuits.
pub open spec fn known_ids(m: Map<Seq<char>, JsonView>, ids: Seq<Seq<char>>) -> Seq<Seq<char>> {
    ids.filter(|id: Seq<char>| m.contains_key(id))
}

/// The identifiers that the known names among `names` stand for.
pub open spec fn ids_of_names(
    m: Map<Seq<char>, JsonView>,
    names: Seq<Seq<char>>,
) -> Seq<Seq<char>> {
    names.filter(|name: Seq<char>| known_name(m, name)).map_values(
        |name: Seq<char>| id_of_name(m, name),
    )
}

/// The sequence without the elements that have already occurred in it.
pub open spec fn without_repeats(s: Seq<Seq<char>>) -> Seq<Seq<char>>
    decreases s.len(),
{
    if s.len() == 0 {
        s
    } else if s.drop_last().contains(s.last()) {
        without_repeats(s.drop_last())
    } else {
        without_repeats(s.drop_last()).push(s.last())
    }
}

/// Whether each element precedes all that follow it.
pub open spec fn ascending(s: Seq<Seq<char>>) -> bool {
    forall|i: int, j: int| 0 <= i < j < s.len() ==> precedes(#[trigger] s[i], #[trigger] s[j])
}

/// What the request selects.
pub open spec fn selection_of(
    m: Map<Seq<char>, JsonView>,
    all: bool,
    ids: Seq<Seq<char>>,
    names: Seq<Seq<char>>,
) -> Seq<Seq<char>> {
    choose|s: Seq<Seq<char>>| selects(m, all, ids, names, s)
}

/// Whether `s` lists the identifiers of all circuits in ascending order.
pub open spec fn lists_all(m: Map<Seq<char>, JsonView>, s: Seq<Seq<char>>) -> bool {
    &&& ascending(s)
    &&& forall|id: Seq<char>| #[trigger] s.contains(id) <==> m.contains_key(id)
}

/// Whether `s` is what the request selects: all circuits by ascending
/// identifiers, or else those that it asks for, each at its first place.
pub open spec fn selects(
    m: Map<Seq<char>, JsonView>,
    all: bool,
    ids: Seq<Seq<char>>,
    names: Seq<Seq<char>>,
    s: Seq<Seq<char>>,
) -> bool {
    if all {
        lists_all(m, s)
    } else {
        s == without_repeats(wanted(m, ids, names))
    }
}

/// The circuits with the given identifiers.
pub open spec fn circuits_at(
    m: Map<Seq<char>, JsonView>,
    ids: Seq<Seq<char>>,
) -> Seq<(Seq<char>, JsonView)> {
    ids.map_values(|id: Seq<char>| (id, m[id]))
}

/// The warnings of a request: first for its identifiers, then for its names, in
/// the order of the request. A request for all circuits gives none.
pub open spec fn warnings_of(
    m: Map<Seq<char>, JsonView>,
    all: bool,
    ids: Seq<Seq<char>>,
    names: Seq<Seq<char>>,
) -> Seq<WarningView> {
    if all {
        Seq::empty()
    } else {
        id_warnings(m, ids) + name_warnings(m, names)
    }
}

/// A warning for each identifier that is not one of a circuit.
pub open spec fn id_warnings(
    m: Map<Seq<char>, JsonView>,
    ids: Seq<Seq<char>>,
) -> Seq<WarningView> {
    ids.filter(|id: Seq<char>| !m.contains_key(id)).map_values(
        |id: Seq<char>| WarningView::UnknownId(id),
    )
}

/// A warning for each name that no circuit has.
pub open spec fn name_warnings(
    m: Map<Seq<char>, JsonView>,
    names: Seq<Seq<char>>,
) -> Seq<WarningView> {
    names.filter(|name: Seq<char>| !known_name(m, name)).map_values(
        |name: Seq<char>| WarningView::UnknownName(name),
    )
}

/// What the warnings hold.
pub open spec fn warning_views(warnings: Seq<Warning>) -> Seq<WarningView> {
    warnings.map_values(|w: Warning| w@)
}

/// Removing repeats changes nothing of what occurs in a sequence.
proof fn lemma_without_repeats_contains(s: Seq<Seq<char>>, x: Seq<char>)
    ensures
        without_repeats(s).contains(x) <==> s.contains(x),
    decreases s.len(),
{
    if s.len() > 0 {
        let front = s.drop_last();
        lemma_without_repeats_contains(front, x);
        assert(s =~= front.push(s.last()));
        if s.contains(x) {
            let k = choose|k: int| 0 <= k < s.len() && s[k] == x;
            if k < front.len() {
                assert(front[k] == x);
            }
        }
        if front.contains(x) {
            let k = choose|k: int| 0 <= k < front.len() && front[k] == x;
            assert(s[k] == x);
        }
        if !front.contains(s.last()) {
            let r = without_repeats(front);
            if r.contains(x) {
                let k = choose|k: int| 0 <= k < r.len() && r[k] == x;
                assert(r.push(s.last())[k] == x);
            }
            if r.push(s.last()).contains(x) {
                let k = choose|k: int|
                    0 <= k < r.push(s.last()).len() && r.push(s.last())[k] == x;
                if k < r.len() {
                    assert(r[k] == x);
                } else {
                    assert(s[s.len() - 1] == x);
                }
            }
            if x == s.last() {
                assert(r.push(s.last())[r.len() as int] == x);
            }
        }
    }
}

/// Whether the list holds the string.
fn in_list(list: &Vec<String>, s: &str) -> (r: bool)
    ensures
        r == texts(list@).contains(s@),
{
    let mut i: usize = 0;
    while i < list.len()
        invariant
            i <= list.len(),
            forall|j: int| 0 <= j < i ==> #[trigger] texts(list@)[j] != s@,
        decreases list.len() - i,
    {
        if same_text(list[i].as_str(), s) {
            assert(texts(list@)[i as int] == s@);
            return true;
        }
        i += 1;
    }
    false
}

/// Puts the string into its place in an ascending list.
fn insert_ascending(list: &mut Vec<String>, s: String)
    requires
        ascending(texts(old(list)@)),
        !texts(old(list)@).contains(s@),
    ensures
        ascending(texts(final(list)@)),
        forall|x: Seq<char>| #[trigger]
            texts(final(list)@).contains(x) <==> texts(old(list)@).contains(x) || x == s@,
{
    let mut at: usize = 0;
    let ghost before = texts(list@);
    while at < list.len() && is_before(list[at].as_str(), s.as_str())
        invariant
            at <= list.len(),
            before == texts(list@),
            forall|j: int| 0 <= j < at ==> precedes(#[trigger] before[j], s@),
        decreases list.len() - at,
    {
        at += 1;
    }
    let ghost text = s@;
    list.insert(at, s);
    proof {
        let after = texts(list@);
        assert(after =~= before.insert(at as int, text));
        assert forall|j: int| at <= j < before.len() implies precedes(text, #[trigger] before[j]) by {
            assert(before[at as int] != text);
            lemma_precedes_total(before[at as int], text);
            if j > at {
                lemma_precedes_transitive(text, before[at as int], before[j]);
            }
        }
        assert forall|i: int, j: int| 0 <= i < j < after.len() implies precedes(
            #[trigger] after[i],
            #[trigger] after[j],
        ) by {
            let a = if i < at { before[i] } else if i == at { text } else { before[i - 1] };
            let b = if j < at { before[j] } else if j == at { text } else { before[j - 1] };
            assert(after[i] == a && after[j] == b);
        }
        assert forall|x: Seq<char>| #[trigger] after.contains(x) <==> before.contains(x) || x
            == text by {
            if after.contains(x) {
                let k = choose|k: int| 0 <= k < after.len() && after[k] == x;
                if k < at {
                    assert(before[k] == x);
                } else if k > at {
                    assert(before[k - 1] == x);
                }
            }
            if before.contains(x) {
                let k = choose|k: int| 0 <= k < before.len() && before[k] == x;
                if k < at {
                    assert(after[k] == x);
                } else {
                    assert(after[k + 1] == x);
                }
            }
            if x == text {
                assert(after[at as int] == x);
            }
        }
    }
}

/// The identifiers of all circuits in ascending order.
fn ascending_ids(circuits: &Table<Json>) -> (r: Vec<String>)
    ensures
        lists_all(circuit_views(circuits@), texts(r@)),
{
    let keys = circuits.keys();
    let mut r: Vec<String> = Vec::new();
    let mut i: usize = 0;
    while i < keys.len()
        invariant
            i <= keys.len(),
            forall|a: int, b: int|
                0 <= a < b < keys@.len() ==> (#[trigger] keys@[a])@ != (#[trigger] keys@[b])@,
            ascending(texts(r@)),
            forall|x: Seq<char>| #[trigger]
                texts(r@).contains(x) <==> exists|k: int|
                    0 <= k < i && (#[trigger] keys@[k])@ == x,
        decreases keys.len() - i,
    {
        proof {
            assert(!texts(r@).contains(keys@[i as int]@)) by {
                if texts(r@).contains(keys@[i as int]@) {
                    let k = choose|k: int|
                        0 <= k < i && (#[trigger] keys@[k])@ == keys@[i as int]@;
                    assert(keys@[k]@ != keys@[i as int]@);
                }
            }
        }
        let ghost before = texts(r@);
        insert_ascending(&mut r, keys[i].clone());
        proof {
            assert forall|x: Seq<char>| #[trigger] texts(r@).contains(x) <==> exists|k: int|
                0 <= k < i + 1 && (#[trigger] keys@[k])@ == x by {
                if before.contains(x) {
                    let k = choose|k: int| 0 <= k < i && (#[trigger] keys@[k])@ == x;
                    assert(0 <= k < i + 1 && keys@[k]@ == x);
                }
                if x == keys@[i as int]@ {
                    assert(keys@[i as int]@ == x);
                }
                if exists|k: int| 0 <= k < i + 1 && (#[trigger] keys@[k])@ == x {
                    let k = choose|k: int| 0 <= k < i + 1 && (#[trigger] keys@[k])@ == x;
                    if k < i {
                        assert(before.contains(x));
                    }
                }
            }
        }
        i += 1;
    }
    proof {
        let m = circuit_views(circuits@);
        assert forall|id: Seq<char>| #[trigger] texts(r@).contains(id) <==> m.contains_key(
            id,
        ) by {
            if texts(r@).contains(id) {
                let k = choose|k: int| 0 <= k < keys@.len() && (#[trigger] keys@[k])@ == id;
                assert(circuits@.dom().contains(keys@[k]@));
            }
            if m.contains_key(id) {
                assert(circuits@.dom().contains(id));
            }
        }
    }
    r
}

/// At most one identifier is the least of a circuit with the name.
proof fn lemma_least_bearer_unique(
    m: Map<Seq<char>, JsonView>,
    a: Seq<char>,
    b: Seq<char>,
    name: Seq<char>,
)
    requires
        least_bearer(m, a, name),
        least_bearer(m, b, name),
    ensures
        a == b,
{
    if a != b {
        assert(precedes(a, b));
        assert(precedes(b, a));
        lemma_precedes_transitive(a, b, a);
        lemma_precedes_irreflexive(a);
    }
}

/// Of finitely many strings, at least one, one is the least.
proof fn lemma_least_exists(s: Set<Seq<char>>) -> (least: Seq<char>)
    requires
        s.finite(),
        s.len() > 0,
    ensures
        s.contains(least),
        forall|other: Seq<char>| s.contains(other) ==> other == least || precedes(least, other),
    decreases s.len(),
{
    let x = s.choose();
    let rest = s.remove(x);
    if rest.len() == 0 {
        x
    } else {
        let y = lemma_least_exists(rest);
        let least = if precedes(x, y) {
            x
        } else {
            y
        };
        assert forall|other: Seq<char>| s.contains(other) implies other == least || precedes(
            least,
            other,
        ) by {
            lemma_precedes_total(x, y);
            if other != x {
                assert(rest.contains(other));
                if precedes(x, y) && other != y {
                    lemma_precedes_transitive(x, y, other);
                }
            }
        }
        least
    }
}

/// A name that some circuit has stands for a circuit: that with the least
/// identifier among those that have the name.
pub proof fn law_known_name_stands_for_its_least_circuit(
    m: Map<Seq<char>, JsonView>,
    name: Seq<char>,
)
    requires
        m.dom().finite(),
        known_name(m, name),
    ensures
        least_bearer(m, id_of_name(m, name), name),
{
    let bearers = m.dom().filter(|id: Seq<char>| bears(m, id, name));
    m.dom().lemma_len_filter(|id: Seq<char>| bears(m, id, name));
    let some = choose|id: Seq<char>| bears(m, id, name);
    assert(bearers.contains(some));
    if bearers.len() == 0 {
        assert(bearers =~= Set::<Seq<char>>::empty());
    }
    let least = lemma_least_exists(bearers);
    assert forall|other: Seq<char>| bears(m, other, name) implies other == least
        || #[trigger] precedes(least, other) by {
        assert(bearers.contains(other));
    }
    assert(least_bearer(m, least, name));
}

/// The least identifier of a circuit with the name, if some circuit has it.
fn find_id_of_name(circuits: &Table<Json>, keys: &Vec<String>, name: &str) -> (r: Option<String>)
    requires
        forall|i: int| 0 <= i < keys@.len() ==> circuits@.dom().contains((#[trigger] keys@[i])@),
        forall|key: Seq<char>| #[trigger]
            circuits@.dom().contains(key) ==> exists|i: int|
                0 <= i < keys@.len() && (#[trigger] keys@[i])@ == key,
    ensures
        match r {
            Some(id) => {
                &&& known_name(circuit_views(circuits@), name@)
                &&& id@ == id_of_name(circuit_views(circuits@), name@)
                &&& circuits@.dom().contains(id@)
            },
            None => !known_name(circuit_views(circuits@), name@),
        },
{
    let ghost m = circuit_views(circuits@);
    let mut best: Option<String> = None;
    let mut i: usize = 0;
    while i < keys.len()
        invariant
            i <= keys.len(),
            m == circuit_views(circuits@),
            forall|i: int|
                0 <= i < keys@.len() ==> circuits@.dom().contains((#[trigger] keys@[i])@),
            match best {
                Some(id) => {
                    &&& bears(m, id@, name@)
                    &&& forall|k: int|
                        0 <= k < i && bears(m, (#[trigger] keys@[k])@, name@) ==> keys@[k]@ == id@
                            || precedes(id@, keys@[k]@)
                },
                None => forall|k: int| 0 <= k < i ==> !bears(m, (#[trigger] keys@[k])@, name@),
            },
        decreases keys.len() - i,
    {
        let id = &keys[i];
        assert(circuits@.dom().contains(id@));
        let ghost was = best;
        if let Some(circuit) = circuits.get(id.as_str()) {
            if let Some(found) = get_string_field(circuit, "name") {
                if same_text(found.as_str(), name) {
                    assert(bears(m, id@, name@));
                    let better = match &best {
                        Some(old_id) => is_before(id.as_str(), old_id.as_str()),
                        None => true,
                    };
                    if better {
                        best = Some(id.clone());
                        proof {
                            assert forall|k: int|
                                0 <= k < i + 1 && bears(
                                    m,
                                    (#[trigger] keys@[k])@,
                                    name@,
                                ) implies keys@[k]@ == id@ || precedes(id@, keys@[k]@) by {
                                if k < i {
                                    assert(was is Some);
                                    if keys@[k]@ != was->0@ {
                                        lemma_precedes_transitive(id@, was->0@, keys@[k]@);
                                    }
                                }
                            }
                        }
                    } else {
                        proof {
                            lemma_precedes_total(id@, was->0@);
                        }
                    }
                }
            }
        }
        i += 1;
    }
    proof {
        match &best {
            Some(id) => {
                assert forall|other: Seq<char>| bears(m, other, name@) implies other == id@
                    || #[trigger] precedes(id@, other) by {
                    assert(circuits@.dom().contains(other));
                    let k = choose|k: int| 0 <= k < keys@.len() && (#[trigger] keys@[k])@ == other;
                    assert(bears(m, keys@[k]@, name@));
                }
                assert(least_bearer(m, id@, name@));
                lemma_least_bearer_unique(m, id@, id_of_name(m, name@), name@);
            },
            None => {
                assert forall|other: Seq<char>| !bears(m, other, name@) by {
                    if bears(m, other, name@) {
                        assert(circuits@.dom().contains(other));
                        let k = choose|k: int|
                            0 <= k < keys@.len() && (#[trigger] keys@[k])@ == other;
                        assert(!bears(m, keys@[k]@, name@));
                    }
                }
            },
        }
    }
    best
}

/// Appends the string unless the list holds it already.
fn push_new(list: &mut Vec<String>, s: String, Ghost(seen): Ghost<Seq<Seq<char>>>)
    requires
        texts(old(list)@) == without_repeats(seen),
    ensures
        texts(final(list)@) == without_repeats(seen.push(s@)),
{
    proof {
        lemma_without_repeats_contains(seen, s@);
        assert(seen.push(s@).drop_last() =~= seen);
    }
    let ghost text = s@;
    let ghost before = texts(list@);
    if !in_list(list, s.as_str()) {
        list.push(s);
        assert(texts(list@) =~= before.push(text));
    }
}

/// Takes the known identifiers of the request into an empty selection, in its
/// order and without repeats, and warns of the others.
fn choose_ids(circuits: &Table<Json>, ids: &Vec<String>) -> (r: (Vec<String>, Vec<Warning>))
    ensures
        texts(r.0@) == without_repeats(known_ids(circuit_views(circuits@), texts(ids@))),
        warning_views(r.1@) == id_warnings(circuit_views(circuits@), texts(ids@)),
{
    let ghost m = circuit_views(circuits@);
    let ghost given = texts(ids@);
    let mut chosen: Vec<String> = Vec::new();
    let mut warnings: Vec<Warning> = Vec::new();
    let mut i: usize = 0;
    proof {
        reveal(Seq::filter);
        assert(warning_views(warnings@) =~= id_warnings(m, given.take(0)));
        assert(texts(chosen@) =~= without_repeats(known_ids(m, given.take(0))));
    }
    while i < ids.len()
        invariant
            i <= ids.len(),
            m == circuit_views(circuits@),
            given == texts(ids@),
            texts(chosen@) == without_repeats(known_ids(m, given.take(i as int))),
            warning_views(warnings@) == id_warnings(m, given.take(i as int)),
        decreases ids.len() - i,
    {
        let ghost seen = known_ids(m, given.take(i as int));
        let ghost before = warning_views(warnings@);
        let ghost id = ids@[i as int]@;
        proof {
            reveal(Seq::filter);
            assert(given.take(i + 1).drop_last() =~= given.take(i as int));
            assert(given.take(i + 1).last() == id);
        }
        if circuits.contains_key(ids[i].as_str()) {
            push_new(&mut chosen, ids[i].clone(), Ghost(seen));
        } else {
            warnings.push(Warning::UnknownId(ids[i].clone()));
            assert(warning_views(warnings@) =~= before.push(WarningView::UnknownId(id)));
            assert(id_warnings(m, given.take(i + 1)) =~= before.push(WarningView::UnknownId(id)));
        }
        i += 1;
    }
    assert(given.take(given.len() as int) =~= given);
    (chosen, warnings)
}

/// Adds the circuits that the known names of the request stand for to a
/// selection that holds the identifiers `seen`, and warns of the other names.
fn choose_names(
    circuits: &Table<Json>,
    names: &Vec<String>,
    chosen: &mut Vec<String>,
    warnings: &mut Vec<Warning>,
    Ghost(seen): Ghost<Seq<Seq<char>>>,
)
    requires
        texts(old(chosen)@) == without_repeats(seen),
    ensures
        texts(final(chosen)@) == without_repeats(
            seen + ids_of_names(circuit_views(circuits@), texts(names@)),
        ),
        warning_views(final(warnings)@) == warning_views(old(warnings)@) + name_warnings(
            circuit_views(circuits@),
            texts(names@),
        ),
{
    let ghost m = circuit_views(circuits@);
    let ghost given = texts(names@);
    let ghost earlier = warning_views(warnings@);
    let keys = circuits.keys();
    let mut i: usize = 0;
    proof {
        reveal(Seq::filter);
        assert(warning_views(warnings@) =~= earlier + name_warnings(m, given.take(0)));
        assert(seen + ids_of_names(m, given.take(0)) =~= seen);
    }
    while i < names.len()
        invariant
            i <= names.len(),
            m == circuit_views(circuits@),
            given == texts(names@),
            forall|i: int|
                0 <= i < keys@.len() ==> circuits@.dom().contains((#[trigger] keys@[i])@),
            forall|key: Seq<char>| #[trigger]
                circuits@.dom().contains(key) ==> exists|i: int|
                    0 <= i < keys@.len() && (#[trigger] keys@[i])@ == key,
            texts(chosen@) == without_repeats(seen + ids_of_names(m, given.take(i as int))),
            warning_views(warnings@) == earlier + name_warnings(m, given.take(i as int)),
        decreases names.len() - i,
    {
        let ghost so_far = seen + ids_of_names(m, given.take(i as int));
        let ghost before = warning_views(warnings@);
        let ghost name = names@[i as int]@;
        proof {
            reveal(Seq::filter);
            assert(given.take(i + 1).drop_last() =~= given.take(i as int));
            assert(given.take(i + 1).last() == name);
        }
        match find_id_of_name(circuits, &keys, names[i].as_str()) {
            Some(id) => {
                assert(seen + ids_of_names(m, given.take(i + 1)) =~= so_far.push(id@));
                push_new(chosen, id, Ghost(so_far));
            },
            None => {
                warnings.push(Warning::UnknownName(names[i].clone()));
                assert(warning_views(warnings@) =~= before.push(WarningView::UnknownName(name)));
                assert(earlier + name_warnings(m, given.take(i + 1)) =~= before.push(
                    WarningView::UnknownName(name),
                ));
            },
        }
        i += 1;
    }
    assert(given.take(given.len() as int) =~= given);
}

/// Copies the circuits with the given identifiers.
fn copy_circuits(circuits: &Table<Json>, ids: &Vec<String>) -> (r: Vec<(String, Json)>)
    requires
        forall|i: int| 0 <= i < ids@.len() ==> circuits@.dom().contains(#[trigger] texts(ids@)[i]),
    ensures
        entries(r@) == circuits_at(circuit_views(circuits@), texts(ids@)),
{
    let ghost m = circuit_views(circuits@);
    let mut r: Vec<(String, Json)> = Vec::new();
    let mut i: usize = 0;
    while i < ids.len()
        invariant
            i <= ids.len(),
            m == circuit_views(circuits@),
            forall|i: int|
                0 <= i < ids@.len() ==> circuits@.dom().contains(#[trigger] texts(ids@)[i]),
            entries(r@) == circuits_at(m, texts(ids@).take(i as int)),
        decreases ids.len() - i,
    {
        let ghost id = texts(ids@)[i as int];
        let ghost before = entries(r@);
        assert(circuits@.dom().contains(id));
        if let Some(circuit) = circuits.get(ids[i].as_str()) {
            r.push((ids[i].clone(), circuit.clone()));
        }
        proof {
            assert(entries(r@) =~= before.push((id, m[id])));
            assert(circuits_at(m, texts(ids@).take(i + 1)) =~= before.push((id, m[id])));
        }
        i += 1;
    }
    assert(texts(ids@).take(texts(ids@).len() as int) =~= texts(ids@));
    r
}

/// Everything that a request asks for is the identifier of a circuit.
proof fn lemma_wanted_known(
    m: Map<Seq<char>, JsonView>,
    ids: Seq<Seq<char>>,
    names: Seq<Seq<char>>,
    x: Seq<char>,
)
    requires
        m.dom().finite(),
        wanted(m, ids, names).contains(x),
    ensures
        m.contains_key(x),
{
    let w = wanted(m, ids, names);
    let k = choose|k: int| 0 <= k < w.len() && w[k] == x;
    let known = known_ids(m, ids);
    if k < known.len() {
        ids.lemma_filter_pred(|id: Seq<char>| m.contains_key(id), k);
    } else {
        let kept = names.filter(|name: Seq<char>| known_name(m, name));
        names.lemma_filter_pred(|name: Seq<char>| known_name(m, name), k - known.len());
        law_known_name_stands_for_its_least_circuit(m, kept[k - known.len()]);
    }
}

/// The circuits that a request selects. With `all` these are all circuits, by
/// ascending identifiers. Otherwise they are the circuits with the requested
/// identifiers, in the order of the request, and then those with the requested
/// names, in the order of the request. A name stands for the circuit with the
/// least identifier among those that have it, no circuit is selected twice, and
/// what matches no circuit gives a warning.
pub fn select_circuits(
    circuits: &Table<Json>,
    all: bool,
    ids: &Vec<String>,
    names: &Vec<String>,
) -> (r: Selection)
    ensures
        selects(
            circuit_views(circuits@),
            all,
            texts(ids@),
            texts(names@),
            selection_of(circuit_views(circuits@), all, texts(ids@), texts(names@)),
        ),
        entries(r.circuits@) == circuits_at(
            circuit_views(circuits@),
            selection_of(circuit_views(circuits@), all, texts(ids@), texts(names@)),
        ),
        warning_views(r.warnings@) == warnings_of(
            circuit_views(circuits@),
            all,
            texts(ids@),
            texts(names@),
        ),
{
    let ghost m = circuit_views(circuits@);
    proof {
        circuits.lemma_finite();
        assert(m.dom() =~= circuits@.dom());
    }
    if all {
        let chosen = ascending_ids(circuits);
        let warnings: Vec<Warning> = Vec::new();
        assert(warning_views(warnings@) =~= Seq::<WarningView>::empty());
        assert forall|i: int| 0 <= i < chosen@.len() implies circuits@.dom().contains(
            #[trigger] texts(chosen@)[i],
        ) by {
            assert(texts(chosen@).contains(texts(chosen@)[i]));
        }
        let selected = copy_circuits(circuits, &chosen);
        proof {
            law_selection_is_determined(
                m,
                all,
                texts(ids@),
                texts(names@),
                texts(chosen@),
                selection_of(m, all, texts(ids@), texts(names@)),
            );
        }
        return Selection { circuits: selected, warnings };
    }
    let (mut chosen, mut warnings) = choose_ids(circuits, ids);
    choose_names(
        circuits,
        names,
        &mut chosen,
        &mut warnings,
        Ghost(known_ids(m, texts(ids@))),
    );
    assert forall|i: int| 0 <= i < chosen@.len() implies circuits@.dom().contains(
        #[trigger] texts(chosen@)[i],
    ) by {
        let x = texts(chosen@)[i];
        assert(texts(chosen@).contains(x));
        lemma_without_repeats_contains(wanted(m, texts(ids@), texts(names@)), x);
        lemma_wanted_known(m, texts(ids@), texts(names@), x);
    }
    let selected = copy_circuits(circuits, &chosen);
    assert(selects(m, all, texts(ids@), texts(names@), texts(chosen@)));
    Selection { circuits: selected, warnings }
}

/// Removing repeats leaves no repeat.
proof fn lemma_without_repeats_distinct(s: Seq<Seq<char>>)
    ensures
        without_repeats(s).no_duplicates(),
    decreases s.len(),
{
    if s.len() > 0 {
        let front = s.drop_last();
        lemma_without_repeats_distinct(front);
        lemma_without_repeats_contains(front, s.last());
    }
}

/// What a sequence gives without its repeats begins with what any beginning of
/// the sequence gives.
proof fn lemma_without_repeats_prefix(a: Seq<Seq<char>>, b: Seq<Seq<char>>)
    ensures
        without_repeats(a).is_prefix_of(without_repeats(a + b)),
    decreases b.len(),
{
    if b.len() == 0 {
        assert(a + b =~= a);
    } else {
        lemma_without_repeats_prefix(a, b.drop_last());
        assert((a + b).drop_last() =~= a + b.drop_last());
    }
}

/// A sequence without repeats is left as it is.
proof fn lemma_without_repeats_identity(s: Seq<Seq<char>>)
    requires
        s.no_duplicates(),
    ensures
        without_repeats(s) == s,
    decreases s.len(),
{
    if s.len() > 0 {
        lemma_without_repeats_identity(s.drop_last());
        if s.drop_last().contains(s.last()) {
            let k = choose|k: int| 0 <= k < s.drop_last().len() && s.drop_last()[k] == s.last();
            assert(s[k] == s[s.len() - 1]);
        }
        assert(s.drop_last().push(s.last()) =~= s);
    }
}

/// Two ascending sequences with the same elements are the same.
proof fn lemma_ascending_unique(a: Seq<Seq<char>>, b: Seq<Seq<char>>)
    requires
        ascending(a),
        ascending(b),
        forall|x: Seq<char>| #[trigger] a.contains(x) <==> b.contains(x),
    ensures
        a == b,
    decreases a.len(),
{
    if a.len() == 0 {
        if b.len() > 0 {
            assert(b.contains(b[0]));
            assert(a.contains(b[0]));
        }
        assert(a =~= b);
    } else {
        assert(a.contains(a.last()));
        assert(b.len() > 0);
        assert(b.contains(b.last()));
        assert(a.contains(b.last()));
        let i = choose|i: int| 0 <= i < b.len() && b[i] == a.last();
        let j = choose|j: int| 0 <= j < a.len() && a[j] == b.last();
        if a.last() != b.last() {
            assert(precedes(b[i], b[b.len() - 1]));
            assert(precedes(a[j], a[a.len() - 1]));
            lemma_precedes_transitive(a.last(), b.last(), a.last());
            lemma_precedes_irreflexive(a.last());
        }
        let x = a.drop_last();
        let y = b.drop_last();
        assert forall|z: Seq<char>| #[trigger] x.contains(z) <==> y.contains(z) by {
            lemma_drop_last_contains(a, z);
            lemma_drop_last_contains(b, z);
        }
        lemma_ascending_unique(x, y);
        assert(a =~= x.push(a.last()));
        assert(b =~= y.push(b.last()));
    }
}

/// What occurs in an ascending sequence before its last element.
proof fn lemma_drop_last_contains(s: Seq<Seq<char>>, z: Seq<char>)
    requires
        ascending(s),
        s.len() > 0,
    ensures
        s.drop_last().contains(z) <==> s.contains(z) && z != s.last(),
{
    if s.drop_last().contains(z) {
        let k = choose|k: int| 0 <= k < s.drop_last().len() && s.drop_last()[k] == z;
        assert(s[k] == z);
        assert(precedes(s[k], s[s.len() - 1]));
        lemma_precedes_irreflexive(z);
    }
    if s.contains(z) && z != s.last() {
        let k = choose|k: int| 0 <= k < s.len() && s[k] == z;
        assert(s.drop_last()[k] == z);
    }
}

/// A request selects one sequence of circuits and no other: it depends on the
/// circuits by their identifiers alone, not on the order in which they are
/// stored.
pub proof fn law_selection_is_determined(
    m: Map<Seq<char>, JsonView>,
    all: bool,
    ids: Seq<Seq<char>>,
    names: Seq<Seq<char>>,
    s: Seq<Seq<char>>,
    t: Seq<Seq<char>>,
)
    requires
        selects(m, all, ids, names, s),
        selects(m, all, ids, names, t),
    ensures
        s == t,
{
    if all {
        lemma_ascending_unique(s, t);
    }
}

/// Finitely many strings can be listed in ascending order.
proof fn lemma_listing_exists(s: Set<Seq<char>>) -> (r: Seq<Seq<char>>)
    requires
        s.finite(),
    ensures
        ascending(r),
        forall|x: Seq<char>| #[trigger] r.contains(x) <==> s.contains(x),
    decreases s.len(),
{
    if s.len() == 0 {
        assert(s =~= Set::<Seq<char>>::empty());
        Seq::empty()
    } else {
        let least = lemma_least_exists(s);
        let rest = lemma_listing_exists(s.remove(least));
        let r = seq![least] + rest;
        assert forall|i: int, j: int| 0 <= i < j < r.len() implies precedes(
            #[trigger] r[i],
            #[trigger] r[j],
        ) by {
            assert(r[j] == rest[j - 1]);
            assert(rest.contains(rest[j - 1]));
            if i > 0 {
                assert(r[i] == rest[i - 1]);
            }
        }
        assert forall|x: Seq<char>| #[trigger] r.contains(x) <==> s.contains(x) by {
            if r.contains(x) {
                let k = choose|k: int| 0 <= k < r.len() && r[k] == x;
                if k > 0 {
                    assert(rest[k - 1] == x);
                    assert(rest.contains(x));
                }
            }
            if s.contains(x) {
                if x == least {
                    assert(r[0] == x);
                } else {
                    assert(rest.contains(x));
                    let k = choose|k: int| 0 <= k < rest.len() && rest[k] == x;
                    assert(r[k + 1] == x);
                }
            }
        }
        r
    }
}

/// Every request has a selection.
pub proof fn law_every_request_has_a_selection(
    m: Map<Seq<char>, JsonView>,
    all: bool,
    ids: Seq<Seq<char>>,
    names: Seq<Seq<char>>,
)
    requires
        m.dom().finite(),
    ensures
        selects(m, all, ids, names, selection_of(m, all, ids, names)),
{
    if all {
        let s = lemma_listing_exists(m.dom());
        assert(selects(m, all, ids, names, s));
    } else {
        assert(selects(m, all, ids, names, without_repeats(wanted(m, ids, names))));
    }
}

/// Two sets of circuits with the same identifiers, asked for all circuits, list
/// these in the same order, whatever the circuits hold: each circuit keeps its
/// place from one sample to the next, and from its label to its values.
pub proof fn law_circuits_keep_their_place(
    m: Map<Seq<char>, JsonView>,
    n: Map<Seq<char>, JsonView>,
    s: Seq<Seq<char>>,
    t: Seq<Seq<char>>,
)
    requires
        m.dom() == n.dom(),
        lists_all(m, s),
        lists_all(n, t),
    ensures
        s == t,
{
    assert forall|x: Seq<char>| #[trigger] s.contains(x) <==> t.contains(x) by {
        assert(m.contains_key(x) == n.contains_key(x));
    }
    lemma_ascending_unique(s, t);
}

/// No circuit is selected twice.
pub proof fn law_no_circuit_is_selected_twice(
    m: Map<Seq<char>, JsonView>,
    all: bool,
    ids: Seq<Seq<char>>,
    names: Seq<Seq<char>>,
    s: Seq<Seq<char>>,
)
    requires
        selects(m, all, ids, names, s),
    ensures
        s.no_duplicates(),
{
    if all {
        assert forall|i: int, j: int| 0 <= i < s.len() && 0 <= j < s.len() && i != j implies s[i]
            != s[j] by {
            lemma_precedes_irreflexive(s[i]);
            if i < j {
                assert(precedes(s[i], s[j]));
            } else {
                assert(precedes(s[j], s[i]));
            }
        }
    } else {
        lemma_without_repeats_distinct(wanted(m, ids, names));
    }
}

/// Only circuits are selected.
pub proof fn law_only_circuits_are_selected(
    m: Map<Seq<char>, JsonView>,
    all: bool,
    ids: Seq<Seq<char>>,
    names: Seq<Seq<char>>,
    s: Seq<Seq<char>>,
    id: Seq<char>,
)
    requires
        m.dom().finite(),
        selects(m, all, ids, names, s),
        s.contains(id),
    ensures
        m.contains_key(id),
{
    if !all {
        lemma_without_repeats_contains(wanted(m, ids, names), id);
        lemma_wanted_known(m, ids, names, id);
    }
}

/// A request for all circuits selects the same, and warns of nothing, whatever
/// identifiers and names it also gives.
pub proof fn law_all_overrides_ids_and_names(
    m: Map<Seq<char>, JsonView>,
    ids: Seq<Seq<char>>,
    names: Seq<Seq<char>>,
    s: Seq<Seq<char>>,
)
    ensures
        selects(m, true, ids, names, s) == selects(m, true, Seq::empty(), Seq::empty(), s),
        warnings_of(m, true, ids, names) == Seq::<WarningView>::empty(),
{
}

/// Every requested identifier that is one of a circuit is selected, and so is
/// the circuit that a requested name stands for.
pub proof fn law_what_is_known_is_selected(
    m: Map<Seq<char>, JsonView>,
    ids: Seq<Seq<char>>,
    names: Seq<Seq<char>>,
    s: Seq<Seq<char>>,
    i: int,
)
    requires
        selects(m, false, ids, names, s),
    ensures
        0 <= i < ids.len() && m.contains_key(ids[i]) ==> s.contains(ids[i]),
        0 <= i < names.len() && known_name(m, names[i]) ==> s.contains(id_of_name(m, names[i])),
{
    let w = wanted(m, ids, names);
    let known = known_ids(m, ids);
    if 0 <= i < ids.len() && m.contains_key(ids[i]) {
        ids.lemma_filter_contains(|id: Seq<char>| m.contains_key(id), i);
        let k = choose|k: int| 0 <= k < known.len() && known[k] == ids[i];
        assert(w[k] == ids[i]);
        lemma_without_repeats_contains(w, ids[i]);
    }
    if 0 <= i < names.len() && known_name(m, names[i]) {
        let kept = names.filter(|name: Seq<char>| known_name(m, name));
        names.lemma_filter_contains(|name: Seq<char>| known_name(m, name), i);
        let k = choose|k: int| 0 <= k < kept.len() && kept[k] == names[i];
        assert(w[known.len() + k] == id_of_name(m, names[i]));
        lemma_without_repeats_contains(w, id_of_name(m, names[i]));
    }
}

/// What the identifiers of a request select comes first, and in the same order
/// as if the request gave no names.
pub proof fn law_ids_come_before_names(
    m: Map<Seq<char>, JsonView>,
    ids: Seq<Seq<char>>,
    names: Seq<Seq<char>>,
    s: Seq<Seq<char>>,
    t: Seq<Seq<char>>,
)
    requires
        selects(m, false, ids, names, s),
        selects(m, false, ids, Seq::empty(), t),
    ensures
        t.is_prefix_of(s),
{
    assert(ids_of_names(m, Seq::empty()) =~= Seq::<Seq<char>>::empty()) by {
        reveal(Seq::filter);
    }
    assert(wanted(m, ids, Seq::empty()) =~= known_ids(m, ids));
    lemma_without_repeats_prefix(known_ids(m, ids), ids_of_names(m, names));
}

/// Different identifiers of circuits are selected in the order in which they
/// are requested.
pub proof fn law_ids_keep_their_order(
    m: Map<Seq<char>, JsonView>,
    ids: Seq<Seq<char>>,
    s: Seq<Seq<char>>,
)
    requires
        selects(m, false, ids, Seq::empty(), s),
        ids.no_duplicates(),
        forall|i: int| 0 <= i < ids.len() ==> m.contains_key(#[trigger] ids[i]),
    ensures
        s == ids,
{
    assert(ids_of_names(m, Seq::empty()) =~= Seq::<Seq<char>>::empty()) by {
        reveal(Seq::filter);
    }
    lemma_all_known(m, ids);
    assert(wanted(m, ids, Seq::empty()) =~= ids);
    lemma_without_repeats_identity(ids);
}

/// Identifiers of circuits are all kept.
proof fn lemma_all_known(m: Map<Seq<char>, JsonView>, ids: Seq<Seq<char>>)
    requires
        forall|i: int| 0 <= i < ids.len() ==> m.contains_key(#[trigger] ids[i]),
    ensures
        known_ids(m, ids) == ids,
    decreases ids.len(),
{
    reveal(Seq::filter);
    if ids.len() > 0 {
        let front = ids.drop_last();
        assert forall|i: int| 0 <= i < front.len() implies m.contains_key(#[trigger] front[i]) by {
            assert(m.contains_key(ids[i]));
        }
        lemma_all_known(m, front);
        assert(m.contains_key(ids[ids.len() - 1]));
        assert(front.push(ids.last()) =~= ids);
    }
}

/// Each identifier comes with its own circuit.
pub proof fn law_each_id_comes_with_its_circuit(
    m: Map<Seq<char>, JsonView>,
    ids: Seq<Seq<char>>,
    i: int,
)
    ensures
        circuits_at(m, ids).len() == ids.len(),
        0 <= i < ids.len() ==> circuits_at(m, ids)[i].0 == ids[i],
        0 <= i < ids.len() ==> circuits_at(m, ids)[i].1 == m[ids[i]],
{
}

/// The circuits are seen under the identifiers under which they are stored.
pub proof fn law_circuits_are_seen_as_they_are(circuits: Map<Seq<char>, Json>, id: Seq<char>)
    ensures
        circuit_views(circuits).contains_key(id) <==> circuits.contains_key(id),
        circuits.contains_key(id) ==> circuit_views(circuits)[id] == circuits[id]@,
{
}

/// The name of a circuit is the string in its field `name`, and a name is known
/// exactly where some circuit has it.
pub proof fn law_names_of_circuits(
    m: Map<Seq<char>, JsonView>,
    circuit: JsonView,
    id: Seq<char>,
    name: Seq<char>,
)
    ensures
        name_of(circuit) == Some(name) <==> field_of(circuit, "name"@) == Some(
            JsonView::String(name),
        ),
        m.contains_key(id) && field_of(m[id], "name"@) == Some(JsonView::String(name))
            ==> known_name(m, name),
        known_name(m, name) ==> exists|k: Seq<char>| #[trigger]
            m.contains_key(k) && field_of(m[k], "name"@) == Some(JsonView::String(name)),
{
    if m.contains_key(id) && field_of(m[id], "name"@) == Some(JsonView::String(name)) {
        assert(bears(m, id, name));
    }
    if known_name(m, name) {
        let k = choose|k: Seq<char>| bears(m, k, name);
        assert(m.contains_key(k));
    }
}

/// A name stands for the circuit that has it and whose identifier precedes those
/// of all others that have it.
pub proof fn law_name_stands_for_the_least_id(
    m: Map<Seq<char>, JsonView>,
    id: Seq<char>,
    name: Seq<char>,
)
    requires
        m.contains_key(id),
        field_of(m[id], "name"@) == Some(JsonView::String(name)),
        forall|other: Seq<char>| #[trigger]
            m.contains_key(other) && other != id && field_of(m[other], "name"@) == Some(
                JsonView::String(name),
            ) ==> precedes(id, other),
    ensures
        id_of_name(m, name) == id,
{
    assert(least_bearer(m, id, name)) by {
        assert forall|other: Seq<char>| bears(m, other, name) implies other == id
            || #[trigger] precedes(id, other) by {
            assert(m.contains_key(other));
        }
    }
    lemma_least_bearer_unique(m, id, id_of_name(m, name), name);
}

/// A request for all circuits selects exactly the circuits, by ascending
/// identifiers.
pub proof fn law_all_circuits_in_ascending_order(
    m: Map<Seq<char>, JsonView>,
    ids: Seq<Seq<char>>,
    names: Seq<Seq<char>>,
    id: Seq<char>,
    i: int,
    j: int,
)
    requires
        m.dom().finite(),
    ensures
        selection_of(m, true, ids, names).contains(id) <==> m.contains_key(id),
        0 <= i < j < selection_of(m, true, ids, names).len() ==> precedes(
            selection_of(m, true, ids, names)[i],
            selection_of(m, true, ids, names)[j],
        ),
{
    law_every_request_has_a_selection(m, true, ids, names);
}

/// What a request by identifiers and names selects.
proof fn lemma_selection_by_request(
    m: Map<Seq<char>, JsonView>,
    ids: Seq<Seq<char>>,
    names: Seq<Seq<char>>,
)
    ensures
        selection_of(m, false, ids, names) == without_repeats(wanted(m, ids, names)),
{
    assert(selects(m, false, ids, names, without_repeats(wanted(m, ids, names))));
}

/// One more identifier in a request adds its circuit at the end, if it is the
/// identifier of a circuit that is not selected yet, and otherwise nothing. A
/// request without identifiers and names selects nothing.
pub proof fn law_one_more_id(
    m: Map<Seq<char>, JsonView>,
    ids: Seq<Seq<char>>,
    id: Seq<char>,
)
    ensures
        selection_of(m, false, Seq::empty(), Seq::empty()) == Seq::<Seq<char>>::empty(),
        m.contains_key(id) && !selection_of(m, false, ids, Seq::empty()).contains(id)
            ==> selection_of(m, false, ids.push(id), Seq::empty()) == selection_of(
            m,
            false,
            ids,
            Seq::empty(),
        ).push(id),
        !m.contains_key(id) || selection_of(m, false, ids, Seq::empty()).contains(id)
            ==> selection_of(m, false, ids.push(id), Seq::empty()) == selection_of(
            m,
            false,
            ids,
            Seq::empty(),
        ),
{
    let none = Seq::<Seq<char>>::empty();
    lemma_selection_by_request(m, none, none);
    lemma_selection_by_request(m, ids, none);
    lemma_selection_by_request(m, ids.push(id), none);
    assert(ids_of_names(m, none) =~= none) by {
        reveal(Seq::filter);
    }
    assert(known_ids(m, none) =~= none) by {
        reveal(Seq::filter);
    }
    assert(wanted(m, none, none) =~= none);
    let before = wanted(m, ids, none);
    let after = wanted(m, ids.push(id), none);
    assert(ids.push(id).drop_last() =~= ids);
    lemma_without_repeats_contains(before, id);
    if m.contains_key(id) {
        assert(after =~= before.push(id)) by {
            reveal(Seq::filter);
        }
        assert(after.drop_last() =~= before);
    } else {
        assert(after =~= before) by {
            reveal(Seq::filter);
        }
    }
}

/// One more name in a request adds the circuit that it stands for at the end, if
/// some circuit has the name and that circuit is not selected yet, and otherwise
/// nothing.
pub proof fn law_one_more_name(
    m: Map<Seq<char>, JsonView>,
    ids: Seq<Seq<char>>,
    names: Seq<Seq<char>>,
    name: Seq<char>,
)
    ensures
        known_name(m, name) && !selection_of(m, false, ids, names).contains(id_of_name(m, name))
            ==> selection_of(m, false, ids, names.push(name)) == selection_of(
            m,
            false,
            ids,
            names,
        ).push(id_of_name(m, name)),
        !known_name(m, name) || selection_of(m, false, ids, names).contains(id_of_name(m, name))
            ==> selection_of(m, false, ids, names.push(name)) == selection_of(
            m,
            false,
            ids,
            names,
        ),
{
    lemma_selection_by_request(m, ids, names);
    lemma_selection_by_request(m, ids, names.push(name));
    let before = wanted(m, ids, names);
    let after = wanted(m, ids, names.push(name));
    let id = id_of_name(m, name);
    assert(names.push(name).drop_last() =~= names);
    lemma_without_repeats_contains(before, id);
    if known_name(m, name) {
        assert(after =~= before.push(id)) by {
            reveal(Seq::filter);
        }
        assert(after.drop_last() =~= before);
    } else {
        assert(after =~= before) by {
            reveal(Seq::filter);
        }
    }
}

/// Each identifier that is not one of a circuit adds a warning of it at the end,
/// and so does each name that no circuit has, after the identifiers. Nothing else
/// gives a warning.
pub proof fn law_what_is_unknown_gives_a_warning(
    m: Map<Seq<char>, JsonView>,
    ids: Seq<Seq<char>>,
    names: Seq<Seq<char>>,
    id: Seq<char>,
    name: Seq<char>,
)
    ensures
        warnings_of(m, true, ids, names) == Seq::<WarningView>::empty(),
        warnings_of(m, false, Seq::empty(), Seq::empty()) == Seq::<WarningView>::empty(),
        m.contains_key(id) ==> warnings_of(m, false, ids.push(id), Seq::empty()) == warnings_of(
            m,
            false,
            ids,
            Seq::empty(),
        ),
        !m.contains_key(id) ==> warnings_of(m, false, ids.push(id), Seq::empty()) == warnings_of(
            m,
            false,
            ids,
            Seq::empty(),
        ).push(WarningView::UnknownId(id)),
        known_name(m, name) ==> warnings_of(m, false, ids, names.push(name)) == warnings_of(
            m,
            false,
            ids,
            names,
        ),
        !known_name(m, name) ==> warnings_of(m, false, ids, names.push(name)) == warnings_of(
            m,
            false,
            ids,
            names,
        ).push(WarningView::UnknownName(name)),
{
    let none = Seq::<Seq<char>>::empty();
    reveal(Seq::filter);
    assert(ids.push(id).drop_last() =~= ids);
    assert(names.push(name).drop_last() =~= names);
    assert(id_warnings(m, none) =~= Seq::<WarningView>::empty());
    assert(name_warnings(m, none) =~= Seq::<WarningView>::empty());
    assert(warnings_of(m, false, none, none) =~= Seq::<WarningView>::empty());
    if m.contains_key(id) {
        assert(id_warnings(m, ids.push(id)) =~= id_warnings(m, ids));
    } else {
        assert(id_warnings(m, ids.push(id)) =~= id_warnings(m, ids).push(
            WarningView::UnknownId(id),
        ));
        assert(warnings_of(m, false, ids.push(id), none) =~= warnings_of(m, false, ids, none).push(
            WarningView::UnknownId(id),
        ));
    }
    if known_name(m, name) {
        assert(name_warnings(m, names.push(name)) =~= name_warnings(m, names));
    } else {
        assert(name_warnings(m, names.push(name)) =~= name_warnings(m, names).push(
            WarningView::UnknownName(name),
        ));
        assert(warnings_of(m, false, ids, names.push(name)) =~= warnings_of(
            m,
            false,
            ids,
            names,
        ).push(WarningView::UnknownName(name)));
    }
}

/// A warning holds what it was made of, and several warnings are seen one by one.
pub proof fn law_view_shows_the_warning(s: String, warnings: Seq<Warning>, i: int)
    ensures
        Warning::UnknownId(s)@ == WarningView::UnknownId(s@),
        Warning::UnknownName(s)@ == WarningView::UnknownName(s@),
        warning_views(warnings).len() == warnings.len(),
        0 <= i < warnings.len() ==> warning_views(warnings)[i] == warnings[i]@,
{
}

}
