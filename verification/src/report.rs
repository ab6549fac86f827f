//! From a sample of all circuits to what is printed of it.
use vstd::prelude::*;

use crate::attribute::{ascii_attribute_of, ascii_names, attribute_of, get_attribute_resilient};
use crate::json::{
    abs_field_views, abs_fields, abs_json, distinct_keys, entries, field_of,
    law_abs_leaves_nothing_below_zero, lemma_lookup_at, lemma_object_view, nothing_below_zero,
    shown, Json, JsonView, Number,
};
use crate::select::{
    circuit_views, circuits_at, law_every_request_has_a_selection,
    law_no_circuit_is_selected_twice, select_circuits, selection_of, selects, warning_views,
    warnings_of, Warning,
};
use crate::shell::{all_prepared, prepare_and_quote};
use crate::table::Table;
use crate::text::{
    decimal, decimal_text, join, joined, law_numeral_reads_back, numeral_value, texts,
};

verus! {

/// What is asked of a sample.
#[derive(Debug, PartialEq, Eq)]
pub struct Request {
    /// Select all circuits, whatever `ids` and `names` say.
    pub all: bool,
    /// Select the circuits with these identifiers.
    pub ids: Vec<String>,
    /// Select the circuits with these names.
    pub names: Vec<String>,
    /// Replace every number by its absolute value.
    pub abs: bool,
    /// Print only this attribute of each circuit.
    pub key: Option<String>,
}

/// One value of an output line: its text, or a JSON value whose text is its
/// serialization.
#[derive(Debug, PartialEq, Eq)]
pub enum Cell {
    Text(String),
    Serialize(Json),
}

/// What a cell holds.
pub enum CellView {
    Text(Seq<char>),
    Serialize(JsonView),
}

impl View for Cell {
    type V = CellView;

    open spec fn view(&self) -> CellView {
        match self {
            Cell::Text(s) => CellView::Text(s@),
            Cell::Serialize(v) => CellView::Serialize(v@),
        }
    }
}

/// What the cells hold.
pub open spec fn cell_views(cells: Seq<Cell>) -> Seq<CellView> {
    cells.map_values(|c: Cell| c@)
}

/// The numeral of an integer.
pub open spec fn integer_text(n: int) -> Seq<char> {
    if n < 0 {
        seq!['-'] + decimal((-n) as nat)
    } else {
        decimal(n as nat)
    }
}

/// The cell of an attribute. A string stands for itself, a missing attribute
/// reads like a null, and floating-point numbers, arrays and objects are to be
/// serialized.
pub open spec fn cell_of(value: Option<JsonView>) -> CellView {
    match value {
        None => CellView::Text("null"@),
        Some(JsonView::Null) => CellView::Text("null"@),
        Some(JsonView::Bool(b)) => CellView::Text(
            if b {
                "true"@
            } else {
                "false"@
            },
        ),
        Some(JsonView::String(s)) => CellView::Text(s),
        Some(JsonView::Number(Number::Unsigned(n))) => CellView::Text(integer_text(n as int)),
        Some(JsonView::Number(Number::Negative(n))) => CellView::Text(integer_text(n as int)),
        Some(v) => CellView::Serialize(v),
    }
}

/// The numeral of a signed integer.
fn signed_text(n: i64) -> (r: String)
    ensures
        r@ == integer_text(n as int),
{
    if n < 0 {
        let mut r = "-".to_owned();
        proof {
            reveal_strlit("-");
            assert("-"@ =~= seq!['-']);
        }
        let magnitude: u64 = (-(n + 1)) as u64 + 1;
        r.append(decimal_text(magnitude).as_str());
        r
    } else {
        decimal_text(n as u64)
    }
}

/// The cell of an attribute of a circuit.
pub fn attribute_cell(value: Option<&Json>) -> (r: Cell)
    ensures
        r@ == cell_of(shown(value)),
{
    match value {
        None => Cell::Text("null".to_owned()),
        Some(Json::Null) => Cell::Text("null".to_owned()),
        Some(Json::Bool(b)) => Cell::Text(
            if *b {
                "true".to_owned()
            } else {
                "false".to_owned()
            },
        ),
        Some(Json::String(s)) => Cell::Text(s.clone()),
        Some(Json::Number(Number::Unsigned(n))) => Cell::Text(decimal_text(*n)),
        Some(Json::Number(Number::Negative(n))) => Cell::Text(signed_text(*n)),
        Some(v) => Cell::Serialize(v.clone()),
    }
}

/// The cells of one attribute of each circuit.
pub open spec fn cells_of(
    circuits: Seq<(Seq<char>, JsonView)>,
    key: Seq<char>,
) -> Seq<CellView> {
    circuits.map_values(
        |circuit: (Seq<char>, JsonView)| cell_of(attribute_of(circuit.1, key)),
    )
}

/// The cells of one attribute of each circuit, where its name and the names of
/// all fields are in ASCII.
pub open spec fn ascii_cells_of(
    circuits: Seq<(Seq<char>, JsonView)>,
    key: Seq<char>,
) -> Seq<CellView> {
    circuits.map_values(
        |circuit: (Seq<char>, JsonView)| cell_of(ascii_attribute_of(circuit.1, key)),
    )
}

/// Whether the name of the attribute and the names of all fields are in ASCII.
pub open spec fn all_ascii_names(
    circuits: Seq<(Seq<char>, JsonView)>,
    key: Seq<char>,
) -> bool {
    forall|i: int| 0 <= i < circuits.len() ==> ascii_names((#[trigger] circuits[i]).1, key)
}

/// The cells of one attribute of each circuit, in the order of the circuits.
pub fn key_cells(circuits: &Vec<(String, Json)>, key: &str) -> (r: Vec<Cell>)
    ensures
        cell_views(r@) == cells_of(entries(circuits@), key@),
        all_ascii_names(entries(circuits@), key@) ==> cell_views(r@) == ascii_cells_of(
            entries(circuits@),
            key@,
        ),
{
    let ghost all = entries(circuits@);
    let mut r: Vec<Cell> = Vec::new();
    let mut i: usize = 0;
    while i < circuits.len()
        invariant
            i <= circuits.len(),
            all == entries(circuits@),
            r@.len() == i,
            forall|j: int|
                0 <= j < i ==> (#[trigger] r@[j])@ == cell_of(attribute_of(all[j].1, key@)),
            forall|j: int|
                0 <= j < i && ascii_names((#[trigger] all[j]).1, key@) ==> r@[j]@ == cell_of(
                    ascii_attribute_of(all[j].1, key@),
                ),
        decreases circuits.len() - i,
    {
        r.push(attribute_cell(get_attribute_resilient(&circuits[i].1, key)));
        i += 1;
    }
    proof {
        assert(cell_views(r@) =~= cells_of(all, key@));
        if all_ascii_names(all, key@) {
            assert(cell_views(r@) =~= ascii_cells_of(all, key@));
        }
    }
    r
}

/// The columns of a line: the timestamp, if there is one, and then the values.
pub open spec fn columns(timestamp: Option<String>, values: Seq<String>) -> Seq<Seq<char>> {
    match timestamp {
        Some(t) => seq![t@] + texts(values),
        None => texts(values),
    }
}

/// The line that is printed of the values: the timestamp, if one is asked for,
/// and then the values, each prepared for output, with the separator between.
pub fn key_line(
    timestamp: Option<String>,
    values: Vec<String>,
    quote: bool,
    separator: &str,
) -> (r: String)
    ensures
        r@ == joined(all_prepared(columns(timestamp, values@), quote), separator@),
{
    let ghost given = columns(timestamp, values@);
    let mut parts: Vec<String> = Vec::new();
    let ghost offset: int = if timestamp is Some {
        1
    } else {
        0
    };
    if let Some(t) = timestamp {
        parts.push(prepare_and_quote(t, quote));
    }
    let mut i: usize = 0;
    proof {
        assert(texts(parts@) =~= all_prepared(given.take(offset), quote));
        assert(given.skip(offset) =~= texts(values@));
    }
    while i < values.len()
        invariant
            i <= values.len(),
            0 <= offset,
            given.len() == offset + values@.len(),
            given.skip(offset) == texts(values@),
            texts(parts@) == all_prepared(given.take(offset + i), quote),
        decreases values.len() - i,
    {
        let ghost before = texts(parts@);
        let value = values[i].clone();
        let ghost text = value@;
        let part = prepare_and_quote(value, quote);
        parts.push(part);
        proof {
            assert(given[offset + i] == given.skip(offset)[i as int]);
            assert(texts(parts@) =~= before.push(part@));
            assert(all_prepared(given.take(offset + i + 1), quote) =~= before.push(part@));
        }
        i += 1;
    }
    assert(given.take(offset + values@.len()) =~= given);
    join(&parts, separator)
}

/// What is to be printed of a sample: nothing, because no circuit is selected;
/// one cell of each selected circuit; or one JSON object with the selected
/// circuits by their identifiers.
#[derive(Debug, PartialEq, Eq)]
pub enum Outcome {
    NothingSelected,
    Cells(Vec<Cell>),
    Document(Json),
}

/// What is to be printed of a sample, and what to warn of.
#[derive(Debug, PartialEq, Eq)]
pub struct Report {
    pub warnings: Vec<Warning>,
    pub outcome: Outcome,
}

impl Request {
    /// The circuits that the request selects, as they are to be printed.
    pub open spec fn selected(
        self,
        m: Map<Seq<char>, JsonView>,
    ) -> Seq<(Seq<char>, JsonView)> {
        let picked = circuits_at(
            m,
            selection_of(m, self.all, texts(self.ids@), texts(self.names@)),
        );
        if self.abs {
            abs_field_views(picked)
        } else {
            picked
        }
    }

    /// Whether the outcome is the one that the request asks for.
    pub open spec fn leads_to(self, m: Map<Seq<char>, JsonView>, outcome: Outcome) -> bool {
        let selected = self.selected(m);
        match outcome {
            Outcome::NothingSelected => selected.len() == 0,
            Outcome::Cells(cells) => {
                &&& selected.len() > 0
                &&& self.key matches Some(key)
                &&& cell_views(cells@) == cells_of(selected, key@)
                &&& all_ascii_names(selected, key@) ==> cell_views(cells@) == ascii_cells_of(
                    selected,
                    key@,
                )
            },
            Outcome::Document(document) => {
                &&& selected.len() > 0
                &&& self.key is None
                &&& document@ == JsonView::Object(selected)
            },
        }
    }
}

/// What is to be printed of a sample of circuits.
pub fn report(request: &Request, circuits: &Table<Json>) -> (r: Report)
    ensures
        request.leads_to(circuit_views(circuits@), r.outcome),
        selects(
            circuit_views(circuits@),
            request.all,
            texts(request.ids@),
            texts(request.names@),
            selection_of(
                circuit_views(circuits@),
                request.all,
                texts(request.ids@),
                texts(request.names@),
            ),
        ),
        warning_views(r.warnings@) == warnings_of(
            circuit_views(circuits@),
            request.all,
            texts(request.ids@),
            texts(request.names@),
        ),
{
    let selection = select_circuits(circuits, request.all, &request.ids, &request.names);
    let mut selected = selection.circuits;
    let warnings = selection.warnings;
    if selected.len() == 0 {
        assert(entries(selected@).len() == 0);
        return Report { warnings, outcome: Outcome::NothingSelected };
    }
    if request.abs {
        abs_fields(&mut selected);
    }
    assert(entries(selected@) == request.selected(circuit_views(circuits@)));
    match &request.key {
        Some(key) => {
            let cells = key_cells(&selected, key.as_str());
            Report { warnings, outcome: Outcome::Cells(cells) }
        },
        None => {
            proof {
                lemma_object_view(selected);
            }
            Report { warnings, outcome: Outcome::Document(Json::Object(selected)) }
        },
    }
}

/// No identifier occurs twice among the circuits that are printed, so that a
/// JSON object can hold them all.
pub proof fn law_printed_circuits_have_distinct_ids(
    m: Map<Seq<char>, JsonView>,
    request: Request,
)
    requires
        m.dom().finite(),
    ensures
        distinct_keys(request.selected(m)),
{
    let ids = texts(request.ids@);
    let names = texts(request.names@);
    let s = selection_of(m, request.all, ids, names);
    law_every_request_has_a_selection(m, request.all, ids, names);
    law_no_circuit_is_selected_twice(m, request.all, ids, names, s);
    let printed = request.selected(m);
    assert forall|i: int, j: int| 0 <= i < j < printed.len() implies (#[trigger] printed[i]).0 != (
    #[trigger] printed[j]).0 by {
        assert(s[i] != s[j]);
    }
}

/// The printed JSON object holds each selected circuit under its identifier.
pub proof fn law_document_holds_each_circuit(
    m: Map<Seq<char>, JsonView>,
    request: Request,
    i: int,
)
    requires
        m.dom().finite(),
        0 <= i < request.selected(m).len(),
    ensures
        field_of(JsonView::Object(request.selected(m)), request.selected(m)[i].0) == Some(
            request.selected(m)[i].1,
        ),
{
    law_printed_circuits_have_distinct_ids(m, request);
    lemma_lookup_at(request.selected(m), request.selected(m)[i].0, i);
}

/// Where absolute values are asked for, no number in what is printed is below
/// zero.
pub proof fn law_absolute_values_are_printed(
    m: Map<Seq<char>, JsonView>,
    request: Request,
    i: int,
)
    requires
        request.abs,
        0 <= i < request.selected(m).len(),
    ensures
        nothing_below_zero(request.selected(m)[i].1),
{
    let picked = circuits_at(
        m,
        selection_of(m, request.all, texts(request.ids@), texts(request.names@)),
    );
    law_abs_leaves_nothing_below_zero(picked[i].1);
}

/// The numeral of an integer reads back as that integer: a sign, if it is below
/// zero, and then the digits of its magnitude without leading zeros.
pub proof fn law_integer_reads_back(n: int)
    ensures
        n >= 0 ==> numeral_value(integer_text(n)) == n && integer_text(n).len() > 0 && (forall|
            i: int,
        |
            0 <= i < integer_text(n).len() ==> '0' <= #[trigger] integer_text(n)[i] <= '9'),
        n > 0 ==> integer_text(n)[0] != '0',
        n == 0 ==> integer_text(n) == seq!['0'],
        n < 0 ==> integer_text(n) == seq!['-'] + integer_text(-n),
{
    if n >= 0 {
        law_numeral_reads_back(n as nat);
    }
}

/// Missing attributes and nulls read `null`, truth values read `true` and
/// `false`, strings stand for themselves, and integers read as their numerals.
pub proof fn law_cells_that_are_text(b: bool, s: Seq<char>, u: u64, i: i64)
    ensures
        cell_of(None) == CellView::Text("null"@),
        cell_of(Some(JsonView::Null)) == CellView::Text("null"@),
        cell_of(Some(JsonView::Bool(true))) == CellView::Text("true"@),
        cell_of(Some(JsonView::Bool(false))) == CellView::Text("false"@),
        cell_of(Some(JsonView::String(s))) == CellView::Text(s),
        cell_of(Some(JsonView::Number(Number::Unsigned(u)))) == CellView::Text(
            integer_text(u as int),
        ),
        cell_of(Some(JsonView::Number(Number::Negative(i)))) == CellView::Text(
            integer_text(i as int),
        ),
{
}

/// Every floating-point number, array and object is serialized as it is, and
/// nothing else is.
pub proof fn law_cells_that_are_serialized(
    v: JsonView,
    negative: bool,
    magnitude: u64,
    items: Seq<JsonView>,
    fields: Seq<(Seq<char>, JsonView)>,
)
    ensures
        cell_of(Some(JsonView::Number(Number::Float { negative, magnitude })))
            == CellView::Serialize(JsonView::Number(Number::Float { negative, magnitude })),
        cell_of(Some(JsonView::Array(items))) == CellView::Serialize(JsonView::Array(items)),
        cell_of(Some(JsonView::Object(fields))) == CellView::Serialize(JsonView::Object(fields)),
        cell_of(Some(v)) is Serialize ==> cell_of(Some(v)) == CellView::Serialize(v),
{
}

/// A line of cells has one cell for each circuit, in the order of the circuits,
/// and each is that of the circuit's own attribute.
pub proof fn law_one_cell_for_each_circuit(
    circuits: Seq<(Seq<char>, JsonView)>,
    key: Seq<char>,
    i: int,
)
    ensures
        cells_of(circuits, key).len() == circuits.len(),
        ascii_cells_of(circuits, key).len() == circuits.len(),
        0 <= i < circuits.len() ==> cells_of(circuits, key)[i] == cell_of(
            attribute_of(circuits[i].1, key),
        ),
        0 <= i < circuits.len() ==> ascii_cells_of(circuits, key)[i] == cell_of(
            ascii_attribute_of(circuits[i].1, key),
        ),
        (forall|k: int| 0 <= k < circuits.len() ==> ascii_names((#[trigger] circuits[k]).1, key))
            ==> all_ascii_names(circuits, key),
{
}

/// The timestamp, where there is one, stands in a column of its own before all
/// values, and the values follow in their order.
pub proof fn law_timestamp_comes_first(t: String, values: Seq<String>, i: int)
    ensures
        columns(None, values).len() == values.len(),
        columns(Some(t), values).len() == values.len() + 1,
        columns(Some(t), values)[0] == t@,
        0 <= i < values.len() ==> columns(None, values)[i] == values[i]@,
        0 <= i < values.len() ==> columns(Some(t), values)[i + 1] == values[i]@,
{
}

/// Each selected circuit is printed under its own identifier, at its place in the
/// selection: as it is, or with absolute values where these are asked for.
pub proof fn law_each_circuit_is_printed_under_its_id(
    m: Map<Seq<char>, JsonView>,
    request: Request,
    i: int,
)
    ensures
        request.selected(m).len() == selection_of(
            m,
            request.all,
            texts(request.ids@),
            texts(request.names@),
        ).len(),
        0 <= i < request.selected(m).len() ==> request.selected(m)[i].0 == selection_of(
            m,
            request.all,
            texts(request.ids@),
            texts(request.names@),
        )[i],
        0 <= i < request.selected(m).len() && !request.abs ==> request.selected(m)[i].1
            == m[request.selected(m)[i].0],
        0 <= i < request.selected(m).len() && request.abs ==> request.selected(m)[i].1 == abs_json(
            m[request.selected(m)[i].0],
        ),
{
}

/// A request leads to a report of nothing exactly where it selects no circuit.
/// Otherwise one that asks for an attribute leads to the cells of that attribute
/// of the selected circuits, and any other to the object of these circuits.
pub proof fn law_what_a_request_leads_to(
    m: Map<Seq<char>, JsonView>,
    request: Request,
    cells: Vec<Cell>,
    document: Json,
    i: int,
)
    ensures
        request.leads_to(m, Outcome::NothingSelected) <==> request.selected(m).len() == 0,
        request.leads_to(m, Outcome::Cells(cells)) ==> request.selected(m).len() > 0
            && request.key is Some && cells@.len() == request.selected(m).len(),
        request.leads_to(m, Outcome::Cells(cells)) && 0 <= i < cells@.len() ==> cells@[i]@
            == cell_of(attribute_of(request.selected(m)[i].1, request.key->0@)),
        request.leads_to(m, Outcome::Document(document)) <==> request.selected(m).len() > 0
            && request.key is None && document@ == JsonView::Object(request.selected(m)),
{
    if request.leads_to(m, Outcome::Cells(cells)) {
        let views = cells_of(request.selected(m), request.key->0@);
        assert(cell_views(cells@) == views);
        assert(cell_views(cells@).len() == cells@.len());
        if 0 <= i < cells@.len() {
            assert(cell_views(cells@)[i] == views[i]);
        }
    }
}

/// A cell holds what it was made of, and several cells are seen one by one.
pub proof fn law_view_shows_the_cell(s: String, v: Json, cells: Seq<Cell>, i: int)
    ensures
        Cell::Text(s)@ == CellView::Text(s@),
        Cell::Serialize(v)@ == CellView::Serialize(v@),
        cell_views(cells).len() == cells.len(),
        0 <= i < cells.len() ==> cell_views(cells)[i] == cells[i]@,
{
}

}
