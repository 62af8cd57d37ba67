//! The typed-extraction operator: one model call per input row fills the
//! extracted columns, cached per generation unit so a re-run (or a query
//! sharing a field) is free.

use serde_json::Value;
use vstd::prelude::*;

use crate::cache::{
    hash_input, input_hash, known, lookup, CacheKey, CachedValue, Contents, KeyView, SemanticCache,
    ValueView,
};
use crate::index::opt_views;
use crate::json::{
    array_value, bool_value, int_json, int_value, json_of, json_parsed, json_written, jsons,
    opt_json, parse_value, plain, real_of, text_value, value_as_real, value_bool, value_int,
    value_is_object, value_items, value_member, value_real, value_str, value_text, Json, Number,
    MAX_NESTING,
};
use crate::model::{answer_text, answer_texts, Answer, ModelId};
use crate::number::Double;
use crate::text::{
    chars_of, find_char, first_of, has_prefix, has_suffix, hexadecimal, hexadecimal_is_digits,
    hexadecimal_is_injective, push_hex, same_ignore_case,
    same_ignoring_case, string_of, trim, trimmed, views,
};
use crate::types::{scalar_views, FieldSpec, FieldType, Scalar, ScalarView};

verus! {

/// Per-row `max_tokens` for an extraction request. Typed JSON is compact; this
/// is a ceiling, not a target.
pub const EXTRACT_MAX_TOKENS: usize = 2048;

/// A text without the Markdown code fence around it: the line of the opening
/// fence, the closing fence, and the white space around what is between.
pub open spec fn unfenced(text: Seq<char>) -> Seq<char> {
    if !"```"@.is_prefix_of(text) {
        text
    } else {
        let rest = text.skip("```"@.len() as int);
        let body = match first_of(rest, '\n') {
            Some(i) => rest.skip(i + 1),
            None => rest,
        };
        if "```"@.is_suffix_of(body) {
            trimmed(body.take(body.len() - "```"@.len()))
        } else {
            trimmed(body)
        }
    }
}

/// A text without the Markdown code fence around it.
pub fn strip_code_fence(text: &str) -> (r: String)
    ensures
        r@ == unfenced(text@),
{
    proof {
        reveal_strlit("```");
    }
    if !has_prefix(text, "```") {
        return text.to_owned();
    }
    let chars = chars_of(text);
    let start: usize = match find_char(&chars, 3, '\n') {
        Some(i) => i + 1,
        None => 3,
    };
    let ghost rest = text@.skip(3);
    let body = string_of(&chars, start, chars.len());
    proof {
        match first_of(rest, '\n') {
            Some(i) => {
                assert(rest.skip(i + 1) == body@);
            },
            None => {
                assert(rest == body@);
            },
        }
    }
    if has_suffix(body.as_str(), "```") {
        let inner = string_of(&chars, start, chars.len() - 3);
        assert(inner@ == body@.take(body@.len() - 3));
        trim(inner.as_str())
    } else {
        trim(body.as_str())
    }
}

/// The JSON object that an answer holds, if it holds one.
pub open spec fn object_in(text: Seq<char>) -> Option<Json> {
    match json_parsed(unfenced(trimmed(text))) {
        Some(j) => if j is Object {
            Some(j)
        } else {
            None
        },
        None => None,
    }
}

/// The JSON object in what the model answers, if anything.
pub open spec fn answered(answer: Option<Seq<char>>) -> Option<Json> {
    match answer {
        Some(text) => object_in(text),
        None => None,
    }
}

/// Parse the model's response into a JSON object, tolerating a Markdown code
/// fence some local models wrap around JSON.
pub fn parse_json_object(text: &str) -> (r: Option<Value>)
    ensures
        opt_json(r) == object_in(text@),
{
    let inner = trim(text);
    let bare = strip_code_fence(inner.as_str());
    match parse_value(bare.as_str()) {
        Some(value) => if value_is_object(&value) {
            Some(value)
        } else {
            None
        },
        None => None,
    }
}

/// The first of some variants that a text names, whatever the case of its
/// letters.
pub open spec fn variant_of(variants: Seq<Seq<char>>, got: Seq<char>) -> Option<Seq<char>>
    decreases variants.len(),
{
    if variants.len() == 0 {
        None
    } else if same_ignoring_case(variants[0], got) {
        Some(variants[0])
    } else {
        variant_of(variants.drop_first(), got)
    }
}

/// What a JSON value is as a value of a field type: the normalized value (the
/// case of a variant folded, bounds checked), or nothing where it doesn't fit.
pub open spec fn validated(ty: FieldType, j: Json) -> Option<Json>
    decreases ty, 0nat,
{
    match ty {
        FieldType::Text => match j.as_text() {
            Some(s) => Some(Json::Text(s)),
            None => None,
        },
        FieldType::Int => match j.as_int() {
            Some(i) => Some(int_json(i)),
            None => None,
        },
        FieldType::Real => match j.as_real() {
            Some(b) => Some(Json::Number(Number::Real(b))),
            None => None,
        },
        FieldType::RealBounded { min, max } => match j.as_real() {
            Some(b) => if min.at_most(Double { bits: b }) && (Double { bits: b }).at_most(max) {
                Some(Json::Number(Number::Real(b)))
            } else {
                None
            },
            None => None,
        },
        FieldType::Bool => match j.as_bool() {
            Some(b) => Some(Json::Bool(b)),
            None => None,
        },
        FieldType::OneOf(variants) => validated_variant(views(variants@), j),
        FieldType::Level(variants) => validated_variant(views(variants@), j),
        FieldType::List(inner) => match j.as_array() {
            Some(items) => Some(Json::Array(validated_items(*inner, items))),
            None => None,
        },
        FieldType::Nested(_) => None,
    }
}

pub open spec fn validated_variant(variants: Seq<Seq<char>>, j: Json) -> Option<Json> {
    match j.as_text() {
        Some(got) => match variant_of(variants, got) {
            Some(v) => Some(Json::Text(v)),
            None => None,
        },
        None => None,
    }
}

/// The items of a list that fit the type of its items.
pub open spec fn validated_items(ty: FieldType, items: Seq<Json>) -> Seq<Json>
    decreases ty, items.len(),
{
    if items.len() == 0 {
        Seq::empty()
    } else {
        let before = validated_items(ty, items.drop_last());
        match validated(ty, items.last()) {
            Some(j) => before.push(j),
            None => before,
        }
    }
}

/// Whether the values of a type are plain, with lists nested at most so deep.
pub open spec fn plain_type(ty: FieldType, depth: nat) -> bool
    decreases ty,
{
    match ty {
        FieldType::Real | FieldType::RealBounded { .. } => false,
        FieldType::List(inner) => depth > 0 && plain_type(*inner, (depth - 1) as nat),
        _ => true,
    }
}

proof fn lemma_validated_plain(ty: FieldType, j: Json, depth: nat)
    requires
        plain_type(ty, depth),
        validated(ty, j) is Some,
    ensures
        plain(validated(ty, j)->0, depth),
    decreases ty, 0nat,
{
    match ty {
        FieldType::List(inner) => {
            let items = validated_items(*inner, j.as_array()->0);
            lemma_items_plain(*inner, j.as_array()->0, (depth - 1) as nat);
            assert(validated(ty, j) == Some(Json::Array(items)));
            assert(plain(Json::Array(items), depth));
        },
        _ => {},
    }
}

proof fn lemma_items_plain(ty: FieldType, items: Seq<Json>, depth: nat)
    requires
        plain_type(ty, depth),
    ensures
        forall|i: int|
            0 <= i < validated_items(ty, items).len() ==> plain(
                #[trigger] validated_items(ty, items)[i],
                depth,
            ),
    decreases ty, items.len(),
{
    if items.len() > 0 {
        let before = validated_items(ty, items.drop_last());
        let now = validated_items(ty, items);
        lemma_items_plain(ty, items.drop_last(), depth);
        if validated(ty, items.last()) is Some {
            lemma_validated_plain(ty, items.last(), depth);
        }
        assert forall|i: int| 0 <= i < now.len() implies plain(#[trigger] now[i], depth) by {
            if i < before.len() {
                assert(now[i] == before[i]);
            }
        }
    }
}

fn find_variant(variants: &Vec<String>, got: &str) -> (r: Option<String>)
    ensures
        crate::text::opt_view(r) == variant_of(views(variants@), got@),
{
    let mut i: usize = 0;
    let ghost all = views(variants@);
    assert(all.skip(0) == all);
    while i < variants.len()
        invariant
            i <= variants.len(),
            all == views(variants@),
            variant_of(all, got@) == variant_of(all.skip(i as int), got@),
        decreases variants.len() - i,
    {
        if same_ignore_case(variants[i].as_str(), got) {
            return Some(variants[i].clone());
        }
        assert(all.skip(i as int).drop_first() == all.skip(i + 1));
        i += 1;
    }
    None
}

/// Validate a raw JSON value against a field type, returning the normalized
/// value or `None` if it doesn't fit.
pub fn validate_field(ty: &FieldType, value: &Value) -> (r: Option<Value>)
    ensures
        opt_json(r) == validated(*ty, json_of(*value)),
    decreases ty,
{
    match ty {
        FieldType::Text => match value_str(value) {
            Some(s) => Some(text_value(s)),
            None => None,
        },
        FieldType::Int => match value_int(value) {
            Some(i) => Some(int_value(i)),
            None => None,
        },
        FieldType::Real => value_as_real(value),
        FieldType::RealBounded { min, max } => match value_real(value) {
            Some(f) => if min.le(f) && f.le(*max) {
                value_as_real(value)
            } else {
                None
            },
            None => None,
        },
        FieldType::Bool => match value_bool(value) {
            Some(b) => Some(bool_value(b)),
            None => None,
        },
        FieldType::OneOf(variants) => validate_variant(variants, value),
        FieldType::Level(variants) => validate_variant(variants, value),
        FieldType::List(inner) => match value_items(value) {
            Some(items) => {
                let mut out: Vec<Value> = Vec::new();
                let ghost all = jsons(items@);
                let mut i: usize = 0;
                assert(jsons(out@) == validated_items(**inner, all.take(0)));
                while i < items.len()
                    invariant
                        i <= items.len(),
                        all == jsons(items@),
                        jsons(out@) == validated_items(**inner, all.take(i as int)),
                        decreases_to!(ty => **inner),
                    decreases items.len() - i,
                {
                    assert(all.take(i + 1).drop_last() == all.take(i as int));
                    match validate_field(&**inner, &items[i]) {
                        Some(item) => {
                            let ghost before = jsons(out@);
                            out.push(item);
                            assert(jsons(out@) == before.push(json_of(item)));
                        },
                        None => {},
                    }
                    i += 1;
                }
                assert(all.take(i as int) == all);
                Some(array_value(out))
            },
            None => None,
        },
        FieldType::Nested(_) => None,
    }
}

fn validate_variant(variants: &Vec<String>, value: &Value) -> (r: Option<Value>)
    ensures
        opt_json(r) == validated_variant(views(variants@), json_of(*value)),
{
    match value_str(value) {
        Some(got) => match find_variant(variants, got.as_str()) {
            Some(v) => Some(text_value(v)),
            None => None,
        },
        None => None,
    }
}

/// The value that an already normalized JSON value is, as a value of the
/// field's type.
pub open spec fn scalar_of(ty: FieldType, j: Json) -> ScalarView
    decreases ty, 0nat,
{
    match ty {
        FieldType::Text | FieldType::OneOf(_) | FieldType::Level(_) => match j.as_text() {
            Some(s) => ScalarView::Text(s),
            None => ScalarView::Null,
        },
        FieldType::Int => match j.as_int() {
            Some(i) => ScalarView::Int(i),
            None => ScalarView::Null,
        },
        FieldType::Real | FieldType::RealBounded { .. } => match j.as_real() {
            Some(b) => ScalarView::Real(Double { bits: b }),
            None => ScalarView::Null,
        },
        FieldType::Bool => match j.as_bool() {
            Some(b) => ScalarView::Bool(b),
            None => ScalarView::Null,
        },
        FieldType::List(inner) => match j.as_array() {
            Some(items) => ScalarView::List(scalars_of(*inner, items)),
            None => ScalarView::Null,
        },
        FieldType::Nested(_) => ScalarView::Null,
    }
}

pub open spec fn scalars_of(ty: FieldType, items: Seq<Json>) -> Seq<ScalarView>
    decreases ty, items.len(),
{
    if items.len() == 0 {
        Seq::empty()
    } else {
        scalars_of(ty, items.drop_last()).push(scalar_of(ty, items.last()))
    }
}

/// Convert an already normalized JSON value into a value of the field's type.
pub fn scalar_from_normalized(ty: &FieldType, value: &Value) -> (r: Scalar)
    ensures
        r@ == scalar_of(*ty, json_of(*value)),
        *ty is Bool ==> (json_of(*value) matches Json::Bool(b) ==> r@ == ScalarView::Bool(b)),
        *ty is Text || *ty is OneOf || *ty is Level ==> (json_of(*value) matches Json::Text(s)
            ==> r@ == ScalarView::Text(s)),
        *ty is Int ==> (json_of(*value) matches Json::Number(Number::Natural(n)) ==> n <= i64::MAX
            ==> r@ is Int && r@->Int_0 == n),
        *ty is Int ==> (json_of(*value) matches Json::Number(Number::Negative(n)) ==> r@
            == ScalarView::Int(n)),
        *ty is Real || *ty is RealBounded ==> (json_of(*value) matches Json::Number(
            Number::Real(b),
        ) ==> r@ == ScalarView::Real(Double { bits: b })),
    decreases ty,
{
    match ty {
        FieldType::Text | FieldType::OneOf(_) | FieldType::Level(_) => match value_str(value) {
            Some(s) => Scalar::Text(s),
            None => Scalar::Null,
        },
        FieldType::Int => match value_int(value) {
            Some(i) => Scalar::Int(i),
            None => Scalar::Null,
        },
        FieldType::Real | FieldType::RealBounded { .. } => match value_real(value) {
            Some(d) => Scalar::Real(d),
            None => Scalar::Null,
        },
        FieldType::Bool => match value_bool(value) {
            Some(b) => Scalar::Bool(b),
            None => Scalar::Null,
        },
        FieldType::List(inner) => match value_items(value) {
            Some(items) => {
                let mut out: Vec<Scalar> = Vec::new();
                let ghost all = jsons(items@);
                let mut i: usize = 0;
                assert(scalar_views(out@) == scalars_of(**inner, all.take(0)));
                while i < items.len()
                    invariant
                        i <= items.len(),
                        all == jsons(items@),
                        scalar_views(out@) == scalars_of(**inner, all.take(i as int)),
                        decreases_to!(ty => **inner),
                    decreases items.len() - i,
                {
                    assert(all.take(i + 1).drop_last() == all.take(i as int));
                    let ghost before = scalar_views(out@);
                    let item = scalar_from_normalized(&**inner, &items[i]);
                    out.push(item);
                    assert(scalar_views(out@) == before.push(item@));
                    i += 1;
                }
                assert(all.take(i as int) == all);
                Scalar::List(out)
            },
            None => Scalar::Null,
        },
        FieldType::Nested(_) => Scalar::Null,
    }
}


/// Fields that are generated, and cached, together.
#[derive(Debug)]
pub struct Unit {
    /// The positions of its members among the extracted fields.
    pub members: Vec<usize>,
    /// The hash of its definition, which keys its entries.
    pub hash: u64,
}

/// One extraction: the fields that are extracted, in the order of the columns
/// they fill, and the units in which they are generated.
#[derive(Debug)]
pub struct Extractor {
    pub target_name: String,
    pub fields: Vec<FieldSpec>,
    pub units: Vec<Unit>,
    pub model_id: ModelId,
    pub prompt_version: String,
}

/// One row's request: the fields to extract from the input. The instruction and
/// the schema are synthesized from the fields.
#[derive(Debug)]
pub struct ExtractRequest {
    pub fields: Vec<String>,
    pub input: String,
    pub max_tokens: usize,
}

/// A row that needs a model call, plus which units are still pending.
#[derive(Debug)]
pub struct PendingRow {
    pub row: usize,
    pub text: String,
    pub units: Vec<usize>,
}

/// The first step of a batch: what the cache settles, and what to ask.
#[derive(Debug)]
pub struct ExtractPlan {
    pub rows: usize,
    /// One column per field, of one value per row.
    pub columns: Vec<Vec<Scalar>>,
    pub requests: Vec<ExtractRequest>,
    pub pending: Vec<PendingRow>,
    pub cache_hits: usize,
}

/// The second step of a batch: the extracted columns.
#[derive(Debug)]
pub struct ExtractOutcome {
    pub columns: Vec<Vec<Scalar>>,
    pub rows_failed: usize,
    pub fields_failed: usize,
}

/// The columns, as views.
pub open spec fn column_views(columns: Seq<Vec<Scalar>>) -> Seq<Seq<ScalarView>> {
    columns.map_values(|c: Vec<Scalar>| scalar_views(c@))
}

/// The columns with one value replaced.
pub open spec fn with_cell(
    columns: Seq<Seq<ScalarView>>,
    field: int,
    row: int,
    value: ScalarView,
) -> Seq<Seq<ScalarView>> {
    columns.update(field, columns[field].update(row, value))
}

/// Columns of nothing but NULL.
pub open spec fn null_columns(fields: nat, rows: nat) -> Seq<Seq<ScalarView>> {
    Seq::new(fields, |f: int| Seq::new(rows, |i: int| ScalarView::Null))
}

/// A count, as far as a counter holds it.
pub open spec fn saturated(n: int) -> int {
    if n <= usize::MAX {
        n
    } else {
        usize::MAX as int
    }
}

/// What a [`PendingRow`] stands for.
pub struct PendingView {
    pub row: int,
    pub text: Seq<char>,
    pub units: Seq<int>,
}

impl View for PendingRow {
    type V = PendingView;

    open spec fn view(&self) -> PendingView {
        PendingView {
            row: self.row as int,
            text: self.text@,
            units: self.units@.map_values(|u: usize| u as int),
        }
    }
}

pub open spec fn pending_views(pending: Seq<PendingRow>) -> Seq<PendingView> {
    pending.map_values(|p: PendingRow| p@)
}

/// Where a batch stands while its answers are applied.
pub struct ExtractState {
    pub columns: Seq<Seq<ScalarView>>,
    pub cache: Contents,
    pub rows_failed: nat,
    pub fields_failed: nat,
}

impl Extractor {
    /// The members of every unit are extracted fields.
    pub open spec fn well_formed(&self) -> bool {
        forall|u: int, m: int|
            0 <= u < self.units.len() && 0 <= m < self.units[u].members.len()
                ==> #[trigger] self.units[u].members[m] < self.fields.len()
    }

    /// The field at a place of a unit.
    pub open spec fn member(&self, u: int, m: int) -> int {
        self.units[u].members[m] as int
    }

    pub open spec fn size(&self, u: int) -> nat {
        self.units[u].members@.len()
    }

    /// The name of the field at a place of a unit.
    pub open spec fn name_at(&self, u: int, m: int) -> Seq<char> {
        self.fields[self.member(u, m)].name@
    }

    /// No name stands at two places: the names of the fields differ, and no field
    /// is in two units.
    pub open spec fn told_apart(&self) -> bool {
        forall|u: int, m: int, v: int, k: int|
            0 <= u < self.units.len() && 0 <= m < self.size(u) && 0 <= v < self.units.len() && 0
                <= k < self.size(v) && #[trigger] self.name_at(u, m) == #[trigger] self.name_at(
                v,
                k,
            ) ==> u == v && m == k
    }

    /// Provenance: per-unit type hash, field, input, model and prompt scheme.
    pub open spec fn key(&self, u: int, m: int, text: Seq<char>) -> KeyView {
        KeyView {
            type_version: self.target_name@ + "@"@ + hexadecimal(self.units[u].hash as nat),
            field: self.fields[self.member(u, m)].name@,
            input_hash: input_hash(text),
            model_id: self.model_id@,
            prompt_version: self.prompt_version@,
        }
    }

    /// The cached value of a field, where there is one that reads as JSON.
    pub open spec fn cached(&self, u: int, m: int, text: Seq<char>, c: Contents) -> Option<Json> {
        match known(c, self.key(u, m, text)) {
            Some(raw) => json_parsed(raw),
            None => None,
        }
    }

    /// Whether the cache answers a whole unit: all members must hit, or it is
    /// pending.
    pub open spec fn unit_hit(&self, u: int, text: Seq<char>, c: Contents) -> bool {
        forall|m: int| 0 <= m < self.size(u) ==> (#[trigger] self.cached(u, m, text, c)) is Some
    }

    /// The columns with the first `n` members of a unit filled from the cache.
    pub open spec fn filled(
        &self,
        columns: Seq<Seq<ScalarView>>,
        u: int,
        n: nat,
        row: int,
        text: Seq<char>,
        c: Contents,
    ) -> Seq<Seq<ScalarView>>
        decreases n,
    {
        if n == 0 {
            columns
        } else {
            let m = n - 1;
            with_cell(
                self.filled(columns, u, m as nat, row, text, c),
                self.member(u, m),
                row,
                scalar_of(self.fields[self.member(u, m)].ty, self.cached(u, m, text, c)->0),
            )
        }
    }

    /// The columns with the first `n` units of a row read from the cache.
    pub open spec fn read(
        &self,
        columns: Seq<Seq<ScalarView>>,
        n: nat,
        row: int,
        text: Seq<char>,
        c: Contents,
    ) -> Seq<Seq<ScalarView>>
        decreases n,
    {
        if n == 0 {
            columns
        } else {
            let u = n - 1;
            let before = self.read(columns, u as nat, row, text, c);
            if self.unit_hit(u, text, c) {
                self.filled(before, u, self.size(u), row, text, c)
            } else {
                before
            }
        }
    }

    /// The pending units among the first `n`.
    pub open spec fn pending_units(&self, n: nat, text: Seq<char>, c: Contents) -> Seq<int>
        decreases n,
    {
        if n == 0 {
            Seq::empty()
        } else {
            let u = n - 1;
            let before = self.pending_units(u as nat, text, c);
            if self.unit_hit(u, text, c) {
                before
            } else {
                before.push(u)
            }
        }
    }

    /// How many fields of the first `n` units the cache answers.
    pub open spec fn hit_fields(&self, n: nat, text: Seq<char>, c: Contents) -> nat
        decreases n,
    {
        if n == 0 {
            0
        } else {
            let u = n - 1;
            self.hit_fields(u as nat, text, c) + if self.unit_hit(u, text, c) {
                self.size(u)
            } else {
                0
            }
        }
    }

    /// The columns that the cache gives for some rows.
    pub open spec fn planned_columns(&self, texts: Seq<Option<Seq<char>>>, rows: nat, c: Contents) -> Seq<
        Seq<ScalarView>,
    >
        decreases texts.len(),
    {
        if texts.len() == 0 {
            null_columns(self.fields@.len(), rows)
        } else {
            let before = self.planned_columns(texts.drop_last(), rows, c);
            match texts.last() {
                Some(t) => self.read(before, self.units@.len(), texts.len() - 1, t, c),
                None => before,
            }
        }
    }

    /// The rows that need a model call.
    pub open spec fn planned_rows(&self, texts: Seq<Option<Seq<char>>>, c: Contents) -> Seq<PendingView>
        decreases texts.len(),
    {
        if texts.len() == 0 {
            Seq::empty()
        } else {
            let before = self.planned_rows(texts.drop_last(), c);
            match texts.last() {
                Some(t) => {
                    let units = self.pending_units(self.units@.len(), t, c);
                    if units.len() == 0 {
                        before
                    } else {
                        before.push(PendingView { row: texts.len() - 1, text: t, units })
                    }
                },
                None => before,
            }
        }
    }

    /// How many fields the cache answers.
    pub open spec fn planned_hits(&self, texts: Seq<Option<Seq<char>>>, c: Contents) -> nat
        decreases texts.len(),
    {
        if texts.len() == 0 {
            0
        } else {
            self.planned_hits(texts.drop_last(), c) + (match texts.last() {
                Some(t) => self.hit_fields(self.units@.len(), t, c),
                None => 0,
            })
        }
    }

    /// The names of the first `n` members of a unit.
    pub open spec fn member_names(&self, u: int, n: nat) -> Seq<Seq<char>> {
        Seq::new(n, |m: int| self.fields[self.member(u, m)].name@)
    }

    /// The names of the fields of some units, one unit after another.
    pub open spec fn field_names(&self, units: Seq<int>) -> Seq<Seq<char>>
        decreases units.len(),
    {
        if units.len() == 0 {
            Seq::empty()
        } else {
            self.field_names(units.drop_last()) + self.member_names(
                units.last(),
                self.size(units.last()),
            )
        }
    }

    fn cache_key(&self, unit: usize, member: usize, text: &str) -> (r: CacheKey)
        requires
            self.well_formed(),
            unit < self.units.len(),
            member < self.size(unit as int),
        ensures
            r@ == self.key(unit as int, member as int, text@),
    {
        let mut type_version: String = self.target_name.clone();
        type_version.append("@");
        push_hex(&mut type_version, self.units[unit].hash);
        CacheKey {
            type_version,
            field: self.fields[self.units[unit].members[member]].name.clone(),
            input_hash: hash_input(text),
            model_id: self.model_id.copy(),
            prompt_version: self.prompt_version.clone(),
        }
    }

    /// Read a whole unit from the cache: all members must hit, or it is
    /// pending. Returns the members' values on a full hit.
    pub fn read_unit<C: SemanticCache>(&self, unit: usize, text: &str, cache: &C) -> (r: Option<
        Vec<Scalar>,
    >)
        requires
            self.well_formed(),
            unit < self.units.len(),
        ensures
            r is Some <==> self.unit_hit(unit as int, text@, cache.contents()),
            r matches Some(values) ==> values.len() == self.size(unit as int) && forall|m: int|
                0 <= m < values.len() ==> (#[trigger] values[m])@ == scalar_of(
                    self.fields[self.member(unit as int, m)].ty,
                    self.cached(unit as int, m, text@, cache.contents())->0,
                ),
    {
        let mut values: Vec<Scalar> = Vec::new();
        let ghost c = cache.contents();
        let ghost u = unit as int;
        let mut m: usize = 0;
        while m < self.units[unit].members.len()
            invariant
                self.well_formed(),
                unit < self.units.len(),
                u == unit,
                c == cache.contents(),
                m <= self.size(u),
                values.len() == m,
                forall|k: int|
                    0 <= k < m ==> (#[trigger] self.cached(u, k, text@, c)) is Some && values[k]@
                        == scalar_of(
                        self.fields[self.member(u, k)].ty,
                        self.cached(u, k, text@, c)->0,
                    ),
            decreases self.size(u) - m,
        {
            let key = self.cache_key(unit, m, text);
            let raw = match lookup(cache, &key) {
                Some(raw) => raw,
                None => {
                    assert(self.cached(u, m as int, text@, c) is None);
                    return None;
                },
            };
            let normalized = match parse_value(raw.as_str()) {
                Some(normalized) => normalized,
                None => {
                    assert(self.cached(u, m as int, text@, c) is None);
                    return None;
                },
            };
            let field: usize = self.units[unit].members[m];
            values.push(scalar_from_normalized(&self.fields[field].ty, &normalized));
            assert(self.cached(u, m as int, text@, c) == Some(json_of(normalized)));
            m += 1;
        }
        assert forall|k: int| 0 <= k < values.len() implies (#[trigger] values[k])@ == scalar_of(
            self.fields[self.member(u, k)].ty,
            self.cached(u, k, text@, c)->0,
        ) by {
            assert(self.cached(u, k, text@, c) is Some);
        }
        Some(values)
    }

    /// A unit's values are written to the cells of a row.
    fn fill_unit(
        &self,
        columns: &mut Vec<Vec<Scalar>>,
        unit: usize,
        row: usize,
        values: Vec<Scalar>,
        text: &str,
        rows: Ghost<nat>,
        c: Ghost<Contents>,
    )
        requires
            self.well_formed(),
            unit < self.units.len(),
            row < rows@,
            rectangular(column_views(old(columns)@), self.fields@.len(), rows@),
            values.len() == self.size(unit as int),
            forall|m: int|
                0 <= m < values.len() ==> (#[trigger] values[m])@ == scalar_of(
                    self.fields[self.member(unit as int, m)].ty,
                    self.cached(unit as int, m, text@, c@)->0,
                ),
        ensures
            rectangular(column_views(final(columns)@), self.fields@.len(), rows@),
            column_views(final(columns)@) == self.filled(
                column_views(old(columns)@),
                unit as int,
                self.size(unit as int),
                row as int,
                text@,
                c@,
            ),
    {
        let ghost fields = self.fields@.len();
        let ghost before = column_views(columns@);
        let ghost all = values@;
        let size: usize = values.len();
        let mut values = values;
        // The values are taken from the end of the list, so they are turned
        // round to go in order.
        let mut reversed: Vec<Scalar> = Vec::new();
        while values.len() > 0
            invariant
                values@ == all.take(values@.len() as int),
                values@.len() <= all.len(),
                reversed@.len() == all.len() - values@.len(),
                forall|k: int|
                    0 <= k < reversed@.len() ==> #[trigger] reversed@[k] == all[all.len() - 1 - k],
            decreases values.len(),
        {
            match values.pop() {
                Some(v) => {
                    reversed.push(v);
                },
                None => {},
            }
        }
        let mut m: usize = 0;
        while m < size
            invariant
                self.well_formed(),
                unit < self.units.len(),
                row < rows@,
                fields == self.fields@.len(),
                m <= size == all.len() == self.size(unit as int),
                reversed@.len() == size - m,
                forall|k: int|
                    0 <= k < reversed@.len() ==> #[trigger] reversed@[k] == all[size - 1 - k],
                forall|k: int|
                    0 <= k < all.len() ==> (#[trigger] all[k])@ == scalar_of(
                        self.fields[self.member(unit as int, k)].ty,
                        self.cached(unit as int, k, text@, c@)->0,
                    ),
                rectangular(column_views(columns@), fields, rows@),
                column_views(columns@) == self.filled(
                    before,
                    unit as int,
                    m as nat,
                    row as int,
                    text@,
                    c@,
                ),
            decreases size - m,
        {
            let field: usize = self.units[unit].members[m];
            match reversed.pop() {
                Some(v) => {
                    assert(v == all[m as int]);
                    assert(column_views(columns@)[field as int].len() == rows@);
                    proof {
                        lemma_with_cell(
                            column_views(columns@),
                            fields,
                            rows@,
                            field as int,
                            row as int,
                            v@,
                        );
                    }
                    set_cell(columns, field, row, v);
                },
                None => {},
            }
            m += 1;
        }
    }

    /// The names of a unit's fields are added to a list.
    fn push_names(&self, unit: usize, names: &mut Vec<String>)
        requires
            self.well_formed(),
            unit < self.units.len(),
        ensures
            views(final(names)@) == views(old(names)@) + self.member_names(
                unit as int,
                self.size(unit as int),
            ),
    {
        let ghost before = views(names@);
        let mut m: usize = 0;
        while m < self.units[unit].members.len()
            invariant
                self.well_formed(),
                unit < self.units.len(),
                m <= self.size(unit as int),
                views(names@) == before + self.member_names(unit as int, m as nat),
            decreases self.size(unit as int) - m,
        {
            let ghost now = views(names@);
            let field: usize = self.units[unit].members[m];
            names.push(self.fields[field].name.clone());
            assert(views(names@) == now.push(self.fields[field as int].name@));
            m += 1;
            assert(self.member_names(unit as int, m as nat) == self.member_names(
                unit as int,
                (m - 1) as nat,
            ).push(self.fields[field as int].name@));
        }
    }
}

/// Columns of nothing but NULL.
fn fresh_columns(fields: usize, rows: usize) -> (r: Vec<Vec<Scalar>>)
    ensures
        column_views(r@) == null_columns(fields as nat, rows as nat),
{
    let mut columns: Vec<Vec<Scalar>> = Vec::new();
    let mut f: usize = 0;
    while f < fields
        invariant
            f <= fields,
            column_views(columns@) == null_columns(f as nat, rows as nat),
        decreases fields - f,
    {
        let mut column: Vec<Scalar> = Vec::new();
        let mut i: usize = 0;
        while i < rows
            invariant
                i <= rows,
                scalar_views(column@) == Seq::new(i as nat, |k: int| ScalarView::Null),
            decreases rows - i,
        {
            let ghost now = scalar_views(column@);
            column.push(Scalar::Null);
            assert(scalar_views(column@) == now.push(ScalarView::Null));
            i += 1;
        }
        let ghost now = column_views(columns@);
        columns.push(column);
        assert(column_views(columns@) == now.push(scalar_views(column@)));
        f += 1;
        assert(null_columns(f as nat, rows as nat) == null_columns((f - 1) as nat, rows as nat).push(
            Seq::new(rows as nat, |k: int| ScalarView::Null),
        ));
    }
    columns
}

/// The columns have one value per field and row.
pub open spec fn rectangular(columns: Seq<Seq<ScalarView>>, fields: nat, rows: nat) -> bool {
    columns.len() == fields && forall|f: int| 0 <= f < fields ==> (#[trigger] columns[f]).len() == rows
}

/// One value of the columns is replaced.
fn set_cell(columns: &mut Vec<Vec<Scalar>>, field: usize, row: usize, value: Scalar)
    requires
        field < old(columns).len(),
        row < old(columns)[field as int].len(),
    ensures
        column_views(final(columns)@) == with_cell(
            column_views(old(columns)@),
            field as int,
            row as int,
            value@,
        ),
{
    let ghost before = column_views(columns@);
    let column: &mut Vec<Scalar> = &mut columns[field];
    let ghost had = scalar_views(column@);
    column.set(row, value);
    assert(scalar_views(column@) == had.update(row as int, value@));
    assert(column_views(columns@) == before.update(field as int, had.update(row as int, value@)));
}


proof fn lemma_with_cell(
    columns: Seq<Seq<ScalarView>>,
    fields: nat,
    rows: nat,
    f: int,
    row: int,
    v: ScalarView,
)
    requires
        rectangular(columns, fields, rows),
        0 <= f < fields,
        0 <= row < rows,
    ensures
        rectangular(with_cell(columns, f, row, v), fields, rows),
{
    let now = with_cell(columns, f, row, v);
    assert forall|g: int| 0 <= g < fields implies (#[trigger] now[g]).len() == rows by {
        if g != f {
            assert(now[g] == columns[g]);
        } else {
            assert(columns[f].len() == rows);
        }
    }
}

impl Extractor {
    /// Plans one row: fills what the cache answers and returns the units that
    /// it does not.
    fn plan_row<C: SemanticCache>(
        &self,
        columns: &mut Vec<Vec<Scalar>>,
        row: usize,
        text: &str,
        cache: &C,
        cache_hits: &mut usize,
        rows: usize,
    ) -> (r: Vec<usize>)
        requires
            self.well_formed(),
            row < rows,
            rectangular(column_views(old(columns)@), self.fields@.len(), rows as nat),
        ensures
            rectangular(column_views(final(columns)@), self.fields@.len(), rows as nat),
            column_views(final(columns)@) == self.read(
                column_views(old(columns)@),
                self.units@.len(),
                row as int,
                text@,
                cache.contents(),
            ),
            r@.map_values(|u: usize| u as int) == self.pending_units(
                self.units@.len(),
                text@,
                cache.contents(),
            ),
            forall|k: int| 0 <= k < r.len() ==> #[trigger] r[k] < self.units.len(),
            *final(cache_hits) == saturated(
                *old(cache_hits) + self.hit_fields(self.units@.len(), text@, cache.contents()),
            ),
    {
        let ghost c = cache.contents();
        let ghost start = column_views(columns@);
        let ghost had: int = *cache_hits as int;
        let ghost fields = self.fields@.len();
        let mut pending: Vec<usize> = Vec::new();
        let mut u: usize = 0;
        assert(pending@.map_values(|u: usize| u as int) == self.pending_units(0, text@, c));
        while u < self.units.len()
            invariant
                self.well_formed(),
                u <= self.units.len(),
                row < rows,
                fields == self.fields@.len(),
                c == cache.contents(),
                rectangular(column_views(columns@), fields, rows as nat),
                column_views(columns@) == self.read(start, u as nat, row as int, text@, c),
                pending@.map_values(|u: usize| u as int) == self.pending_units(u as nat, text@, c),
                forall|k: int| 0 <= k < pending.len() ==> #[trigger] pending[k] < self.units.len(),
                *cache_hits == saturated(had + self.hit_fields(u as nat, text@, c)),
            decreases self.units.len() - u,
        {
            match self.read_unit(u, text, cache) {
                Some(values) => {
                    *cache_hits = cache_hits.saturating_add(values.len());
                    self.fill_unit(columns, u, row, values, text, Ghost(rows as nat), Ghost(c));
                },
                None => {
                    let ghost before = pending@.map_values(|u: usize| u as int);
                    pending.push(u);
                    assert(pending@.map_values(|u: usize| u as int) == before.push(u as int));
                },
            }
            u += 1;
        }
        pending
    }

    /// Plans one batch. A NULL source never reaches the model, and all its
    /// fields stay NULL. A unit that the cache answers in full is filled from
    /// it; every other unit of the row is pending.
    pub fn plan_batch<C: SemanticCache>(&self, texts: &Vec<Option<String>>, cache: &C) -> (r:
        ExtractPlan)
        requires
            self.well_formed(),
        ensures
            ({
                let col = opt_views(texts@);
                let c = cache.contents();
                &&& r.rows == texts.len()
                &&& r.fits(self)
                &&& column_views(r.columns@) == self.planned_columns(col, texts@.len(), c)
                &&& pending_views(r.pending@) == self.planned_rows(col, c)
                &&& r.requests.len() == r.pending.len()
                &&& forall|j: int|
                    0 <= j < r.requests.len() ==> {
                        let p = r.pending[j]@;
                        views((#[trigger] r.requests[j]).fields@) == self.field_names(p.units)
                            && r.requests[j].input@ == p.text && r.requests[j].max_tokens
                            == EXTRACT_MAX_TOKENS
                    }
                &&& r.cache_hits == saturated(self.planned_hits(col, c) as int)
            }),
    {
        let rows: usize = texts.len();
        let mut columns = fresh_columns(self.fields.len(), rows);
        let mut requests: Vec<ExtractRequest> = Vec::new();
        let mut pending: Vec<PendingRow> = Vec::new();
        let mut cache_hits: usize = 0;
        let ghost col = opt_views(texts@);
        let ghost c = cache.contents();
        let ghost fields = self.fields@.len();
        let mut row: usize = 0;
        assert(pending_views(pending@) == self.planned_rows(col.take(0), c));
        while row < rows
            invariant
                self.well_formed(),
                row <= rows == texts.len(),
                col == opt_views(texts@),
                c == cache.contents(),
                fields == self.fields@.len(),
                rectangular(column_views(columns@), fields, rows as nat),
                column_views(columns@) == self.planned_columns(
                    col.take(row as int),
                    rows as nat,
                    c,
                ),
                pending_views(pending@) == self.planned_rows(col.take(row as int), c),
                forall|j: int|
                    0 <= j < pending.len() ==> self.pending_fits(#[trigger] pending[j], rows as nat),
                requests.len() == pending.len(),
                forall|j: int|
                    0 <= j < requests.len() ==> {
                        let p = pending[j]@;
                        views((#[trigger] requests[j]).fields@) == self.field_names(p.units)
                            && requests[j].input@ == p.text && requests[j].max_tokens
                            == EXTRACT_MAX_TOKENS
                    },
                cache_hits == saturated(self.planned_hits(col.take(row as int), c) as int),
            decreases rows - row,
        {
            assert(col.take(row + 1).drop_last() == col.take(row as int));
            assert(col.take(row + 1).last() == col[row as int]);
            if let Some(text) = &texts[row] {
                assert(col[row as int] == Some(text@));
                let units = self.plan_row(
                    &mut columns,
                    row,
                    text.as_str(),
                    cache,
                    &mut cache_hits,
                    rows,
                );
                if units.len() > 0 {
                    let mut names: Vec<String> = Vec::new();
                    let ghost all = units@.map_values(|u: usize| u as int);
                    let mut k: usize = 0;
                    assert(views(names@) == self.field_names(all.take(0)));
                    while k < units.len()
                        invariant
                            self.well_formed(),
                            k <= units.len(),
                            all == units@.map_values(|u: usize| u as int),
                            forall|k: int|
                                0 <= k < units.len() ==> #[trigger] units[k] < self.units.len(),
                            views(names@) == self.field_names(all.take(k as int)),
                        decreases units.len() - k,
                    {
                        assert(all.take(k + 1).drop_last() == all.take(k as int));
                        self.push_names(units[k], &mut names);
                        k += 1;
                    }
                    assert(all.take(k as int) == all);
                    let ghost before = pending_views(pending@);
                    requests.push(
                        ExtractRequest {
                            fields: names,
                            input: text.clone(),
                            max_tokens: EXTRACT_MAX_TOKENS,
                        },
                    );
                    pending.push(PendingRow { row, text: text.clone(), units });
                    assert(pending_views(pending@) == before.push(pending[pending.len() - 1]@));
                }
            }
            row += 1;
        }
        assert(col.take(row as int) == col);
        ExtractPlan { rows, columns, requests, pending, cache_hits }
    }

    /// A pending row is a row of the batch, and its units are units of the
    /// extraction.
    pub open spec fn pending_fits(&self, p: PendingRow, rows: nat) -> bool {
        p.row < rows && forall|k: int|
            0 <= k < p.units.len() ==> #[trigger] p.units[k] < self.units.len()
    }

    /// What an answer gives for a member of a unit.
    pub open spec fn decoded(&self, u: int, m: int, object: Json) -> Option<Json> {
        match object.member(self.fields[self.member(u, m)].name@) {
            Some(j) => validated(self.fields[self.member(u, m)].ty, j),
            None => None,
        }
    }

    /// Whether the values of every member of a unit are plain.
    pub open spec fn unit_plain(&self, u: int) -> bool {
        forall|m: int|
            0 <= m < self.size(u) ==> plain_type(
                self.fields[#[trigger] self.member(u, m)].ty,
                MAX_NESTING as nat,
            )
    }

    /// Whether each value that an answer gives for a unit is what its text, as
    /// it is cached, parses to.
    pub open spec fn reads_back(&self, u: int, object: Json) -> bool {
        forall|m: int|
            0 <= m < self.size(u) && (#[trigger] self.decoded(u, m, object)) is Some ==> json_parsed(
                json_written(self.decoded(u, m, object)->0),
            ) == self.decoded(u, m, object)
    }

    /// The same of an answer as the model gives it.
    pub open spec fn answer_reads_back(&self, u: int, answer: Option<Seq<char>>) -> bool {
        match answered(answer) {
            Some(object) => self.reads_back(u, object),
            None => true,
        }
    }

    /// Whether every member of a unit validated.
    pub open spec fn unit_valid(&self, u: int, object: Json) -> bool {
        forall|m: int| 0 <= m < self.size(u) ==> (#[trigger] self.decoded(u, m, object)) is Some
    }

    /// The columns with the first `n` members of a unit written from an answer.
    pub open spec fn written(
        &self,
        columns: Seq<Seq<ScalarView>>,
        u: int,
        n: nat,
        row: int,
        object: Json,
    ) -> Seq<Seq<ScalarView>>
        decreases n,
    {
        if n == 0 {
            columns
        } else {
            let m = n - 1;
            let before = self.written(columns, u, m as nat, row, object);
            match self.decoded(u, m, object) {
                Some(j) => with_cell(
                    before,
                    self.member(u, m),
                    row,
                    scalar_of(self.fields[self.member(u, m)].ty, j),
                ),
                None => before,
            }
        }
    }

    /// How many of the first `n` members of a unit did not validate.
    pub open spec fn invalid(&self, u: int, n: nat, object: Json) -> nat
        decreases n,
    {
        if n == 0 {
            0
        } else {
            self.invalid(u, (n - 1) as nat, object) + if self.decoded(u, n - 1, object) is None {
                1nat
            } else {
                0nat
            }
        }
    }

    /// The cache with the first `n` members of a valid unit stored.
    pub open spec fn stored(
        &self,
        c: Contents,
        u: int,
        n: nat,
        text: Seq<char>,
        object: Json,
    ) -> Contents
        decreases n,
    {
        if n == 0 {
            c
        } else {
            let m = n - 1;
            self.stored(c, u, m as nat, text, object).insert(
                self.key(u, m, text),
                ValueView::Value(json_written(self.decoded(u, m, object)->0)),
            )
        }
    }

    /// A unit's answer is applied: its valid members are written, and the unit
    /// is cached only if every member validated. Where the cache answers the unit
    /// by then, for the same was asked before, that first answer stands.
    pub open spec fn unit_applied(
        &self,
        s: ExtractState,
        u: int,
        row: int,
        text: Seq<char>,
        object: Json,
    ) -> ExtractState {
        let own = self.written(s.columns, u, self.size(u), row, object);
        let valid = self.unit_valid(u, object);
        let known_by_now = self.unit_hit(u, text, s.cache);
        ExtractState {
            columns: if valid && known_by_now {
                self.filled(own, u, self.size(u), row, text, s.cache)
            } else {
                own
            },
            cache: if valid && !known_by_now {
                self.stored(s.cache, u, self.size(u), text, object)
            } else {
                s.cache
            },
            rows_failed: s.rows_failed,
            fields_failed: s.fields_failed + self.invalid(u, self.size(u), object),
        }
    }

    pub open spec fn units_applied(
        &self,
        s: ExtractState,
        units: Seq<int>,
        row: int,
        text: Seq<char>,
        object: Json,
    ) -> ExtractState
        decreases units.len(),
    {
        if units.len() == 0 {
            s
        } else {
            self.unit_applied(
                self.units_applied(s, units.drop_last(), row, text, object),
                units.last(),
                row,
                text,
                object,
            )
        }
    }

    /// A row's answer is applied: without a JSON object the row has failed, and
    /// all its pending fields stay as they were.
    pub open spec fn row_applied(
        &self,
        s: ExtractState,
        p: PendingView,
        answer: Option<Seq<char>>,
    ) -> ExtractState {
        match answered(answer) {
            Some(object) => self.units_applied(s, p.units, p.row, p.text, object),
            None => ExtractState { rows_failed: s.rows_failed + 1, ..s },
        }
    }

    pub open spec fn rows_applied(
        &self,
        s: ExtractState,
        pending: Seq<PendingView>,
        answers: Seq<Option<Seq<char>>>,
    ) -> ExtractState
        decreases answers.len(),
    {
        if answers.len() == 0 {
            s
        } else {
            self.row_applied(
                self.rows_applied(s, pending.drop_last(), answers.drop_last()),
                pending.last(),
                answers.last(),
            )
        }
    }

    /// Decode and validate one unit's fields from the model's JSON object,
    /// writing the values and caching the unit only if every member validated:
    /// a transient partial failure never permanently NULLs a sibling.
    fn apply_unit<C: SemanticCache>(
        &self,
        columns: &mut Vec<Vec<Scalar>>,
        unit: usize,
        row: usize,
        text: &str,
        object: &Value,
        cache: &mut C,
        fields_failed: &mut usize,
        rows: Ghost<nat>,
    )
        requires
            self.well_formed(),
            unit < self.units.len(),
            row < rows@,
            rectangular(column_views(old(columns)@), self.fields@.len(), rows@),
        ensures
            rectangular(column_views(final(columns)@), self.fields@.len(), rows@),
            ({
                let s = ExtractState {
                    columns: column_views(old(columns)@),
                    cache: old(cache).contents(),
                    rows_failed: 0,
                    fields_failed: 0,
                };
                let t = self.unit_applied(s, unit as int, row as int, text@, json_of(*object));
                &&& column_views(final(columns)@) == t.columns
                &&& final(cache).contents() == t.cache
                &&& *final(fields_failed) == saturated(*old(fields_failed) + t.fields_failed)
            }),
            self.unit_plain(unit as int) ==> self.reads_back(unit as int, json_of(*object)),
    {
        let ghost u = unit as int;
        let ghost o = json_of(*object);
        let ghost start = column_views(columns@);
        let ghost had: int = *fields_failed as int;
        let ghost fields = self.fields@.len();
        let mut decoded: Vec<String> = Vec::new();
        let mut all_valid: bool = true;
        let mut m: usize = 0;
        while m < self.units[unit].members.len()
            invariant
                self.well_formed(),
                unit < self.units.len(),
                u == unit,
                row < rows@,
                o == json_of(*object),
                fields == self.fields@.len(),
                m <= self.size(u),
                rectangular(column_views(columns@), fields, rows@),
                column_views(columns@) == self.written(start, u, m as nat, row as int, o),
                *fields_failed == saturated(had + self.invalid(u, m as nat, o)),
                all_valid == (forall|k: int|
                    0 <= k < m ==> (#[trigger] self.decoded(u, k, o)) is Some),
                all_valid ==> decoded.len() == m && forall|k: int|
                    0 <= k < m ==> (#[trigger] decoded[k])@ == json_written(
                        self.decoded(u, k, o)->0,
                    ),
                self.unit_plain(u) ==> forall|k: int|
                    0 <= k < m && (#[trigger] self.decoded(u, k, o)) is Some ==> json_parsed(
                        json_written(self.decoded(u, k, o)->0),
                    ) == self.decoded(u, k, o),
            decreases self.size(u) - m,
        {
            let field: usize = self.units[unit].members[m];
            let raw = value_member(object, self.fields[field].name.as_str());
            let valid: Option<Value> = match raw {
                Some(v) => validate_field(&self.fields[field].ty, v),
                None => None,
            };
            assert(opt_json(valid) == self.decoded(u, m as int, o));
            match valid {
                Some(normalized) => {
                    let scalar = scalar_from_normalized(&self.fields[field].ty, &normalized);
                    assert(column_views(columns@)[field as int].len() == rows@);
                    proof {
                        lemma_with_cell(
                            column_views(columns@),
                            fields,
                            rows@,
                            field as int,
                            row as int,
                            scalar@,
                        );
                    }
                    set_cell(columns, field, row, scalar);
                    decoded.push(value_text(&normalized));
                    assert(self.decoded(u, m as int, o) == Some(json_of(normalized)));
                    proof {
                        if self.unit_plain(u) {
                            assert(self.member(u, m as int) == field);
                            lemma_validated_plain(
                                self.fields[field as int].ty,
                                o.member(self.fields[field as int].name@)->0,
                                MAX_NESTING as nat,
                            );
                        }
                    }
                },
                None => {
                    all_valid = false;
                    *fields_failed = fields_failed.saturating_add(1);
                    assert(self.decoded(u, m as int, o) is None);
                },
            }
            m += 1;
        }
        assert(all_valid == self.unit_valid(u, o));
        if all_valid {
            let ghost c = cache.contents();
            if let Some(values) = self.read_unit(unit, text, cache) {
                self.fill_unit(columns, unit, row, values, text, rows, Ghost(c));
                return;
            }
            let mut k: usize = 0;
            while k < decoded.len()
                invariant
                    self.well_formed(),
                    unit < self.units.len(),
                    u == unit,
                    o == json_of(*object),
                    k <= decoded.len() == self.size(u),
                    forall|i: int|
                        0 <= i < decoded.len() ==> (#[trigger] decoded[i])@ == json_written(
                            self.decoded(u, i, o)->0,
                        ),
                    cache.contents() == self.stored(c, u, k as nat, text@, o),
                decreases decoded.len() - k,
            {
                let key = self.cache_key(unit, k, text);
                cache.put(key, CachedValue::Value(decoded[k].clone()));
                k += 1;
            }
        }
    }

    /// Fills a planned batch from the model's answers. A model error or an
    /// unparseable response leaves the row's pending fields NULL.
    pub fn apply<C: SemanticCache>(&self, plan: ExtractPlan, answers: &Vec<Answer>, cache: &mut C) -> (r:
        ExtractOutcome)
        requires
            self.well_formed(),
            plan.fits(self),
            answers.len() == plan.pending.len(),
        ensures
            ({
                let s = self.rows_applied(
                    ExtractState {
                        columns: column_views(plan.columns@),
                        cache: old(cache).contents(),
                        rows_failed: 0,
                        fields_failed: 0,
                    },
                    pending_views(plan.pending@),
                    answer_texts(answers@),
                );
                &&& column_views(r.columns@) == s.columns
                &&& final(cache).contents() == s.cache
                &&& r.rows_failed == s.rows_failed
                &&& r.fields_failed == saturated(s.fields_failed as int)
            }),
            forall|j: int, i: int|
                0 <= j < plan.pending.len() && 0 <= i < plan.pending[j]@.units.len()
                    && self.unit_plain(plan.pending[j]@.units[i]) ==> self.answer_reads_back(
                    #[trigger] plan.pending[j]@.units[i],
                    answer_text(answers[j]),
                ),
    {
        let ghost rows = plan.rows as nat;
        let ghost s0 = ExtractState {
            columns: column_views(plan.columns@),
            cache: cache.contents(),
            rows_failed: 0,
            fields_failed: 0,
        };
        let ghost said = answer_texts(answers@);
        let ghost asked = pending_views(plan.pending@);
        let ExtractPlan { rows: _, columns, requests: _, pending, cache_hits: _ } = plan;
        let mut columns = columns;
        let mut rows_failed: usize = 0;
        let mut fields_failed: usize = 0;
        let mut j: usize = 0;
        while j < pending.len()
            invariant
                self.well_formed(),
                j <= pending.len() == answers.len(),
                asked == pending_views(pending@),
                said == answer_texts(answers@),
                forall|k: int|
                    0 <= k < pending.len() ==> self.pending_fits(#[trigger] pending[k], rows),
                rectangular(column_views(columns@), self.fields@.len(), rows),
                ({
                    let s = self.rows_applied(s0, asked.take(j as int), said.take(j as int));
                    &&& column_views(columns@) == s.columns
                    &&& cache.contents() == s.cache
                    &&& rows_failed == s.rows_failed
                    &&& rows_failed <= j
                    &&& fields_failed == saturated(s.fields_failed as int)
                }),
                forall|k: int, i: int|
                    0 <= k < j && 0 <= i < pending[k]@.units.len() && self.unit_plain(
                        pending[k]@.units[i],
                    ) ==> self.answer_reads_back(
                        #[trigger] pending[k]@.units[i],
                        answer_text(answers[k]),
                    ),
            decreases pending.len() - j,
        {
            assert(asked.take(j + 1).drop_last() == asked.take(j as int));
            assert(said.take(j + 1).drop_last() == said.take(j as int));
            assert(asked[j as int] == pending[j as int]@);
            assert(said[j as int] == answer_text(answers[j as int]));
            let ghost s = self.rows_applied(s0, asked.take(j as int), said.take(j as int));
            let object: Option<Value> = match &answers[j] {
                Ok(completion) => parse_json_object(completion.text.as_str()),
                Err(_) => None,
            };
            match object {
                None => {
                    rows_failed = rows_failed + 1;
                },
                Some(object) => {
                    let p = &pending[j];
                    let ghost units = p@.units;
                    let ghost o = json_of(object);
                    let mut k: usize = 0;
                    assert(units.take(0) =~= Seq::<int>::empty());
                    while k < p.units.len()
                        invariant
                            self.well_formed(),
                            k <= p.units.len(),
                            units == p@.units,
                            o == json_of(object),
                            self.pending_fits(*p, rows),
                            rectangular(column_views(columns@), self.fields@.len(), rows),
                            ({
                                let t = self.units_applied(
                                    s,
                                    units.take(k as int),
                                    p.row as int,
                                    p.text@,
                                    o,
                                );
                                &&& column_views(columns@) == t.columns
                                &&& cache.contents() == t.cache
                                &&& rows_failed == t.rows_failed
                                &&& fields_failed == saturated(t.fields_failed as int)
                            }),
                            forall|i: int|
                                0 <= i < k && self.unit_plain(#[trigger] units[i])
                                    ==> self.reads_back(units[i], o),
                        decreases p.units.len() - k,
                    {
                        assert(units.take(k + 1).drop_last() == units.take(k as int));
                        assert(units[k as int] == p.units[k as int] as int);
                        self.apply_unit(
                            &mut columns,
                            p.units[k],
                            p.row,
                            p.text.as_str(),
                            &object,
                            cache,
                            &mut fields_failed,
                            Ghost(rows),
                        );
                        k += 1;
                    }
                    assert(units.take(k as int) == units);
                },
            }
            j += 1;
        }
        assert(asked.take(j as int) == asked);
        assert(said.take(j as int) == said);
        ExtractOutcome { columns, rows_failed, fields_failed }
    }
}

impl ExtractPlan {
    /// The columns are those of the extraction, and the pending rows are rows of
    /// the batch.
    pub open spec fn fits(&self, e: &Extractor) -> bool {
        rectangular(column_views(self.columns@), e.fields@.len(), self.rows as nat) && forall|
            j: int,
        |
            0 <= j < self.pending.len() ==> e.pending_fits(
                #[trigger] self.pending[j],
                self.rows as nat,
            )
    }
}


/// What is known of a key after a unit is stored: what was known before, or what
/// a member was stored as, and the latter where it is a member's key.
proof fn lemma_stored(
    e: &Extractor,
    c: Contents,
    u: int,
    n: nat,
    text: Seq<char>,
    object: Json,
    k: KeyView,
)
    ensures
        ({
            let after = e.stored(c, u, n, text, object);
            ||| known(after, k) == known(c, k) && forall|m: int|
                0 <= m < n ==> #[trigger] e.key(u, m, text) != k
            ||| exists|m: int|
                0 <= m < n && e.key(u, m, text) == k && known(after, k) == Some(
                    json_written((#[trigger] e.decoded(u, m, object))->0),
                )
        }),
    decreases n,
{
    if n > 0 {
        let last = n - 1;
        lemma_stored(e, c, u, last as nat, text, object, k);
        if e.key(u, last, text) == k {
            assert(known(e.stored(c, u, n, text, object), k) == Some(
                json_written(e.decoded(u, last, object)->0),
            ));
        }
    }
}

/// A unit is cached whole or not at all: a partial failure leaves the cache as
/// it was, so it never permanently NULLs a sibling; and a valid unit is a full
/// hit from then on. What is read then is what the cache held before, where it
/// did, else what was written, where the names of the members differ.
pub proof fn a_unit_is_cached_whole_or_not_at_all(
    e: &Extractor,
    s: ExtractState,
    u: int,
    row: int,
    text: Seq<char>,
    object: Json,
)
    requires
        e.reads_back(u, object),
    ensures
        ({
            let after = e.unit_applied(s, u, row, text, object).cache;
            &&& !e.unit_valid(u, object) || e.unit_hit(u, text, s.cache) ==> after == s.cache
            &&& e.unit_valid(u, object) ==> e.unit_hit(u, text, after)
            &&& e.unit_valid(u, object) && !e.unit_hit(u, text, s.cache) && e.member_names(
                u,
                e.size(u),
            ).no_duplicates() ==> forall|m: int|
                0 <= m < e.size(u) ==> #[trigger] e.cached(u, m, text, after) == e.decoded(
                    u,
                    m,
                    object,
                )
        }),
{
    if e.unit_valid(u, object) && !e.unit_hit(u, text, s.cache) {
        let after = e.unit_applied(s, u, row, text, object).cache;
        let names = e.member_names(u, e.size(u));
        assert forall|m: int| 0 <= m < e.size(u) implies (#[trigger] e.cached(
            u,
            m,
            text,
            after,
        )) is Some && (names.no_duplicates() ==> e.cached(u, m, text, after) == e.decoded(
            u,
            m,
            object,
        )) by {
            lemma_stored(e, s.cache, u, e.size(u), text, object, e.key(u, m, text));
            let k = choose|k: int|
                0 <= k < e.size(u) && e.key(u, k, text) == e.key(u, m, text) && known(
                    after,
                    e.key(u, m, text),
                ) == Some(json_written((#[trigger] e.decoded(u, k, object))->0));
            assert(e.decoded(u, k, object) is Some);
            assert(names[k] == names[m]);
        }
    }
}

/// Applying a unit's answer keeps what the cache answers, only counts failures
/// up, and leaves the unit answered unless it counts one.
proof fn lemma_unit_kept(
    e: &Extractor,
    s: ExtractState,
    u: int,
    row: int,
    text: Seq<char>,
    object: Json,
)
    requires
        e.reads_back(u, object),
    ensures
        ({
            let t = e.unit_applied(s, u, row, text, object);
            &&& forall|v: int, x: Seq<char>| #[trigger]
                e.unit_hit(v, x, s.cache) ==> e.unit_hit(v, x, t.cache)
            &&& t.rows_failed == s.rows_failed
            &&& t.fields_failed >= s.fields_failed
            &&& t.fields_failed == s.fields_failed ==> e.unit_hit(u, text, t.cache)
        }),
{
    let t = e.unit_applied(s, u, row, text, object);
    lemma_all_valid(e, u, e.size(u), object);
    a_unit_is_cached_whole_or_not_at_all(e, s, u, row, text, object);
    assert forall|v: int, x: Seq<char>| #[trigger]
        e.unit_hit(v, x, s.cache) implies e.unit_hit(v, x, t.cache) by {
        assert forall|m: int| 0 <= m < e.size(v) implies (#[trigger] e.cached(
            v,
            m,
            x,
            t.cache,
        )) is Some by {
            assert(e.cached(v, m, x, s.cache) is Some);
            if e.unit_valid(u, object) && !e.unit_hit(u, text, s.cache) {
                let k = e.key(v, m, x);
                lemma_stored(e, s.cache, u, e.size(u), text, object, k);
                if known(t.cache, k) != known(s.cache, k) {
                    let i = choose|i: int|
                        0 <= i < e.size(u) && e.key(u, i, text) == k && known(t.cache, k) == Some(
                            json_written((#[trigger] e.decoded(u, i, object))->0),
                        );
                    assert(e.decoded(u, i, object) is Some);
                }
            }
        }
    }
}

proof fn lemma_all_valid(e: &Extractor, u: int, n: nat, object: Json)
    ensures
        e.invalid(u, n, object) == 0 ==> forall|m: int|
            0 <= m < n ==> (#[trigger] e.decoded(u, m, object)) is Some,
    decreases n,
{
    if n > 0 {
        lemma_all_valid(e, u, (n - 1) as nat, object);
    }
}

proof fn lemma_units_kept(
    e: &Extractor,
    s: ExtractState,
    units: Seq<int>,
    row: int,
    text: Seq<char>,
    object: Json,
)
    requires
        forall|i: int| 0 <= i < units.len() ==> e.reads_back(#[trigger] units[i], object),
    ensures
        ({
            let t = e.units_applied(s, units, row, text, object);
            &&& forall|v: int, x: Seq<char>| #[trigger]
                e.unit_hit(v, x, s.cache) ==> e.unit_hit(v, x, t.cache)
            &&& t.rows_failed == s.rows_failed
            &&& t.fields_failed >= s.fields_failed
            &&& t.fields_failed == s.fields_failed ==> forall|i: int|
                0 <= i < units.len() ==> e.unit_hit(#[trigger] units[i], text, t.cache)
        }),
    decreases units.len(),
{
    if units.len() > 0 {
        let before = units.drop_last();
        assert forall|i: int| 0 <= i < before.len() implies e.reads_back(
            #[trigger] before[i],
            object,
        ) by {
            assert(before[i] == units[i]);
        }
        lemma_units_kept(e, s, before, row, text, object);
        let r = e.units_applied(s, before, row, text, object);
        let t = e.units_applied(s, units, row, text, object);
        assert(e.reads_back(units[units.len() - 1], object));
        lemma_unit_kept(e, r, units.last(), row, text, object);
        if t.fields_failed == s.fields_failed {
            assert forall|i: int| 0 <= i < units.len() implies e.unit_hit(
                #[trigger] units[i],
                text,
                t.cache,
            ) by {
                if i < before.len() {
                    assert(e.unit_hit(before[i], text, r.cache));
                }
            }
        }
    }
}

proof fn lemma_rows_kept(
    e: &Extractor,
    s: ExtractState,
    pending: Seq<PendingView>,
    answers: Seq<Option<Seq<char>>>,
)
    requires
        pending.len() == answers.len(),
        forall|j: int, i: int|
            0 <= j < pending.len() && 0 <= i < pending[j].units.len() ==> e.answer_reads_back(
                #[trigger] pending[j].units[i],
                answers[j],
            ),
    ensures
        ({
            let t = e.rows_applied(s, pending, answers);
            &&& forall|v: int, x: Seq<char>| #[trigger]
                e.unit_hit(v, x, s.cache) ==> e.unit_hit(v, x, t.cache)
            &&& t.rows_failed >= s.rows_failed
            &&& t.fields_failed >= s.fields_failed
            &&& t.rows_failed == s.rows_failed && t.fields_failed == s.fields_failed
                ==> forall|j: int, i: int|
                0 <= j < pending.len() && 0 <= i < pending[j].units.len() ==> e.unit_hit(
                    #[trigger] pending[j].units[i],
                    pending[j].text,
                    t.cache,
                )
        }),
    decreases answers.len(),
{
    if answers.len() > 0 {
        let before = pending.drop_last();
        let p = pending.last();
        assert forall|j: int, i: int|
            0 <= j < before.len() && 0 <= i < before[j].units.len() implies e.answer_reads_back(
            #[trigger] before[j].units[i],
            answers.drop_last()[j],
        ) by {
            assert(e.answer_reads_back(pending[j].units[i], answers[j]));
        }
        lemma_rows_kept(e, s, before, answers.drop_last());
        let r = e.rows_applied(s, before, answers.drop_last());
        let t = e.rows_applied(s, pending, answers);
        match answered(answers.last()) {
            Some(object) => {
                assert forall|i: int| 0 <= i < p.units.len() implies e.reads_back(
                    #[trigger] p.units[i],
                    object,
                ) by {
                    assert(e.answer_reads_back(
                        pending[pending.len() - 1].units[i],
                        answers[pending.len() - 1],
                    ));
                }
                lemma_units_kept(e, r, p.units, p.row, p.text, object);
            },
            None => {},
        }
        if t.rows_failed == s.rows_failed && t.fields_failed == s.fields_failed {
            assert forall|j: int, i: int|
                0 <= j < pending.len() && 0 <= i < pending[j].units.len() implies e.unit_hit(
                #[trigger] pending[j].units[i],
                pending[j].text,
                t.cache,
            ) by {
                if j < before.len() {
                    assert(e.unit_hit(before[j].units[i], before[j].text, r.cache));
                }
            }
        }
    }
}

proof fn lemma_pending_units(e: &Extractor, n: nat, text: Seq<char>, c: Contents, u: int)
    ensures
        e.pending_units(n, text, c).contains(u) <==> 0 <= u < n && !e.unit_hit(u, text, c),
    decreases n,
{
    if n > 0 {
        let m = (n - 1) as nat;
        let before = e.pending_units(m, text, c);
        let now = e.pending_units(n, text, c);
        lemma_pending_units(e, m, text, c, u);
        if before.contains(u) {
            let k = choose|k: int| 0 <= k < before.len() && before[k] == u;
            assert(now[k] == u);
        }
        if u == m && !e.unit_hit(u, text, c) {
            assert(now[now.len() - 1] == u);
        }
    }
}

/// The rows that are planned for a text that has a pending unit.
proof fn lemma_row_planned(e: &Extractor, texts: Seq<Option<Seq<char>>>, c: Contents, row: int) -> (j:
    int)
    requires
        0 <= row < texts.len(),
        texts[row] is Some,
        e.pending_units(e.units@.len(), texts[row]->0, c).len() > 0,
    ensures
        0 <= j < e.planned_rows(texts, c).len(),
        e.planned_rows(texts, c)[j].row == row,
        e.planned_rows(texts, c)[j].text == texts[row]->0,
        e.planned_rows(texts, c)[j].units == e.pending_units(e.units@.len(), texts[row]->0, c),
    decreases texts.len(),
{
    let now = e.planned_rows(texts, c);
    if row == texts.len() - 1 {
        now.len() - 1
    } else {
        let before = e.planned_rows(texts.drop_last(), c);
        assert(texts.drop_last()[row] == texts[row]);
        let j = lemma_row_planned(e, texts.drop_last(), c, row);
        assert(now[j] == before[j]);
        j
    }
}

proof fn lemma_planned_rows(e: &Extractor, texts: Seq<Option<Seq<char>>>, c: Contents)
    ensures
        forall|j: int|
            0 <= j < e.planned_rows(texts, c).len() ==> {
                let p = #[trigger] e.planned_rows(texts, c)[j];
                &&& 0 <= p.row < texts.len()
                &&& texts[p.row] == Some(p.text)
                &&& p.units == e.pending_units(e.units@.len(), p.text, c)
                &&& p.units.len() > 0
            },
        forall|i: int, j: int|
            0 <= i < j < e.planned_rows(texts, c).len() ==> (#[trigger] e.planned_rows(
                texts,
                c,
            )[i]).row < (#[trigger] e.planned_rows(texts, c)[j]).row,
    decreases texts.len(),
{
    if texts.len() > 0 {
        lemma_planned_rows(e, texts.drop_last(), c);
        let before = e.planned_rows(texts.drop_last(), c);
        let now = e.planned_rows(texts, c);
        assert forall|j: int| 0 <= j < now.len() implies {
            let p = #[trigger] now[j];
            &&& 0 <= p.row < texts.len()
            &&& texts[p.row] == Some(p.text)
            &&& p.units == e.pending_units(e.units@.len(), p.text, c)
            &&& p.units.len() > 0
        } by {
            if j < before.len() {
                assert(now[j] == before[j]);
                assert(texts.drop_last()[before[j].row] == texts[before[j].row]);
            }
        }
        assert forall|i: int, j: int| 0 <= i < j < now.len() implies (#[trigger] now[i]).row < (
        #[trigger] now[j]).row by {
            assert(now[i] == before[i]);
            if j < before.len() {
                assert(now[j] == before[j]);
            }
        }
    }
}

/// Pay once: where every field validated and reads back, which
/// [`Extractor::apply`] gives of plain fields, the same rows need no call again.
pub proof fn an_extracted_batch_is_free_the_next_time(
    e: &Extractor,
    texts: Seq<Option<Seq<char>>>,
    start: ExtractState,
    answers: Seq<Option<Seq<char>>>,
)
    requires
        answers.len() == e.planned_rows(texts, start.cache).len(),
        forall|j: int, i: int|
            0 <= j < answers.len() && 0 <= i < e.planned_rows(texts, start.cache)[j].units.len()
                ==> e.answer_reads_back(
                #[trigger] e.planned_rows(texts, start.cache)[j].units[i],
                answers[j],
            ),
        ({
            let end = e.rows_applied(start, e.planned_rows(texts, start.cache), answers);
            end.rows_failed == start.rows_failed && end.fields_failed == start.fields_failed
        }),
    ensures
        e.planned_rows(
            texts,
            e.rows_applied(start, e.planned_rows(texts, start.cache), answers).cache,
        ).len() == 0,
{
    let pending = e.planned_rows(texts, start.cache);
    let end = e.rows_applied(start, pending, answers);
    let again = e.planned_rows(texts, end.cache);
    let n = e.units@.len();
    lemma_rows_kept(e, start, pending, answers);
    if again.len() > 0 {
        lemma_planned_rows(e, texts, end.cache);
        let q = again[0];
        let u = q.units[0];
        assert(q.units.contains(u));
        lemma_pending_units(e, n, q.text, end.cache, u);
        lemma_pending_units(e, n, q.text, start.cache, u);
        let open = e.pending_units(n, q.text, start.cache);
        assert(open.contains(u));
        let i = choose|i: int| 0 <= i < open.len() && open[i] == u;
        let j = lemma_row_planned(e, texts, start.cache, q.row);
        assert(e.unit_hit(pending[j].units[i], pending[j].text, end.cache));
    }
}

/// Whether a cache answers a unit as another does, wherever that answers it.
spec fn unit_kept(e: &Extractor, c: Contents, d: Contents, u: int, text: Seq<char>) -> bool {
    e.unit_hit(u, text, c) ==> e.unit_hit(u, text, d) && forall|m: int|
        0 <= m < e.size(u) ==> #[trigger] e.cached(u, m, text, d) == e.cached(u, m, text, c)
}

/// First evaluation wins: what the cache answers stays its answer through a
/// unit's answer.
proof fn lemma_hit_kept(
    e: &Extractor,
    s: ExtractState,
    u: int,
    row: int,
    text: Seq<char>,
    object: Json,
    v: int,
    x: Seq<char>,
)
    requires
        e.told_apart(),
        0 <= u < e.units.len(),
        0 <= v < e.units.len(),
    ensures
        unit_kept(e, s.cache, e.unit_applied(s, u, row, text, object).cache, v, x),
{
    let t = e.unit_applied(s, u, row, text, object);
    if e.unit_hit(v, x, s.cache) && e.unit_valid(u, object) && !e.unit_hit(u, text, s.cache) {
        assert forall|m: int| 0 <= m < e.size(v) implies #[trigger] e.cached(v, m, x, t.cache)
            == e.cached(v, m, x, s.cache) by {
            let k = e.key(v, m, x);
            lemma_stored(e, s.cache, u, e.size(u), text, object, k);
            if exists|i: int| 0 <= i < e.size(u) && #[trigger] e.key(u, i, text) == k {
                let i = choose|i: int| 0 <= i < e.size(u) && #[trigger] e.key(u, i, text) == k;
                assert(e.name_at(u, i) == e.name_at(v, m));
                assert(u == v && i == m);
                assert forall|n: int| 0 <= n < e.size(u) implies (#[trigger] e.cached(
                    u,
                    n,
                    text,
                    s.cache,
                )) is Some by {
                    assert(e.key(u, n, text) == e.key(v, n, x));
                    assert(e.cached(v, n, x, s.cache) is Some);
                }
                assert(e.unit_hit(u, text, s.cache));
            } else {
                if known(t.cache, k) != known(s.cache, k) {
                    let i = choose|i: int|
                        0 <= i < e.size(u) && e.key(u, i, text) == k && known(t.cache, k) == Some(
                            json_written((#[trigger] e.decoded(u, i, object))->0),
                        );
                    assert(e.key(u, i, text) == k);
                }
            }
        }
        assert forall|m: int| 0 <= m < e.size(v) implies (#[trigger] e.cached(
            v,
            m,
            x,
            t.cache,
        )) is Some by {
            assert(e.cached(v, m, x, s.cache) is Some);
        }
    }
}

/// The cells of a unit filled from the cache, and all others.
proof fn lemma_filled_cell(
    e: &Extractor,
    columns: Seq<Seq<ScalarView>>,
    u: int,
    n: nat,
    row: int,
    text: Seq<char>,
    c: Contents,
    rows: nat,
    f: int,
    r: int,
)
    requires
        e.well_formed(),
        e.told_apart(),
        0 <= u < e.units.len(),
        n <= e.size(u),
        rectangular(columns, e.fields@.len(), rows),
        0 <= row < rows,
    ensures
        ({
            let now = e.filled(columns, u, n, row, text, c);
            &&& rectangular(now, e.fields@.len(), rows)
            &&& forall|m: int|
                0 <= m < n && r == row && #[trigger] e.member(u, m) == f ==> now[f][r]
                    == scalar_of(e.fields[f].ty, e.cached(u, m, text, c)->0)
            &&& 0 <= f < e.fields.len() && 0 <= r < rows && (r != row || forall|m: int| 0 <= m < n ==> #[trigger] e.member(u, m) != f)
                ==> now[f][r] == columns[f][r]
        }),
    decreases n,
{
    if n > 0 {
        let k = n - 1;
        lemma_filled_cell(e, columns, u, k as nat, row, text, c, rows, f, r);
        let before = e.filled(columns, u, k as nat, row, text, c);
        let g = e.member(u, k);
        assert(e.units[u].members[k] < e.fields.len());
        assert(before[g].len() == rows);
        lemma_with_cell(
            before,
            e.fields@.len(),
            rows,
            g,
            row,
            scalar_of(e.fields[g].ty, e.cached(u, k, text, c)->0),
        );
        let now = e.filled(columns, u, n, row, text, c);
        assert forall|m: int| 0 <= m < n && r == row && #[trigger] e.member(u, m) == f implies now[f][r]
            == scalar_of(e.fields[f].ty, e.cached(u, m, text, c)->0) by {
            if m < k && g == f {
                assert(e.name_at(u, m) == e.name_at(u, k));
            }
        }
        if r != row || forall|m: int| 0 <= m < n ==> #[trigger] e.member(u, m) != f {
            if r == row {
                assert(e.member(u, k) != f);
            }
        }
    }
}

/// The cells of a unit written from an answer, and all others.
proof fn lemma_written_cell(
    e: &Extractor,
    columns: Seq<Seq<ScalarView>>,
    u: int,
    n: nat,
    row: int,
    object: Json,
    rows: nat,
    f: int,
    r: int,
)
    requires
        e.well_formed(),
        e.told_apart(),
        0 <= u < e.units.len(),
        n <= e.size(u),
        rectangular(columns, e.fields@.len(), rows),
        0 <= row < rows,
    ensures
        ({
            let now = e.written(columns, u, n, row, object);
            &&& rectangular(now, e.fields@.len(), rows)
            &&& forall|m: int|
                0 <= m < n && r == row && #[trigger] e.member(u, m) == f && e.decoded(u, m, object)
                    is Some ==> now[f][r] == scalar_of(
                    e.fields[f].ty,
                    e.decoded(u, m, object)->0,
                )
            &&& 0 <= f < e.fields.len() && 0 <= r < rows && (r != row || forall|m: int| 0 <= m < n ==> #[trigger] e.member(u, m) != f)
                ==> now[f][r] == columns[f][r]
        }),
    decreases n,
{
    if n > 0 {
        let k = n - 1;
        lemma_written_cell(e, columns, u, k as nat, row, object, rows, f, r);
        let before = e.written(columns, u, k as nat, row, object);
        let g = e.member(u, k);
        assert(e.units[u].members[k] < e.fields.len());
        assert(before[g].len() == rows);
        if e.decoded(u, k, object) is Some {
            lemma_with_cell(
                before,
                e.fields@.len(),
                rows,
                g,
                row,
                scalar_of(e.fields[g].ty, e.decoded(u, k, object)->0),
            );
        }
        let now = e.written(columns, u, n, row, object);
        assert forall|m: int|
            0 <= m < n && r == row && #[trigger] e.member(u, m) == f && e.decoded(u, m, object)
                is Some implies now[f][r] == scalar_of(
            e.fields[f].ty,
            e.decoded(u, m, object)->0,
        ) by {
            if m < k && g == f {
                assert(e.name_at(u, m) == e.name_at(u, k));
            }
        }
        if r == row && forall|m: int| 0 <= m < n ==> #[trigger] e.member(u, m) != f {
            assert(e.member(u, k) != f);
        }
    }
}

/// The value that a cache gives a cell.
spec fn cell_of(e: &Extractor, f: int, u: int, m: int, text: Seq<char>, c: Contents) -> ScalarView {
    scalar_of(e.fields[f].ty, e.cached(u, m, text, c)->0)
}

/// After a valid unit's answer its cells hold what the cache answers.
proof fn lemma_unit_cell(
    e: &Extractor,
    s: ExtractState,
    u: int,
    row: int,
    text: Seq<char>,
    object: Json,
    rows: nat,
    f: int,
    r: int,
)
    requires
        e.well_formed(),
        e.told_apart(),
        0 <= u < e.units.len(),
        e.reads_back(u, object),
        e.unit_valid(u, object),
        rectangular(s.columns, e.fields@.len(), rows),
        0 <= row < rows,
    ensures
        ({
            let t = e.unit_applied(s, u, row, text, object);
            &&& rectangular(t.columns, e.fields@.len(), rows)
            &&& e.unit_hit(u, text, t.cache)
            &&& forall|m: int|
                0 <= m < e.size(u) && r == row && #[trigger] e.member(u, m) == f ==> t.columns[f][r]
                    == cell_of(e, f, u, m, text, t.cache)
            &&& 0 <= f < e.fields.len() && 0 <= r < rows && (r != row || forall|m: int| 0 <= m < e.size(u) ==> #[trigger] e.member(u, m) != f)
                ==> t.columns[f][r] == s.columns[f][r]
        }),
{
    let t = e.unit_applied(s, u, row, text, object);
    let own = e.written(s.columns, u, e.size(u), row, object);
    lemma_written_cell(e, s.columns, u, e.size(u), row, object, rows, f, r);
    lemma_filled_cell(e, own, u, e.size(u), row, text, s.cache, rows, f, r);
    a_unit_is_cached_whole_or_not_at_all(e, s, u, row, text, object);
    let names = e.member_names(u, e.size(u));
    assert(names.no_duplicates()) by {
        assert forall|i: int, j: int|
            0 <= i < names.len() && 0 <= j < names.len() && i != j implies names[i] != names[j] by {
            assert(e.name_at(u, i) == names[i] && e.name_at(u, j) == names[j]);
        }
    }
    assert forall|m: int|
        0 <= m < e.size(u) && r == row && #[trigger] e.member(u, m) == f implies t.columns[f][r]
        == cell_of(e, f, u, m, text, t.cache) by {
        assert(e.decoded(u, m, object) is Some);
        if !e.unit_hit(u, text, s.cache) {
            assert(e.cached(u, m, text, t.cache) == e.decoded(u, m, object));
        }
    }
}

/// The same of some units of a row, one after another.
proof fn lemma_units_cell(
    e: &Extractor,
    s: ExtractState,
    units: Seq<int>,
    row: int,
    text: Seq<char>,
    object: Json,
    rows: nat,
)
    requires
        e.well_formed(),
        e.told_apart(),
        forall|i: int|
            0 <= i < units.len() ==> 0 <= #[trigger] units[i] < e.units.len() && e.reads_back(
                units[i],
                object,
            ) && e.unit_valid(units[i], object),
        rectangular(s.columns, e.fields@.len(), rows),
        0 <= row < rows,
    ensures
        ({
            let t = e.units_applied(s, units, row, text, object);
            &&& rectangular(t.columns, e.fields@.len(), rows)
            &&& forall|v: int, x: Seq<char>|
                0 <= v < e.units.len() ==> #[trigger] unit_kept(e, s.cache, t.cache, v, x)
            &&& forall|i: int, m: int|
                0 <= i < units.len() && 0 <= m < e.size(units[i]) ==> e.unit_hit(
                    units[i],
                    text,
                    t.cache,
                ) && t.columns[#[trigger] e.member(units[i], m)][row] == cell_of(
                    e,
                    e.member(units[i], m),
                    units[i],
                    m,
                    text,
                    t.cache,
                )
            &&& forall|f: int, r: int|
                0 <= f < e.fields.len() && 0 <= r < rows && (r != row || !in_units(e, units, f))
                    ==> #[trigger] t.columns[f][r] == s.columns[f][r]
        }),
    decreases units.len(),
{
    if units.len() > 0 {
        let before = units.drop_last();
        let last = units.len() - 1;
        let u = units[last];
        assert forall|i: int| 0 <= i < before.len() implies 0 <= #[trigger] before[i]
            < e.units.len() && e.reads_back(before[i], object) && e.unit_valid(
            before[i],
            object,
        ) by {
            assert(before[i] == units[i]);
        }
        lemma_units_cell(e, s, before, row, text, object, rows);
        let q = e.units_applied(s, before, row, text, object);
        let t = e.units_applied(s, units, row, text, object);
        assert(t == e.unit_applied(q, u, row, text, object));
        assert(rectangular(t.columns, e.fields@.len(), rows)) by {
            lemma_unit_shape(e, q, u, row, text, object, rows);
        }
        assert forall|v: int, x: Seq<char>| 0 <= v < e.units.len() implies #[trigger] unit_kept(
            e,
            s.cache,
            t.cache,
            v,
            x,
        ) by {
            assert(unit_kept(e, s.cache, q.cache, v, x));
            lemma_hit_kept(e, q, u, row, text, object, v, x);
        }
        assert forall|i: int, m: int|
            0 <= i < units.len() && 0 <= m < e.size(units[i]) implies e.unit_hit(
            units[i],
            text,
            t.cache,
        ) && t.columns[#[trigger] e.member(units[i], m)][row] == cell_of(
            e,
            e.member(units[i], m),
            units[i],
            m,
            text,
            t.cache,
        ) by {
            let v = units[i];
            let f = e.member(v, m);
            assert(e.units[v].members[m] < e.fields.len());
            lemma_unit_cell(e, q, u, row, text, object, rows, f, row);
            if v == u {
                assert(e.member(u, m) == f);
            } else {
                assert(before[i] == v);
                assert(q.columns[e.member(before[i], m)][row] == cell_of(
                    e,
                    f,
                    v,
                    m,
                    text,
                    q.cache,
                ));
                lemma_hit_kept(e, q, u, row, text, object, v, text);
                assert(e.cached(v, m, text, t.cache) == e.cached(v, m, text, q.cache));
                assert forall|n: int| 0 <= n < e.size(u) implies #[trigger] e.member(u, n) != f by {
                    if e.member(u, n) == f {
                        assert(e.name_at(u, n) == e.name_at(v, m));
                    }
                }
            }
        }
        assert forall|f: int, r: int|
            0 <= f < e.fields.len() && 0 <= r < rows && (r != row || !in_units(
                e,
                units,
                f,
            )) implies #[trigger] t.columns[f][r] == s.columns[f][r] by {
            lemma_unit_cell(e, q, u, row, text, object, rows, f, r);
            if r == row {
                assert forall|m: int| 0 <= m < e.size(u) implies #[trigger] e.member(u, m) != f by {
                    if e.member(units[last], m) == f {
                        assert(in_units(e, units, f));
                    }
                }
                if in_units(e, before, f) {
                    let (i, m) = choose|i: int, m: int|
                        0 <= i < before.len() && 0 <= m < e.size(before[i]) && #[trigger] e.member(
                            before[i],
                            m,
                        ) == f;
                    assert(e.member(units[i], m) == f);
                }
            }
            assert(q.columns[f][r] == s.columns[f][r]);
        }
    }
}

/// Whether a field is a member of some of some units.
spec fn in_units(e: &Extractor, units: Seq<int>, f: int) -> bool {
    exists|i: int, m: int|
        0 <= i < units.len() && 0 <= m < e.size(units[i]) && #[trigger] e.member(units[i], m) == f
}

proof fn lemma_unit_shape(
    e: &Extractor,
    s: ExtractState,
    u: int,
    row: int,
    text: Seq<char>,
    object: Json,
    rows: nat,
)
    requires
        e.well_formed(),
        e.told_apart(),
        0 <= u < e.units.len(),
        rectangular(s.columns, e.fields@.len(), rows),
        0 <= row < rows,
    ensures
        rectangular(
            e.unit_applied(s, u, row, text, object).columns,
            e.fields@.len(),
            rows,
        ),
{
    let own = e.written(s.columns, u, e.size(u), row, object);
    lemma_written_cell(e, s.columns, u, e.size(u), row, object, rows, 0, row);
    lemma_filled_cell(e, own, u, e.size(u), row, text, s.cache, rows, 0, row);
}

/// The same of all rows of a batch.
proof fn lemma_rows_cell(
    e: &Extractor,
    s: ExtractState,
    pending: Seq<PendingView>,
    answers: Seq<Option<Seq<char>>>,
    rows: nat,
)
    requires
        e.well_formed(),
        e.told_apart(),
        pending.len() == answers.len(),
        forall|j: int| 0 <= j < pending.len() ==> 0 <= (#[trigger] pending[j]).row < rows,
        forall|i: int, j: int|
            0 <= i < j < pending.len() ==> (#[trigger] pending[i]).row < (
            #[trigger] pending[j]).row,
        forall|j: int|
            0 <= j < pending.len() ==> answered(#[trigger] answers[j]) is Some && units_usable(
                e,
                pending[j].units,
                answered(answers[j])->0,
            ),
        rectangular(s.columns, e.fields@.len(), rows),
    ensures
        ({
            let t = e.rows_applied(s, pending, answers);
            &&& rectangular(t.columns, e.fields@.len(), rows)
            &&& forall|v: int, x: Seq<char>|
                0 <= v < e.units.len() ==> #[trigger] unit_kept(e, s.cache, t.cache, v, x)
            &&& forall|j: int, i: int, m: int|
                0 <= j < pending.len() && 0 <= i < pending[j].units.len() && 0 <= m < e.size(
                    pending[j].units[i],
                ) ==> e.unit_hit(pending[j].units[i], pending[j].text, t.cache)
                    && t.columns[#[trigger] e.member(pending[j].units[i], m)][pending[j].row]
                    == cell_of(
                    e,
                    e.member(pending[j].units[i], m),
                    pending[j].units[i],
                    m,
                    pending[j].text,
                    t.cache,
                )
            &&& forall|f: int, r: int|
                0 <= f < e.fields.len() && 0 <= r < rows && (forall|j: int|
                    0 <= j < pending.len() && (#[trigger] pending[j]).row == r ==> !in_units(
                        e,
                        pending[j].units,
                        f,
                    )) ==> #[trigger] t.columns[f][r] == s.columns[f][r]
        }),
    decreases answers.len(),
{
    if answers.len() > 0 {
        let before = pending.drop_last();
        let last = pending.len() - 1;
        let p = pending[last];
        assert forall|j: int| 0 <= j < before.len() implies answered(
            #[trigger] answers.drop_last()[j],
        ) is Some && units_usable(
            e,
            before[j].units,
            answered(answers.drop_last()[j])->0,
        ) by {
            assert(answers.drop_last()[j] == answers[j]);
        }
        lemma_rows_cell(e, s, before, answers.drop_last(), rows);
        let q = e.rows_applied(s, before, answers.drop_last());
        let t = e.rows_applied(s, pending, answers);
        assert(answered(answers[last]) is Some);
        let object = answered(answers[last])->0;
        lemma_units_cell(e, q, p.units, p.row, p.text, object, rows);
        assert(t == e.units_applied(q, p.units, p.row, p.text, object));
        assert forall|v: int, x: Seq<char>| 0 <= v < e.units.len() implies #[trigger] unit_kept(
            e,
            s.cache,
            t.cache,
            v,
            x,
        ) by {
            assert(unit_kept(e, s.cache, q.cache, v, x));
            assert(unit_kept(e, q.cache, t.cache, v, x));
        }
        assert forall|j: int, i: int, m: int|
            0 <= j < pending.len() && 0 <= i < pending[j].units.len() && 0 <= m < e.size(
                pending[j].units[i],
            ) implies e.unit_hit(pending[j].units[i], pending[j].text, t.cache)
            && t.columns[#[trigger] e.member(pending[j].units[i], m)][pending[j].row] == cell_of(
            e,
            e.member(pending[j].units[i], m),
            pending[j].units[i],
            m,
            pending[j].text,
            t.cache,
        ) by {
            let v = pending[j].units[i];
            let f = e.member(v, m);
            if j < last {
                assert(before[j] == pending[j]);
                assert(q.columns[e.member(before[j].units[i], m)][before[j].row] == cell_of(
                    e,
                    f,
                    v,
                    m,
                    before[j].text,
                    q.cache,
                ));
                assert(answered(answers[j]) is Some);
                assert(0 <= pending[j].units[i] < e.units.len());
                assert(e.units[v].members[m] < e.fields.len());
                assert(unit_kept(e, q.cache, t.cache, v, pending[j].text));
                assert(e.cached(v, m, pending[j].text, t.cache) == e.cached(
                    v,
                    m,
                    pending[j].text,
                    q.cache,
                ));
                assert(pending[j].row < pending[last].row);
                assert(t.columns[f][pending[j].row] == q.columns[f][pending[j].row]);
            } else {
                assert(t.columns[e.member(p.units[i], m)][p.row] == cell_of(
                    e,
                    f,
                    v,
                    m,
                    p.text,
                    t.cache,
                ));
            }
        }
        assert forall|f: int, r: int|
            0 <= f < e.fields.len() && 0 <= r < rows && (forall|j: int|
                0 <= j < pending.len() && (#[trigger] pending[j]).row == r ==> !in_units(
                    e,
                    pending[j].units,
                    f,
                )) implies #[trigger] t.columns[f][r] == s.columns[f][r] by {
            assert forall|j: int| 0 <= j < before.len() && (#[trigger] before[j]).row
                == r implies !in_units(e, before[j].units, f) by {
                assert(before[j] == pending[j]);
            }
            assert(q.columns[f][r] == s.columns[f][r]);
            if r == p.row {
                assert(!in_units(e, pending[last].units, f));
            }
            assert(t.columns[f][r] == q.columns[f][r]);
        }
    }
}

/// Whether an answer gives a value to every field of some units that the cache
/// reads back.
spec fn units_usable(e: &Extractor, units: Seq<int>, object: Json) -> bool {
    forall|i: int|
        0 <= i < units.len() ==> 0 <= #[trigger] units[i] < e.units.len() && e.reads_back(
            units[i],
            object,
        ) && e.unit_valid(units[i], object)
}

/// Where no failure is counted, every answer gives a value to every field.
proof fn lemma_no_failures(
    e: &Extractor,
    s: ExtractState,
    pending: Seq<PendingView>,
    answers: Seq<Option<Seq<char>>>,
)
    requires
        pending.len() == answers.len(),
        ({
            let t = e.rows_applied(s, pending, answers);
            t.rows_failed == s.rows_failed && t.fields_failed == s.fields_failed
        }),
    ensures
        forall|j: int, i: int|
            0 <= j < pending.len() && 0 <= i < pending[j].units.len() ==> e.unit_valid(
                #[trigger] pending[j].units[i],
                answered(answers[j])->0,
            ),
        forall|j: int| 0 <= j < answers.len() ==> answered(#[trigger] answers[j]) is Some,
    decreases answers.len(),
{
    if answers.len() > 0 {
        let before = pending.drop_last();
        let last = pending.len() - 1;
        let p = pending[last];
        let q = e.rows_applied(s, before, answers.drop_last());
        lemma_counts_grow(e, s, before, answers.drop_last());
        if answered(answers[last]) is Some {
            lemma_units_count(e, q, p.units, p.row, p.text, answered(answers[last])->0);
        }
        lemma_no_failures(e, s, before, answers.drop_last());
        assert forall|j: int, i: int|
            0 <= j < pending.len() && 0 <= i < pending[j].units.len() implies e.unit_valid(
            #[trigger] pending[j].units[i],
            answered(answers[j])->0,
        ) by {
            if j < last {
                assert(e.unit_valid(before[j].units[i], answered(answers.drop_last()[j])->0));
            } else {
                assert(e.unit_valid(p.units[i], answered(answers[last])->0));
            }
        }
        assert forall|j: int| 0 <= j < answers.len() implies answered(#[trigger] answers[j])
            is Some by {
            if j < last {
                assert(answered(answers.drop_last()[j]) is Some);
            }
        }
    }
}

proof fn lemma_counts_grow(
    e: &Extractor,
    s: ExtractState,
    pending: Seq<PendingView>,
    answers: Seq<Option<Seq<char>>>,
)
    ensures
        e.rows_applied(s, pending, answers).rows_failed >= s.rows_failed,
        e.rows_applied(s, pending, answers).fields_failed >= s.fields_failed,
    decreases answers.len(),
{
    if answers.len() > 0 {
        let q = e.rows_applied(s, pending.drop_last(), answers.drop_last());
        lemma_counts_grow(e, s, pending.drop_last(), answers.drop_last());
        if answered(answers.last()) is Some {
            let p = pending.last();
            lemma_units_count(e, q, p.units, p.row, p.text, answered(answers.last())->0);
        }
    }
}

proof fn lemma_units_count(
    e: &Extractor,
    s: ExtractState,
    units: Seq<int>,
    row: int,
    text: Seq<char>,
    object: Json,
)
    ensures
        ({
            let t = e.units_applied(s, units, row, text, object);
            &&& t.rows_failed == s.rows_failed
            &&& t.fields_failed >= s.fields_failed
            &&& t.fields_failed == s.fields_failed ==> forall|i: int|
                0 <= i < units.len() ==> e.unit_valid(#[trigger] units[i], object)
        }),
    decreases units.len(),
{
    if units.len() > 0 {
        let before = units.drop_last();
        lemma_units_count(e, s, before, row, text, object);
        let u = units.last();
        lemma_all_valid(e, u, e.size(u), object);
        let t = e.units_applied(s, units, row, text, object);
        if t.fields_failed == s.fields_failed {
            assert forall|i: int| 0 <= i < units.len() implies e.unit_valid(
                #[trigger] units[i],
                object,
            ) by {
                if i < before.len() {
                    assert(e.unit_valid(before[i], object));
                }
            }
        }
    }
}

/// The cells that reading the first `n` units of a row from the cache gives, and
/// all others.
proof fn lemma_read_cell(
    e: &Extractor,
    columns: Seq<Seq<ScalarView>>,
    n: nat,
    row: int,
    text: Seq<char>,
    c: Contents,
    rows: nat,
    f: int,
    r: int,
)
    requires
        e.well_formed(),
        e.told_apart(),
        n <= e.units.len(),
        rectangular(columns, e.fields@.len(), rows),
        0 <= row < rows,
    ensures
        ({
            let now = e.read(columns, n, row, text, c);
            &&& rectangular(now, e.fields@.len(), rows)
            &&& forall|u: int, m: int|
                0 <= u < n && 0 <= m < e.size(u) && r == row && #[trigger] e.member(u, m) == f
                    && e.unit_hit(u, text, c) ==> now[f][r] == cell_of(e, f, u, m, text, c)
            &&& 0 <= f < e.fields.len() && 0 <= r < rows && (r != row || forall|u: int, m: int|
                0 <= u < n && 0 <= m < e.size(u) && #[trigger] e.member(u, m) == f ==> !e.unit_hit(
                    u,
                    text,
                    c,
                )) ==> now[f][r] == columns[f][r]
        }),
    decreases n,
{
    if n > 0 {
        let v = n - 1;
        lemma_read_cell(e, columns, v as nat, row, text, c, rows, f, r);
        let before = e.read(columns, v as nat, row, text, c);
        let now = e.read(columns, n, row, text, c);
        if e.unit_hit(v, text, c) {
            lemma_filled_cell(e, before, v, e.size(v), row, text, c, rows, f, r);
        }
        assert forall|u: int, m: int|
            0 <= u < n && 0 <= m < e.size(u) && r == row && #[trigger] e.member(u, m) == f
                && e.unit_hit(u, text, c) implies now[f][r] == cell_of(e, f, u, m, text, c) by {
            if u < v {
                assert forall|k: int| 0 <= k < e.size(v) implies #[trigger] e.member(v, k) != f by {
                    if e.member(v, k) == f {
                        assert(e.name_at(u, m) == e.name_at(v, k));
                    }
                }
            }
        }
        if r == row && forall|u: int, m: int|
            0 <= u < n && 0 <= m < e.size(u) && #[trigger] e.member(u, m) == f ==> !e.unit_hit(
                u,
                text,
                c,
            ) {
            if e.unit_hit(v, text, c) {
                assert forall|k: int| 0 <= k < e.size(v) implies #[trigger] e.member(v, k) != f by {
                }
            }
        }
    }
}

/// The cells of a planned batch: what the cache answers, and NULL elsewhere.
proof fn lemma_planned_cell(
    e: &Extractor,
    texts: Seq<Option<Seq<char>>>,
    rows: nat,
    c: Contents,
    f: int,
    r: int,
)
    requires
        e.well_formed(),
        e.told_apart(),
        texts.len() <= rows,
    ensures
        ({
            let now = e.planned_columns(texts, rows, c);
            &&& rectangular(now, e.fields@.len(), rows)
            &&& forall|u: int, m: int|
                0 <= r < texts.len() && texts[r] is Some && 0 <= u < e.units.len() && 0 <= m < e.size(u)
                    && #[trigger] e.member(u, m) == f && e.unit_hit(u, texts[r]->0, c)
                    ==> now[f][r] == cell_of(e, f, u, m, texts[r]->0, c)
            &&& 0 <= f < e.fields.len() && 0 <= r < rows && (r >= texts.len() || texts[r] is None || forall|u: int, m: int|
                0 <= u < e.units.len() && 0 <= m < e.size(u) && #[trigger] e.member(u, m) == f
                    ==> !e.unit_hit(u, texts[r]->0, c)) ==> now[f][r] == ScalarView::Null
        }),
    decreases texts.len(),
{
    if texts.len() == 0 {
        assert(rectangular(null_columns(e.fields@.len(), rows), e.fields@.len(), rows));
    } else {
        let short = texts.drop_last();
        let last = texts.len() - 1;
        lemma_planned_cell(e, short, rows, c, f, r);
        let before = e.planned_columns(short, rows, c);
        if texts[last] is Some {
            lemma_read_cell(e, before, e.units@.len(), last, texts[last]->0, c, rows, f, r);
        }
        if 0 <= r < last {
            assert(short[r] == texts[r]);
        }
    }
}

proof fn lemma_same_cell(
    e: &Extractor,
    texts: Seq<Option<Seq<char>>>,
    start: ExtractState,
    answers: Seq<Option<Seq<char>>>,
    f: int,
    r: int,
)
    requires
        e.well_formed(),
        e.told_apart(),
        start.columns == e.planned_columns(texts, texts.len(), start.cache),
        answers.len() == e.planned_rows(texts, start.cache).len(),
        forall|j: int|
            0 <= j < answers.len() ==> answered(#[trigger] answers[j]) is Some && units_usable(
                e,
                e.planned_rows(texts, start.cache)[j].units,
                answered(answers[j])->0,
            ),
        0 <= f < e.fields.len(),
        0 <= r < texts.len(),
    ensures
        ({
            let end = e.rows_applied(start, e.planned_rows(texts, start.cache), answers);
            e.planned_columns(texts, texts.len(), end.cache)[f][r] == end.columns[f][r]
        }),
{
    let c = start.cache;
    let rows = texts.len();
    let n = e.units@.len();
    let pending = e.planned_rows(texts, c);
    let end = e.rows_applied(start, pending, answers);
    lemma_planned_rows(e, texts, c);
    lemma_planned_cell(e, texts, rows, c, f, r);
    lemma_planned_cell(e, texts, rows, end.cache, f, r);
    lemma_rows_cell(e, start, pending, answers, rows);
    let all = Seq::new(n, |i: int| i);
    if texts[r] is Some && in_units(e, all, f) {
        let (u, m) = choose|u: int, m: int|
            0 <= u < all.len() && 0 <= m < e.size(all[u]) && #[trigger] e.member(all[u], m) == f;
        assert(all[u] == u);
        assert(e.member(u, m) == f);
        let text = texts[r]->0;
        lemma_pending_units(e, n, text, c, u);
        if e.unit_hit(u, text, c) {
            assert(unit_kept(e, c, end.cache, u, text));
            assert(e.cached(u, m, text, end.cache) == e.cached(u, m, text, c));
            assert forall|j: int| 0 <= j < pending.len() && (#[trigger] pending[j]).row
                == r implies !in_units(e, pending[j].units, f) by {
                if in_units(e, pending[j].units, f) {
                    let units = pending[j].units;
                    let (i, k) = choose|i: int, k: int|
                        0 <= i < units.len() && 0 <= k < e.size(units[i]) && #[trigger] e.member(
                            units[i],
                            k,
                        ) == f;
                    lemma_pending_units(e, n, text, c, units[i]);
                    assert(units.contains(units[i]));
                    assert(e.name_at(units[i], k) == e.name_at(u, m));
                }
            }
            assert(end.columns[f][r] == start.columns[f][r]);
        } else {
            let open = e.pending_units(n, text, c);
            assert(open.contains(u));
            let i = choose|i: int| 0 <= i < open.len() && open[i] == u;
            let j = lemma_row_planned(e, texts, c, r);
            assert(e.member(pending[j].units[i], m) == f);
        }
    } else {
        assert forall|u: int, m: int|
            0 <= u < n && 0 <= m < e.size(u) implies texts[r] is None || #[trigger] e.member(u, m)
            != f by {
            if e.member(u, m) == f {
                assert(e.member(all[u], m) == f);
            }
        }
        assert forall|j: int| 0 <= j < pending.len() && (#[trigger] pending[j]).row
            == r implies !in_units(e, pending[j].units, f) by {
            if in_units(e, pending[j].units, f) {
                let units = pending[j].units;
                let (i, k) = choose|i: int, k: int|
                    0 <= i < units.len() && 0 <= k < e.size(units[i]) && #[trigger] e.member(
                        units[i],
                        k,
                    ) == f;
                lemma_pending_units(e, n, pending[j].text, c, units[i]);
                assert(units.contains(units[i]));
                assert(e.member(units[i], k) != f);
            }
        }
        assert(end.columns[f][r] == start.columns[f][r]);
    }
}

/// Re-running is deterministic: where every field validated and reads back, which
/// [`Extractor::apply`] gives of plain fields, planning the same rows on the
/// resulting cache gives the same cells.
pub proof fn an_extracted_batch_reads_the_same(
    e: &Extractor,
    texts: Seq<Option<Seq<char>>>,
    start: ExtractState,
    answers: Seq<Option<Seq<char>>>,
)
    requires
        e.well_formed(),
        e.told_apart(),
        start.columns == e.planned_columns(texts, texts.len(), start.cache),
        answers.len() == e.planned_rows(texts, start.cache).len(),
        forall|j: int, i: int|
            0 <= j < answers.len() && 0 <= i < e.planned_rows(texts, start.cache)[j].units.len()
                ==> e.answer_reads_back(
                #[trigger] e.planned_rows(texts, start.cache)[j].units[i],
                answers[j],
            ),
        ({
            let end = e.rows_applied(start, e.planned_rows(texts, start.cache), answers);
            end.rows_failed == start.rows_failed && end.fields_failed == start.fields_failed
        }),
    ensures
        ({
            let end = e.rows_applied(start, e.planned_rows(texts, start.cache), answers);
            e.planned_columns(texts, texts.len(), end.cache) == end.columns
        }),
{
    let c = start.cache;
    let rows = texts.len();
    let n = e.units@.len();
    let pending = e.planned_rows(texts, c);
    let end = e.rows_applied(start, pending, answers);
    let want = e.planned_columns(texts, rows, end.cache);
    lemma_planned_rows(e, texts, c);
    lemma_no_failures(e, start, pending, answers);
    lemma_planned_cell(e, texts, rows, c, 0, 0);
    lemma_planned_cell(e, texts, rows, end.cache, 0, 0);
    assert forall|j: int| 0 <= j < pending.len() implies answered(#[trigger] answers[j]) is Some
        && units_usable(e, pending[j].units, answered(answers[j])->0) by {
        let units = pending[j].units;
        assert forall|i: int| 0 <= i < units.len() implies 0 <= #[trigger] units[i]
            < e.units.len() && e.reads_back(units[i], answered(answers[j])->0) && e.unit_valid(
            units[i],
            answered(answers[j])->0,
        ) by {
            assert(units.contains(units[i]));
            lemma_pending_units(e, n, pending[j].text, c, units[i]);
            assert(e.answer_reads_back(pending[j].units[i], answers[j]));
            assert(e.unit_valid(pending[j].units[i], answered(answers[j])->0));
        }
    }
    lemma_rows_cell(e, start, pending, answers, rows);
    assert forall|f: int, r: int| 0 <= f < e.fields.len() && 0 <= r < rows implies #[trigger]
    want[f][r] == end.columns[f][r] by {
        lemma_same_cell(e, texts, start, answers, f, r);
    }
    assert forall|f: int| 0 <= f < want.len() implies #[trigger] want[f] == end.columns[f] by {
        assert(want[f].len() == rows && end.columns[f].len() == rows);
        assert forall|r: int| 0 <= r < rows implies want[f][r] == end.columns[f][r] by {}
        assert(want[f] =~= end.columns[f]);
    }
    assert(want =~= end.columns);
}

/// Writing a unit's answer touches no other row, and no field outside the unit.
pub proof fn an_answer_touches_only_its_own_cells(
    e: &Extractor,
    columns: Seq<Seq<ScalarView>>,
    u: int,
    n: nat,
    row: int,
    object: Json,
    field: int,
    other: int,
)
    requires
        e.well_formed(),
        0 <= u < e.units.len(),
        n <= e.size(u),
        exists|rows: nat| #[trigger] rectangular(columns, e.fields@.len(), rows) && 0 <= row < rows
            && 0 <= other < rows,
        0 <= field < e.fields.len(),
        other != row || (forall|m: int| 0 <= m < n ==> #[trigger] e.member(u, m) != field),
    ensures
        e.written(columns, u, n, row, object)[field][other] == columns[field][other],
        e.written(columns, u, n, row, object).len() == columns.len(),
        forall|f: int|
            0 <= f < columns.len() ==> (#[trigger] e.written(columns, u, n, row, object)[f]).len()
                == columns[f].len(),
    decreases n,
{
    if n > 0 {
        an_answer_touches_only_its_own_cells(
            e,
            columns,
            u,
            (n - 1) as nat,
            row,
            object,
            field,
            other,
        );
        let m = n - 1;
        let before = e.written(columns, u, m as nat, row, object);
        let now = e.written(columns, u, n, row, object);
        let f = e.member(u, m);
        assert(f == e.units[u].members[m]);
        let rows = choose|rows: nat| #[trigger]
            rectangular(columns, e.fields@.len(), rows) && 0 <= row < rows && 0 <= other < rows;
        assert(columns[f].len() == rows);
        assert(before[f].len() == rows);
        assert forall|g: int| 0 <= g < columns.len() implies (#[trigger] now[g]).len()
            == columns[g].len() by {
            assert(before[g].len() == columns[g].len());
        }
    }
}

/// What fits a field's type, and what does not: the kind of the value decides, for
/// a number in bounds its size, and for a name whether it is one of the variants.
pub proof fn what_fits_a_field(ty: FieldType, j: Json)
    ensures
        ty is Text ==> (validated(ty, j) is Some <==> j is Text),
        ty is Bool ==> (validated(ty, j) is Some <==> j is Bool),
        ty is Int ==> (validated(ty, j) is Some <==> (j matches Json::Number(n) && match n {
            Number::Natural(n) => n <= i64::MAX,
            Number::Negative(n) => true,
            Number::Real(_) => false,
        })),
        ty is Real ==> (validated(ty, j) is Some <==> j is Number),
        ty matches FieldType::RealBounded { min, max } ==> (validated(ty, j) is Some <==> (
        j matches Json::Number(n) && min.at_most(Double { bits: real_of(n) }) && (Double {
            bits: real_of(n),
        }).at_most(max))),
        ty matches FieldType::OneOf(variants) ==> (validated(ty, j) is Some <==> (
        j matches Json::Text(got) && exists|i: int|
            0 <= i < variants.len() && same_ignoring_case(#[trigger] views(variants@)[i], got))),
        ty matches FieldType::Level(variants) ==> (validated(ty, j) is Some <==> (
        j matches Json::Text(got) && exists|i: int|
            0 <= i < variants.len() && same_ignoring_case(#[trigger] views(variants@)[i], got))),
        ty is List ==> (validated(ty, j) is Some <==> j is Array),
        ty is Nested ==> validated(ty, j) is None,
{
    match ty {
        FieldType::OneOf(variants) | FieldType::Level(variants) => {
            if let Json::Text(got) = j {
                a_variant_is_the_first_that_is_named(views(variants@), got);
            }
        },
        _ => {},
    }
}

/// A variant is named by its letters, whatever their case, and the first that is
/// named is meant.
pub proof fn a_variant_is_the_first_that_is_named(variants: Seq<Seq<char>>, got: Seq<char>)
    ensures
        variant_of(variants, got) is Some <==> exists|i: int|
            0 <= i < variants.len() && same_ignoring_case(#[trigger] variants[i], got),
        variant_of(variants, got) is Some ==> exists|i: int|
            0 <= i < variants.len() && same_ignoring_case(#[trigger] variants[i], got) && Some(
                variants[i],
            ) == variant_of(variants, got) && forall|h: int|
                0 <= h < i ==> !same_ignoring_case(#[trigger] variants[h], got),
    decreases variants.len(),
{
    if variants.len() > 0 && !same_ignoring_case(variants[0], got) {
        let rest = variants.drop_first();
        a_variant_is_the_first_that_is_named(rest, got);
        if variant_of(rest, got) is Some {
            let i = choose|i: int|
                0 <= i < rest.len() && same_ignoring_case(#[trigger] rest[i], got) && Some(rest[i])
                    == variant_of(rest, got) && forall|h: int|
                    0 <= h < i ==> !same_ignoring_case(#[trigger] rest[h], got);
            assert(variants[i + 1] == rest[i]);
            assert forall|h: int| 0 <= h < i + 1 implies !same_ignoring_case(
                #[trigger] variants[h],
                got,
            ) by {
                if h > 0 {
                    assert(rest[h - 1] == variants[h]);
                }
            }
        } else if exists|i: int|
            0 <= i < variants.len() && same_ignoring_case(#[trigger] variants[i], got) {
            let i = choose|i: int|
                0 <= i < variants.len() && same_ignoring_case(#[trigger] variants[i], got);
            assert(rest[i - 1] == variants[i]);
        }
    } else if variants.len() > 0 {
        assert(same_ignoring_case(variants[0], got));
    }
}

/// A value that fits its field's type arrives unchanged: a boolean, a text and a
/// whole number as they are, a number in double precision, a name as the variant
/// that it names, and a list as its items that fit, in their order. No value that
/// fits becomes a NULL.
pub proof fn a_value_that_fits_arrives_unchanged(ty: FieldType, j: Json)
    requires
        validated(ty, j) is Some,
    ensures
        ({
            let cell = scalar_of(ty, validated(ty, j)->0);
            &&& cell !is Null
            &&& ty is Bool ==> (j matches Json::Bool(b) && cell == ScalarView::Bool(b))
            &&& ty is Text ==> (j matches Json::Text(s) && cell == ScalarView::Text(s))
            &&& ty is Int ==> (j matches Json::Number(n) && (cell matches ScalarView::Int(i)
                && match n {
                Number::Natural(n) => i == n,
                Number::Negative(n) => i == n,
                Number::Real(_) => false,
            }))
            &&& ty is Real || ty is RealBounded ==> (j matches Json::Number(n) && (
            cell matches ScalarView::Real(d) && (real_of(Number::Real(real_of(n))) == real_of(n)
                ==> d.bits == real_of(n))))
            &&& (ty matches FieldType::OneOf(variants) ==> (j matches Json::Text(got) && (
            cell matches ScalarView::Text(name) && same_ignoring_case(name, got) && views(
                variants@,
            ).contains(name))))
            &&& (ty matches FieldType::Level(variants) ==> (j matches Json::Text(got) && (
            cell matches ScalarView::Text(name) && same_ignoring_case(name, got) && views(
                variants@,
            ).contains(name))))
            &&& (ty matches FieldType::List(inner) ==> (j matches Json::Array(items) && (
            cell matches ScalarView::List(cells) && cells == items.filter(
                |x: Json| validated(*inner, x) is Some,
            ).map_values(|x: Json| scalar_of(*inner, validated(*inner, x)->0)))))
        }),
{
    match ty {
        FieldType::OneOf(variants) | FieldType::Level(variants) => {
            if let Json::Text(got) = j {
                a_variant_is_the_first_that_is_named(views(variants@), got);
            }
        },
        FieldType::List(inner) => {
            if let Json::Array(items) = j {
                lemma_list_cells(*inner, items);
            }
        },
        _ => {},
    }
}

proof fn lemma_list_cells(ty: FieldType, items: Seq<Json>)
    ensures
        scalars_of(ty, validated_items(ty, items)) == items.filter(
            |x: Json| validated(ty, x) is Some,
        ).map_values(|x: Json| scalar_of(ty, validated(ty, x)->0)),
    decreases items.len(),
{
    reveal(Seq::filter);
    let fits = |x: Json| validated(ty, x) is Some;
    let cell = |x: Json| scalar_of(ty, validated(ty, x)->0);
    if items.len() > 0 {
        let fewer = items.drop_last();
        lemma_list_cells(ty, fewer);
        if fits(items.last()) {
            let kept = validated_items(ty, items);
            assert(kept.drop_last() =~= validated_items(ty, fewer));
            assert(fewer.filter(fits).push(items.last()).map_values(cell) =~= fewer.filter(
                fits,
            ).map_values(cell).push(cell(items.last())));
        }
    } else {
        assert(scalars_of(ty, validated_items(ty, items)) =~= items.filter(fits).map_values(cell));
    }
}

/// An answer fills its own cells: each field of a unit that was asked for the first
/// time takes the member of its own name, unchanged, in the row that was asked
/// about; a member that is missing or does not fit leaves the cell as it was.
pub proof fn an_answer_fills_its_own_cells(
    e: &Extractor,
    s: ExtractState,
    u: int,
    row: int,
    text: Seq<char>,
    object: Json,
    m: int,
    rows: nat,
)
    requires
        e.well_formed(),
        0 <= u < e.units.len(),
        0 <= m < e.size(u),
        rectangular(s.columns, e.fields@.len(), rows),
        0 <= row < rows,
        !e.unit_hit(u, text, s.cache),
        forall|k: int| 0 <= k < e.size(u) && k != m ==> #[trigger] e.member(u, k) != e.member(u, m),
    ensures
        ({
            let field = e.fields[e.member(u, m)];
            let cell = e.unit_applied(s, u, row, text, object).columns[e.member(u, m)][row];
            let said = object.member(field.name@);
            &&& said is None ==> cell == s.columns[e.member(u, m)][row]
            &&& said is Some && validated(field.ty, said->0) is None ==> cell
                == s.columns[e.member(u, m)][row]
            &&& field.ty is Bool ==> (said matches Some(Json::Bool(b)) ==> cell == ScalarView::Bool(
                b,
            ))
            &&& field.ty is Text ==> (said matches Some(Json::Text(t)) ==> cell == ScalarView::Text(
                t,
            ))
            &&& field.ty is Int ==> (said matches Some(Json::Number(Number::Natural(n))) ==> n
                <= i64::MAX ==> cell is Int && cell->Int_0 == n)
            &&& field.ty is Int ==> (said matches Some(Json::Number(Number::Negative(n))) ==> cell
                == ScalarView::Int(n))
            &&& said is Some && validated(field.ty, said->0) is Some ==> cell == scalar_of(
                field.ty,
                validated(field.ty, said->0)->0,
            )
        }),
{
    lemma_own_cell(e, s.columns, u, e.size(u), row, object, m, rows);
    let field = e.fields[e.member(u, m)];
    if let Some(j) = object.member(field.name@) {
        what_fits_a_field(field.ty, j);
        if validated(field.ty, j) is Some {
            a_value_that_fits_arrives_unchanged(field.ty, j);
        }
    }
}

proof fn lemma_own_cell(
    e: &Extractor,
    columns: Seq<Seq<ScalarView>>,
    u: int,
    n: nat,
    row: int,
    object: Json,
    m: int,
    rows: nat,
)
    requires
        e.well_formed(),
        0 <= u < e.units.len(),
        0 <= m < e.size(u),
        n <= e.size(u),
        rectangular(columns, e.fields@.len(), rows),
        0 <= row < rows,
        forall|k: int| 0 <= k < e.size(u) && k != m ==> #[trigger] e.member(u, k) != e.member(u, m),
    ensures
        e.written(columns, u, n, row, object)[e.member(u, m)][row] == (if m < n && e.decoded(
            u,
            m,
            object,
        ) is Some {
            scalar_of(e.fields[e.member(u, m)].ty, e.decoded(u, m, object)->0)
        } else {
            columns[e.member(u, m)][row]
        }),
        rectangular(e.written(columns, u, n, row, object), e.fields@.len(), rows),
    decreases n,
{
    if n > 0 {
        let last = n - 1;
        lemma_own_cell(e, columns, u, last as nat, row, object, m, rows);
        let before = e.written(columns, u, last as nat, row, object);
        assert(e.units[u].members[last] < e.fields.len());
        assert(e.units[u].members[m] < e.fields.len());
        assert(before[e.member(u, last)].len() == rows);
        if last != m {
            assert(e.member(u, last) != e.member(u, m));
        }
    }
}

/// A cached field answers one question: another extraction, another version of the
/// unit, another field, another model, another prompt scheme or an input of another
/// hash has another key.
pub proof fn a_cached_field_answers_one_question(
    a: &Extractor,
    b: &Extractor,
    u: int,
    m: int,
    v: int,
    k: int,
    text_a: Seq<char>,
    text_b: Seq<char>,
)
    requires
        a.target_name@ != b.target_name@ || a.units[u].hash != b.units[v].hash || a.name_at(u, m)
            != b.name_at(v, k) || a.model_id@ != b.model_id@ || a.prompt_version@
            != b.prompt_version@ || input_hash(text_a) != input_hash(text_b),
    ensures
        a.key(u, m, text_a) != b.key(v, k, text_b),
{
    let x = a.key(u, m, text_a);
    let y = b.key(v, k, text_b);
    if x == y {
        assert(x.field == a.name_at(u, m) && y.field == b.name_at(v, k));
        assert(x.type_version == y.type_version);
        lemma_versions_apart(
            a.target_name@,
            a.units[u].hash as nat,
            b.target_name@,
            b.units[v].hash as nat,
        );
    }
}

/// The name and the hash can be told from the text that holds both.
proof fn lemma_versions_apart(name_a: Seq<char>, hash_a: nat, name_b: Seq<char>, hash_b: nat)
    requires
        name_a + "@"@ + hexadecimal(hash_a) == name_b + "@"@ + hexadecimal(hash_b),
    ensures
        name_a == name_b,
        hash_a == hash_b,
{
    reveal_strlit("@");
    let ha = hexadecimal(hash_a);
    let hb = hexadecimal(hash_b);
    let x = name_a + "@"@ + ha;
    let y = name_b + "@"@ + hb;
    hexadecimal_is_digits(hash_a);
    hexadecimal_is_digits(hash_b);
    assert("@"@.len() == 1);
    assert(x.len() == name_a.len() + 1 + ha.len());
    assert(y.len() == name_b.len() + 1 + hb.len());
    assert(x[name_a.len() as int] == '@');
    assert(y[name_b.len() as int] == '@');
    if name_a.len() < name_b.len() {
        let i = name_b.len() - name_a.len() - 1;
        assert(x[name_b.len() as int] == ha[i]);
    } else if name_b.len() < name_a.len() {
        let i = name_a.len() - name_b.len() - 1;
        assert(y[name_a.len() as int] == hb[i]);
    }
    assert(name_a =~= x.take(name_a.len() as int));
    assert(name_b =~= y.take(name_b.len() as int));
    assert(ha =~= x.skip(name_a.len() + 1int));
    assert(hb =~= y.skip(name_b.len() + 1int));
    hexadecimal_is_injective(hash_a, hash_b);
}

/// A request names every field of its units, and no other.
pub proof fn a_request_names_the_fields_of_its_units(e: &Extractor, units: Seq<int>, name: Seq<char>)
    ensures
        e.field_names(units).contains(name) <==> exists|i: int, m: int|
            0 <= i < units.len() && 0 <= m < e.size(units[i]) && #[trigger] e.name_at(units[i], m)
                == name,
    decreases units.len(),
{
    let names = e.field_names(units);
    if units.len() > 0 {
        let fewer = units.drop_last();
        let last = units.len() - 1;
        a_request_names_the_fields_of_its_units(e, fewer, name);
        let before = e.field_names(fewer);
        let own = e.member_names(units.last(), e.size(units.last()));
        if names.contains(name) {
            let k = choose|k: int| 0 <= k < names.len() && names[k] == name;
            if k < before.len() {
                assert(before[k] == name);
                let (i, m) = choose|i: int, m: int|
                    0 <= i < fewer.len() && 0 <= m < e.size(fewer[i]) && #[trigger] e.name_at(
                        fewer[i],
                        m,
                    ) == name;
                assert(e.name_at(units[i], m) == name);
            } else {
                assert(own[k - before.len()] == name);
                assert(e.name_at(units[last], k - before.len()) == name);
            }
        }
        if exists|i: int, m: int|
            0 <= i < units.len() && 0 <= m < e.size(units[i]) && #[trigger] e.name_at(units[i], m)
                == name {
            let (i, m) = choose|i: int, m: int|
                0 <= i < units.len() && 0 <= m < e.size(units[i]) && #[trigger] e.name_at(
                    units[i],
                    m,
                ) == name;
            if i < last {
                assert(e.name_at(fewer[i], m) == name);
                let k = choose|k: int| 0 <= k < before.len() && before[k] == name;
                assert(names[k] == name);
            } else {
                assert(own[m] == name);
                assert(names[before.len() + m] == name);
            }
        }
    }
}

/// A code fence makes no difference: what stands between the line of the opening
/// fence and the closing fence is what is read, and a text without a fence is read
/// as it is.
pub proof fn a_fence_makes_no_difference(tag: Seq<char>, body: Seq<char>, text: Seq<char>)
    requires
        !tag.contains('\n'),
    ensures
        unfenced("```"@ + tag + seq!['\n'] + body + "```"@) == trimmed(body),
        !"```"@.is_prefix_of(text) ==> unfenced(text) == text,
{
    reveal_strlit("```");
    let fence = "```"@;
    let whole = fence + tag + seq!['\n'] + body + fence;
    assert(whole.take(3) =~= fence);
    let rest = whole.skip(3);
    let tail = seq!['\n'] + body + fence;
    assert(rest =~= tag + tail);
    lemma_first_newline(tag, tail);
    assert(rest.skip(tag.len() + 1int) =~= body + fence);
    assert((body + fence).skip(body.len() as int) =~= fence);
    assert((body + fence).take(body.len() as int) =~= body);
}

proof fn lemma_first_newline(tag: Seq<char>, tail: Seq<char>)
    requires
        !tag.contains('\n'),
        tail.len() > 0,
        tail[0] == '\n',
    ensures
        first_of(tag + tail, '\n') == Some(tag.len() as int),
    decreases tag.len(),
{
    if tag.len() == 0 {
        assert(tag + tail =~= tail);
    } else {
        let less = tag.drop_first();
        assert(tag.contains(tag[0]));
        assert((tag + tail)[0] == tag[0]);
        assert((tag + tail).drop_first() =~= less + tail);
        if less.contains('\n') {
            let i = choose|i: int| 0 <= i < less.len() && less[i] == '\n';
            assert(tag[i + 1] == '\n');
        }
        lemma_first_newline(less, tail);
    }
}

/// Every field that an answer leaves unreadable is counted.
pub proof fn every_unreadable_field_is_counted(e: &Extractor, u: int, n: nat, object: Json)
    ensures
        e.invalid(u, n, object) == Seq::new(n, |m: int| m).filter(
            |m: int| e.decoded(u, m, object) is None,
        ).len(),
    decreases n,
{
    reveal(Seq::filter);
    let all = Seq::new(n, |m: int| m);
    if n > 0 {
        every_unreadable_field_is_counted(e, u, (n - 1) as nat, object);
        assert(all.drop_last() =~= Seq::new((n - 1) as nat, |m: int| m));
    }
}

/// Every row whose answer holds no object is counted as failed, and no other; and
/// nothing is written for it.
pub proof fn every_unusable_answer_fails_its_row(
    e: &Extractor,
    s: ExtractState,
    pending: Seq<PendingView>,
    answers: Seq<Option<Seq<char>>>,
)
    requires
        pending.len() == answers.len(),
    ensures
        e.rows_applied(s, pending, answers).rows_failed == s.rows_failed + answers.filter(
            |a: Option<Seq<char>>| a is None || object_in(a->0) is None,
        ).len(),
        answers.len() > 0 && (answers.last() is None || object_in(answers.last()->0) is None)
            ==> e.rows_applied(s, pending, answers).columns == e.rows_applied(
            s,
            pending.drop_last(),
            answers.drop_last(),
        ).columns && e.rows_applied(s, pending, answers).cache == e.rows_applied(
            s,
            pending.drop_last(),
            answers.drop_last(),
        ).cache,
    decreases answers.len(),
{
    reveal(Seq::filter);
    if answers.len() > 0 {
        let (p, a) = (pending.drop_last(), answers.drop_last());
        every_unusable_answer_fails_its_row(e, s, p, a);
        if let Some(object) = answered(answers.last()) {
            lemma_units_fail_no_row(
                e,
                e.rows_applied(s, p, a),
                pending.last().units,
                pending.last().row,
                pending.last().text,
                object,
            );
        }
    }
}

proof fn lemma_units_fail_no_row(
    e: &Extractor,
    s: ExtractState,
    units: Seq<int>,
    row: int,
    text: Seq<char>,
    object: Json,
)
    ensures
        e.units_applied(s, units, row, text, object).rows_failed == s.rows_failed,
    decreases units.len(),
{
    if units.len() > 0 {
        lemma_units_fail_no_row(e, s, units.drop_last(), row, text, object);
    }
}

/// The fields of a row that the cache answers are those of the units that it answers
/// whole.
pub proof fn a_hit_counts_the_fields_of_its_unit(
    e: &Extractor,
    n: nat,
    text: Seq<char>,
    c: Contents,
)
    ensures
        e.hit_fields(n, text, c) == Seq::new(
            n,
            |u: int|
                if e.unit_hit(u, text, c) {
                    e.units[u].members@.len() as int
                } else {
                    0int
                },
        ).fold_left(0int, |sum: int, size: int| sum + size),
    decreases n,
{
    let sizes = |u: int|
        if e.unit_hit(u, text, c) {
            e.units[u].members@.len() as int
        } else {
            0int
        };
    let all = Seq::new(n, sizes);
    let plus = |sum: int, size: int| sum + size;
    reveal(Seq::fold_left);
    if n > 0 {
        a_hit_counts_the_fields_of_its_unit(e, (n - 1) as nat, text, c);
        assert(all.drop_last() =~= Seq::new((n - 1) as nat, sizes));
    }
}

}
