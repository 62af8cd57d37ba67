//! Rewrites the typed-extraction markers in a projection into extract nodes.
//!
//! This is field pushdown: the rule builds each node from the fields that the
//! projection references (plus their `TOGETHER` closure), so unused fields never
//! enter the plan. Markers are only legal in the `SELECT` list; anywhere else is
//! an error at plan time, with a subquery as the escape hatch.

use vstd::prelude::*;

use crate::logical::expr::{any_call, any_calls, calls, expr_views, Expr, ExprView, Head, HeadView};
use crate::logical::plan::{
    node_formed, plan_views, tells, Inline, InlineView, Op, OpView, Outcome, Plan, PlanError,
    PlanErrorView, PlanView, Transformed,
};
use crate::logical::sem_extract::{output_column_name, output_name};
use crate::optimizer::markers::{beneath, column_expr, column_ref, name_like, named_like};
use crate::sql::ddl::{declared_type, parse_field_type_str, UNKNOWN_FIELD_TYPE};
use crate::text::{
    concat3, list_has, lowercase, lowercase_of, same, text_le, text_order_is_total,
    text_order_is_transitive, text_precedes, views,
};
use crate::types::{first_missing, kept_fields, lists, type_index, SemanticType, TypeRegistry};

verus! {

/// The marker of a whole extraction.
pub const SEM_EXTRACT_UDF_NAME: &'static str = "sem_extract";

/// The marker of one field of an extraction.
pub const SEM_EXTRACT_FIELD_UDF_NAME: &'static str = "sem_extract_field";

/// The marker of a field that is declared where it is used.
pub const SEM_EXTRACT_INLINE_UDF_NAME: &'static str = "sem_extract_inline";

/// The function that makes a struct of names and values.
pub const NAMED_STRUCT: &'static str = "named_struct";

pub const NOT_IN_SELECT: &'static str =
    "typed extraction is only supported in the SELECT list; wrap it in a subquery to filter or group on an extracted field";

pub const NOT_A_LITERAL: &'static str =
    "a typed-extraction marker argument must be a string literal";

pub const NODE_MISSING: &'static str = "typed-extraction node missing for a collected marker";

/// Turns typed-extraction markers into extract nodes below the projection.
#[derive(Debug)]
pub struct ExtractRewriteRule {
    pub registry: TypeRegistry,
}

/// A marker call found in a projection.
#[derive(Debug)]
pub enum Marker {
    /// `sem_extract(source, 'Type')`: the whole struct.
    Struct { source: Expr, target: String },
    /// `sem_extract_field(source, 'Type', 'field')`.
    Field { source: Expr, target: String, field: String },
    /// `sem_extract_inline(source, 'field', 'spec', 'doc')`.
    Inline { source: Expr, field: String, spec: String, doc: String },
}

/// What a [`Marker`] stands for.
pub enum MarkerView {
    Struct { source: ExprView, target: Seq<char> },
    Field { source: ExprView, target: Seq<char>, field: Seq<char> },
    Inline { source: ExprView, field: Seq<char>, spec: Seq<char>, doc: Seq<char> },
}

impl View for Marker {
    type V = MarkerView;

    open spec fn view(&self) -> MarkerView {
        match *self {
            Marker::Struct { source, target } => MarkerView::Struct {
                source: source@,
                target: target@,
            },
            Marker::Field { source, target, field } => MarkerView::Field {
                source: source@,
                target: target@,
                field: field@,
            },
            Marker::Inline { source, field, spec, doc } => MarkerView::Inline {
                source: source@,
                field: field@,
                spec: spec@,
                doc: doc@,
            },
        }
    }
}

pub open spec fn marker_views(markers: Seq<Marker>) -> Seq<MarkerView> {
    markers.map_values(|m: Marker| m@)
}

/// Whether a marker stands anywhere in some expressions.
pub open spec fn marked(exprs: Seq<ExprView>) -> bool {
    any_calls(exprs, SEM_EXTRACT_UDF_NAME@) || any_calls(exprs, SEM_EXTRACT_FIELD_UDF_NAME@)
        || any_calls(exprs, SEM_EXTRACT_INLINE_UDF_NAME@)
}

/// An argument of a marker that must be a string.
pub open spec fn literal_at(args: Seq<ExprView>, i: int) -> Option<Seq<char>> {
    if i < args.len() {
        match args[i].head {
            HeadView::Text(s) => Some(s),
            _ => None,
        }
    } else {
        None
    }
}

/// The marker that an expression is, if it is one; or why it cannot be.
pub open spec fn parsed(e: ExprView) -> Result<Option<MarkerView>, PlanErrorView> {
    match e.head {
        HeadView::Call(name) => {
            let needs: int = if name == SEM_EXTRACT_UDF_NAME@ {
                1
            } else if name == SEM_EXTRACT_FIELD_UDF_NAME@ {
                2
            } else if name == SEM_EXTRACT_INLINE_UDF_NAME@ {
                3
            } else {
                0
            };
            let a = literal_at(e.args, 1);
            let b = literal_at(e.args, 2);
            let c = literal_at(e.args, 3);
            if needs == 0 {
                Ok(None)
            } else if e.args.len() == 0 {
                Err(PlanErrorView::Plan("marker missing argument 0"@))
            } else if a is None || (needs >= 2 && b is None) || (needs >= 3 && c is None) {
                Err(PlanErrorView::Plan(NOT_A_LITERAL@))
            } else if needs == 1 {
                Ok(Some(MarkerView::Struct { source: e.args[0], target: a->0 }))
            } else if needs == 2 {
                Ok(Some(MarkerView::Field { source: e.args[0], target: a->0, field: b->0 }))
            } else {
                Ok(
                    Some(
                        MarkerView::Inline {
                            source: e.args[0],
                            field: a->0,
                            spec: b->0,
                            doc: c->0,
                        },
                    ),
                )
            }
        },
        _ => Ok(None),
    }
}

/// The markers of an expression, outermost and leftmost first; or why one of
/// them cannot be.
pub open spec fn collected(e: ExprView) -> Result<Seq<MarkerView>, PlanErrorView>
    decreases e,
{
    match parsed(e) {
        Err(err) => Err(err),
        Ok(own) => match collected_all(e.args) {
            Err(err) => Err(err),
            Ok(rest) => Ok(
                (match own {
                    Some(m) => seq![m],
                    None => Seq::empty(),
                }) + rest,
            ),
        },
    }
}

/// The markers of some expressions, one after another.
pub open spec fn collected_all(args: Seq<ExprView>) -> Result<Seq<MarkerView>, PlanErrorView>
    decreases args,
{
    if args.len() == 0 {
        Ok(Seq::empty())
    } else {
        match collected_all(args.drop_last()) {
            Err(err) => Err(err),
            Ok(before) => match collected(args.last()) {
                Err(err) => Err(err),
                Ok(more) => Ok(before + more),
            },
        }
    }
}

/// What is wanted of one text by one named type.
#[derive(Debug)]
pub struct NamedGroup {
    pub source: Expr,
    /// The type's name in lower case.
    pub key: String,
    /// Where the type stands in the registry.
    pub full: usize,
    pub whole: bool,
    /// The fields that are wanted of it, each once and in the order of texts.
    pub fields: Vec<String>,
}

/// A field that is declared where it is used.
#[derive(Debug)]
pub struct InlineGroup {
    pub source: Expr,
    pub field: String,
    pub spec: String,
    pub doc: String,
}

/// What a [`NamedGroup`] stands for.
pub struct NamedView {
    pub source: ExprView,
    pub key: Seq<char>,
    pub full: int,
    pub whole: bool,
    pub fields: Seq<Seq<char>>,
}

/// What an [`InlineGroup`] stands for.
pub struct InlineGroupView {
    pub source: ExprView,
    pub field: Seq<char>,
    pub spec: Seq<char>,
    pub doc: Seq<char>,
}

impl View for NamedGroup {
    type V = NamedView;

    open spec fn view(&self) -> NamedView {
        NamedView {
            source: self.source@,
            key: self.key@,
            full: self.full as int,
            whole: self.whole,
            fields: views(self.fields@),
        }
    }
}

impl View for InlineGroup {
    type V = InlineGroupView;

    open spec fn view(&self) -> InlineGroupView {
        InlineGroupView {
            source: self.source@,
            field: self.field@,
            spec: self.spec@,
            doc: self.doc@,
        }
    }
}

pub open spec fn named_views(named: Seq<NamedGroup>) -> Seq<NamedView> {
    named.map_values(|g: NamedGroup| g@)
}

pub open spec fn inline_views(inline: Seq<InlineGroup>) -> Seq<InlineGroupView> {
    inline.map_values(|g: InlineGroup| g@)
}

/// Everything that a projection wants extracted.
#[derive(Debug)]
pub struct Wanted {
    pub named: Vec<NamedGroup>,
    pub inline: Vec<InlineGroup>,
}

/// What a [`Wanted`] stands for.
pub struct WantedView {
    pub named: Seq<NamedView>,
    pub inline: Seq<InlineGroupView>,
}

impl View for Wanted {
    type V = WantedView;

    open spec fn view(&self) -> WantedView {
        WantedView { named: named_views(self.named@), inline: inline_views(self.inline@) }
    }
}

/// Where a text has its group for a type.
pub open spec fn named_index(named: Seq<NamedView>, source: ExprView, key: Seq<char>) -> Option<int>
    decreases named.len(),
{
    if named.len() == 0 {
        None
    } else {
        match named_index(named.drop_last(), source, key) {
            Some(i) => Some(i),
            None => if named.last().source == source && named.last().key == key {
                Some(named.len() - 1)
            } else {
                None
            },
        }
    }
}

/// Where a text has its group for a field declared in place.
pub open spec fn inline_index(
    inline: Seq<InlineGroupView>,
    source: ExprView,
    field: Seq<char>,
    spec: Seq<char>,
) -> Option<int>
    decreases inline.len(),
{
    if inline.len() == 0 {
        None
    } else {
        match inline_index(inline.drop_last(), source, field, spec) {
            Some(i) => Some(i),
            None => if inline.last().source == source && inline.last().field == field
                && inline.last().spec == spec {
                Some(inline.len() - 1)
            } else {
                None
            },
        }
    }
}

/// Some groups with one for the text and the type among them, and where it is;
/// or why there is none.
pub open spec fn with_named(
    types: Seq<SemanticType>,
    named: Seq<NamedView>,
    source: ExprView,
    target: Seq<char>,
) -> Result<(Seq<NamedView>, int), PlanErrorView> {
    let key = lowercase(target);
    match named_index(named, source, key) {
        Some(i) => Ok((named, i)),
        None => match type_index(types, target) {
            None => Err(
                PlanErrorView::Plan(
                    "unknown semantic type "@ + target
                        + "; define it with CREATE SEMANTIC TYPE first"@,
                ),
            ),
            Some(full) => Ok(
                (
                    named.push(
                        NamedView { source, key, full, whole: false, fields: Seq::empty() },
                    ),
                    named.len() as int,
                ),
            ),
        },
    }
}

/// Where a text goes in a list that is in order: behind all that come before it.
pub open spec fn text_place(list: Seq<Seq<char>>, text: Seq<char>) -> int
    decreases list.len(),
{
    if list.len() > 0 && text_le(text, list.last()) {
        text_place(list.drop_last(), text)
    } else {
        list.len() as int
    }
}

/// A list in order with a text in it, once.
pub open spec fn with_text(list: Seq<Seq<char>>, text: Seq<char>) -> Seq<Seq<char>> {
    if list.contains(text) {
        list
    } else {
        list.insert(text_place(list, text), text)
    }
}

/// Puts a text into a list in order, where it is not there yet.
fn put_text(list: &mut Vec<String>, text: &str)
    ensures
        views(final(list)@) == with_text(views(old(list)@), text@),
{
    if list_has(list, text) {
        return ;
    }
    let ghost all = views(list@);
    let mut i: usize = list.len();
    assert(all.take(i as int) =~= all);
    while i > 0 && text_precedes(text, list[i - 1].as_str())
        invariant
            i <= list.len(),
            list@ == old(list)@,
            all == views(list@),
            text_place(all, text@) == text_place(all.take(i as int), text@),
        decreases i,
    {
        assert(all.take(i as int).last() == list@[i - 1]@);
        assert(all.take(i as int).drop_last() =~= all.take(i - 1));
        i -= 1;
    }
    if i > 0 {
        assert(all.take(i as int).last() == list@[i - 1]@);
    }
    list.insert(i, text.to_owned());
    assert(views(list@) =~= all.insert(i as int, text@));
}

/// What is wanted once a marker is seen.
pub open spec fn observed(types: Seq<SemanticType>, w: WantedView, m: MarkerView) -> Result<
    WantedView,
    PlanErrorView,
> {
    match m {
        MarkerView::Struct { source, target } => match with_named(types, w.named, source, target) {
            Err(err) => Err(err),
            Ok((named, i)) => Ok(
                WantedView {
                    named: named.update(i, NamedView { whole: true, ..named[i] }),
                    inline: w.inline,
                },
            ),
        },
        MarkerView::Field { source, target, field } => match with_named(
            types,
            w.named,
            source,
            target,
        ) {
            Err(err) => Err(err),
            Ok((named, i)) => Ok(
                WantedView {
                    named: named.update(
                        i,
                        NamedView { fields: with_text(named[i].fields, field), ..named[i] },
                    ),
                    inline: w.inline,
                },
            ),
        },
        MarkerView::Inline { source, field, spec, doc } => Ok(
            if inline_index(w.inline, source, field, spec) is Some {
                w
            } else {
                WantedView {
                    named: w.named,
                    inline: w.inline.push(InlineGroupView { source, field, spec, doc }),
                }
            },
        ),
    }
}

/// What is wanted once some markers are seen, one after another.
pub open spec fn observed_all(types: Seq<SemanticType>, markers: Seq<MarkerView>) -> Result<
    WantedView,
    PlanErrorView,
>
    decreases markers.len(),
{
    if markers.len() == 0 {
        Ok(WantedView { named: Seq::empty(), inline: Seq::empty() })
    } else {
        match observed_all(types, markers.drop_last()) {
            Err(err) => Err(err),
            Ok(w) => observed(types, w, markers.last()),
        }
    }
}

/// The fields that a group extracts; or why it cannot.
pub open spec fn group_fields(types: Seq<SemanticType>, g: NamedView) -> Result<
    Seq<Seq<char>>,
    PlanErrorView,
> {
    let full = types[g.full];
    if g.whole {
        Ok(full.names())
    } else {
        match first_missing(full.names(), g.fields) {
            Some(field) => Err(
                PlanErrorView::Plan(
                    "semantic type "@ + full.name@ + " has no field "@ + field,
                ),
            ),
            None => Ok(kept_fields(full.names(), lists(full.together@), g.fields)),
        }
    }
}

/// The fields of the groups, one after another.
pub open spec fn all_group_fields(types: Seq<SemanticType>, named: Seq<NamedView>) -> Result<
    Seq<Seq<Seq<char>>>,
    PlanErrorView,
>
    decreases named.len(),
{
    if named.len() == 0 {
        Ok(Seq::empty())
    } else {
        match all_group_fields(types, named.drop_last()) {
            Err(err) => Err(err),
            Ok(before) => match group_fields(types, named.last()) {
                Err(err) => Err(err),
                Ok(fields) => Ok(before.push(fields)),
            },
        }
    }
}

/// An extract node over a plan.
pub open spec fn extract_node(
    source: ExprView,
    target: Seq<char>,
    fields: Seq<Seq<char>>,
    inline: Option<InlineView>,
    input: PlanView,
    id: nat,
) -> PlanView {
    PlanView {
        op: OpView::SemExtract { target, fields, inline, id },
        exprs: seq![source],
        inputs: seq![input],
    }
}

/// One node per named group, stacked above a plan.
pub open spec fn stacked_named(
    types: Seq<SemanticType>,
    named: Seq<NamedView>,
    fields: Seq<Seq<Seq<char>>>,
    input: PlanView,
) -> PlanView
    decreases named.len(),
{
    if named.len() == 0 {
        input
    } else {
        let i = (named.len() - 1) as nat;
        extract_node(
            named.last().source,
            types[named.last().full].name@,
            fields[i as int],
            None,
            stacked_named(types, named.drop_last(), fields, input),
            i,
        )
    }
}

/// One node per field declared in place, stacked above a plan.
pub open spec fn stacked_inline(
    inline: Seq<InlineGroupView>,
    input: PlanView,
    first_id: nat,
) -> PlanView
    decreases inline.len(),
{
    if inline.len() == 0 {
        input
    } else {
        let g = inline.last();
        extract_node(
            g.source,
            "__extract_"@ + g.field,
            seq![g.field],
            Some(InlineView { spec: g.spec, doc: g.doc }),
            stacked_inline(inline.drop_last(), input, first_id),
            (first_id + inline.len() - 1) as nat,
        )
    }
}

/// A reference to the column of a field of a node.
pub open spec fn field_column(id: nat, field: Seq<char>) -> ExprView {
    column_ref(output_name(id, field))
}

/// A string literal.
pub open spec fn text_literal(s: Seq<char>) -> ExprView {
    ExprView { head: HeadView::Text(s), args: Seq::empty() }
}

/// The names of some fields of a node, each before its column.
pub open spec fn struct_args(id: nat, fields: Seq<Seq<char>>) -> Seq<ExprView>
    decreases fields.len(),
{
    if fields.len() == 0 {
        Seq::empty()
    } else {
        struct_args(id, fields.drop_last()).push(text_literal(fields.last())).push(
            field_column(id, fields.last()),
        )
    }
}

/// What stands in for a marker.
pub open spec fn stand_in(m: MarkerView, w: WantedView, fields: Seq<Seq<Seq<char>>>) -> Result<
    ExprView,
    PlanErrorView,
> {
    match m {
        MarkerView::Struct { source, target } => match named_index(
            w.named,
            source,
            lowercase(target),
        ) {
            None => Err(PlanErrorView::Internal(NODE_MISSING@)),
            Some(i) => Ok(
                ExprView {
                    head: HeadView::Call(NAMED_STRUCT@),
                    args: struct_args(i as nat, fields[i]),
                },
            ),
        },
        MarkerView::Field { source, target, field } => match named_index(
            w.named,
            source,
            lowercase(target),
        ) {
            None => Err(PlanErrorView::Internal(NODE_MISSING@)),
            Some(i) => Ok(field_column(i as nat, field)),
        },
        MarkerView::Inline { source, field, spec, .. } => match inline_index(
            w.inline,
            source,
            field,
            spec,
        ) {
            None => Err(PlanErrorView::Internal(NODE_MISSING@)),
            Some(i) => Ok(field_column((w.named.len() + i) as nat, field)),
        },
    }
}

/// An expression with every marker replaced, innermost first.
pub open spec fn replaced(e: ExprView, w: WantedView, fields: Seq<Seq<Seq<char>>>) -> Result<
    ExprView,
    PlanErrorView,
>
    decreases e,
{
    match replaced_all(e.args, w, fields) {
        Err(err) => Err(err),
        Ok(args) => {
            let now = ExprView { head: e.head, args };
            match parsed(now) {
                Err(err) => Err(err),
                Ok(None) => Ok(now),
                Ok(Some(m)) => stand_in(m, w, fields),
            }
        },
    }
}

/// Some expressions with every marker replaced, one after another.
pub open spec fn replaced_all(
    args: Seq<ExprView>,
    w: WantedView,
    fields: Seq<Seq<Seq<char>>>,
) -> Result<Seq<ExprView>, PlanErrorView>
    decreases args,
{
    if args.len() == 0 {
        Ok(Seq::empty())
    } else {
        match replaced_all(args.drop_last(), w, fields) {
            Err(err) => Err(err),
            Ok(before) => match replaced(args.last(), w, fields) {
                Err(err) => Err(err),
                Ok(e) => Ok(before.push(e)),
            },
        }
    }
}

/// Some output expressions, each under the name that it had.
pub open spec fn outputs(exprs: Seq<ExprView>, w: WantedView, fields: Seq<Seq<Seq<char>>>) -> Result<
    Seq<ExprView>,
    PlanErrorView,
>
    decreases exprs.len(),
{
    if exprs.len() == 0 {
        Ok(Seq::empty())
    } else {
        match outputs(exprs.drop_last(), w, fields) {
            Err(err) => Err(err),
            Ok(before) => match replaced(exprs.last(), w, fields) {
                Err(err) => Err(err),
                Ok(e) => Ok(before.push(named_like(e, exprs.last()))),
            },
        }
    }
}

/// The first declaration in place that gives its field no type.
pub open spec fn first_untyped(inline: Seq<InlineGroupView>) -> Option<Seq<char>>
    decreases inline.len(),
{
    if inline.len() == 0 {
        None
    } else {
        match first_untyped(inline.drop_last()) {
            Some(spec) => Some(spec),
            None => if declared_type(inline.last().spec) is None {
                Some(inline.last().spec)
            } else {
                None
            },
        }
    }
}

/// What the rule makes of a plan node.
pub open spec fn extract_outcome(types: Seq<SemanticType>, plan: PlanView) -> Outcome {
    if !(plan.op is Projection) {
        if marked(plan.exprs) {
            Outcome::Refused(PlanErrorView::Plan(NOT_IN_SELECT@))
        } else {
            Outcome::Unchanged
        }
    } else {
        match collected_all(plan.exprs) {
            Err(err) => Outcome::Refused(err),
            Ok(markers) => if markers.len() == 0 {
                Outcome::Unchanged
            } else {
                match observed_all(types, markers) {
                    Err(err) => Outcome::Refused(err),
                    Ok(w) => match all_group_fields(types, w.named) {
                        Err(err) => Outcome::Refused(err),
                        Ok(fields) => match first_untyped(w.inline) {
                            Some(spec) => Outcome::Refused(
                                PlanErrorView::Plan(UNKNOWN_FIELD_TYPE@ + spec),
                            ),
                            None => match outputs(plan.exprs, w, fields) {
                                Err(err) => Outcome::Refused(err),
                                Ok(exprs) => Outcome::Changed(
                                    PlanView {
                                        op: plan.op,
                                        exprs,
                                        inputs: seq![
                                            stacked_inline(
                                                w.inline,
                                                stacked_named(
                                                    types,
                                                    w.named,
                                                    fields,
                                                    plan.inputs[0],
                                                ),
                                                w.named.len(),
                                            ),
                                        ],
                                    },
                                ),
                            },
                        },
                    },
                }
            },
        }
    }
}

/// An argument of a marker that must be a string.
fn literal(args: &Vec<Expr>, i: usize) -> (r: Option<String>)
    ensures
        match r {
            Some(s) => literal_at(expr_views(args@), i as int) == Some(s@),
            None => literal_at(expr_views(args@), i as int) is None,
        },
{
    if i < args.len() {
        assert(expr_views(args@)[i as int] == args@[i as int]@);
        match &args[i].head {
            Head::Text(s) => Some(s.clone()),
            _ => None,
        }
    } else {
        None
    }
}

/// Reads a marker call.
pub fn parse_marker(e: &Expr) -> (r: Result<Option<Marker>, PlanError>)
    ensures
        match r {
            Ok(Some(m)) => parsed(e@) == Ok::<Option<MarkerView>, PlanErrorView>(Some(m@)),
            Ok(None) => parsed(e@) == Ok::<Option<MarkerView>, PlanErrorView>(None),
            Err(err) => parsed(e@) == Err::<Option<MarkerView>, PlanErrorView>(err@),
        },
{
    let needs: usize = match &e.head {
        Head::Call(name) => if same(name.as_str(), SEM_EXTRACT_UDF_NAME) {
            1
        } else if same(name.as_str(), SEM_EXTRACT_FIELD_UDF_NAME) {
            2
        } else if same(name.as_str(), SEM_EXTRACT_INLINE_UDF_NAME) {
            3
        } else {
            0
        },
        _ => 0,
    };
    if needs == 0 {
        return Ok(None);
    }
    assert(e@.args.len() == e.args@.len());
    if e.args.len() == 0 {
        return Err(PlanError::Plan("marker missing argument 0".to_owned()));
    }
    assert(e@.args[0] == e.args@[0]@);
    let source = e.args[0].copy();
    let a = match literal(&e.args, 1) {
        Some(a) => a,
        None => {
            return Err(PlanError::Plan(NOT_A_LITERAL.to_owned()));
        },
    };
    if needs == 1 {
        return Ok(Some(Marker::Struct { source, target: a }));
    }
    let b = match literal(&e.args, 2) {
        Some(b) => b,
        None => {
            return Err(PlanError::Plan(NOT_A_LITERAL.to_owned()));
        },
    };
    if needs == 2 {
        return Ok(Some(Marker::Field { source, target: a, field: b }));
    }
    match literal(&e.args, 3) {
        Some(c) => Ok(Some(Marker::Inline { source, field: a, spec: b, doc: c })),
        None => Err(PlanError::Plan(NOT_A_LITERAL.to_owned())),
    }
}

proof fn lemma_collect_error(args: Seq<ExprView>, n: int)
    requires
        0 <= n <= args.len(),
        collected_all(args.take(n)) is Err,
    ensures
        collected_all(args) == collected_all(args.take(n)),
    decreases args.len(),
{
    if n == args.len() {
        assert(args.take(n) == args);
    } else {
        assert(args.drop_last().take(n) == args.take(n));
        lemma_collect_error(args.drop_last(), n);
    }
}

/// Adds the markers of an expression to a list.
fn collect_markers(e: &Expr, out: &mut Vec<Marker>) -> (r: Result<(), PlanError>)
    ensures
        match r {
            Ok(_) => collected(e@) is Ok && marker_views(final(out)@) == marker_views(old(out)@)
                + collected(e@)->Ok_0,
            Err(err) => collected(e@) == Err::<Seq<MarkerView>, PlanErrorView>(err@),
        },
    decreases e, 1nat,
{
    let ghost start = marker_views(out@);
    let ghost mut own: Seq<MarkerView> = Seq::empty();
    match parse_marker(e) {
        Err(err) => {
            return Err(err);
        },
        Ok(Some(m)) => {
            proof {
                own = seq![m@];
            }
            out.push(m);
            assert(marker_views(out@) == start + own);
        },
        Ok(None) => {
            assert(marker_views(out@) == start + own);
        },
    }
    assert(e@.args == expr_views(e.args@));
    let ghost all = expr_views(e.args@);
    let mut i: usize = 0;
    assert(start + own + Seq::<MarkerView>::empty() == start + own);
    while i < e.args.len()
        invariant
            i <= e.args.len(),
            all == expr_views(e.args@),
            all == e@.args,
            parsed(e@) == Ok::<Option<MarkerView>, PlanErrorView>(
                if own.len() == 0 {
                    None
                } else {
                    Some(own[0])
                },
            ),
            own.len() <= 1,
            collected_all(all.take(i as int)) is Ok,
            marker_views(out@) == start + own + collected_all(all.take(i as int))->Ok_0,
        decreases e.args.len() - i,
    {
        assert(all.take(i + 1).drop_last() == all.take(i as int));
        assert(all.take(i + 1).last() == e.args@[i as int]@);
        assert(decreases_to!(*e => e.args@[i as int]));
        let ghost so_far = collected_all(all.take(i as int))->Ok_0;
        match collect_markers(&e.args[i], out) {
            Ok(_) => {
                assert(marker_views(out@) == start + own + (so_far + collected(
                    e.args@[i as int]@,
                )->Ok_0));
            },
            Err(err) => {
                proof {
                    lemma_collect_error(all, i + 1);
                }
                return Err(err);
            },
        }
        i += 1;
    }
    assert(all.take(i as int) == all);
    assert((match parsed(e@)->Ok_0 {
        Some(m) => seq![m],
        None => Seq::<MarkerView>::empty(),
    }) == own);
    assert(marker_views(out@) == start + (own + collected_all(all)->Ok_0));
    Ok(())
}

proof fn lemma_named_prefix(named: Seq<NamedView>, n: int, source: ExprView, key: Seq<char>)
    requires
        0 <= n <= named.len(),
        named_index(named.take(n), source, key) is Some,
    ensures
        named_index(named, source, key) == named_index(named.take(n), source, key),
    decreases named.len(),
{
    if n == named.len() {
        assert(named.take(n) == named);
    } else {
        assert(named.drop_last().take(n) == named.take(n));
        lemma_named_prefix(named.drop_last(), n, source, key);
    }
}

proof fn lemma_inline_prefix(
    inline: Seq<InlineGroupView>,
    n: int,
    source: ExprView,
    field: Seq<char>,
    spec: Seq<char>,
)
    requires
        0 <= n <= inline.len(),
        inline_index(inline.take(n), source, field, spec) is Some,
    ensures
        inline_index(inline, source, field, spec) == inline_index(
            inline.take(n),
            source,
            field,
            spec,
        ),
    decreases inline.len(),
{
    if n == inline.len() {
        assert(inline.take(n) == inline);
    } else {
        assert(inline.drop_last().take(n) == inline.take(n));
        lemma_inline_prefix(inline.drop_last(), n, source, field, spec);
    }
}

fn find_named(named: &Vec<NamedGroup>, source: &Expr, key: &str) -> (r: Option<usize>)
    ensures
        match r {
            Some(i) => i < named.len() && named_index(named_views(named@), source@, key@) == Some(
                i as int,
            ),
            None => named_index(named_views(named@), source@, key@) is None,
        },
{
    let ghost all = named_views(named@);
    let mut i: usize = 0;
    while i < named.len()
        invariant
            i <= named.len(),
            all == named_views(named@),
            named_index(all.take(i as int), source@, key@) is None,
        decreases named.len() - i,
    {
        assert(all.take(i + 1).drop_last() == all.take(i as int));
        assert(all.take(i + 1).last() == named@[i as int]@);
        if named[i].source.same(source) && same(named[i].key.as_str(), key) {
            proof {
                lemma_named_prefix(all, i + 1, source@, key@);
            }
            return Some(i);
        }
        i += 1;
    }
    assert(all.take(i as int) == all);
    None
}

fn find_inline(inline: &Vec<InlineGroup>, source: &Expr, field: &str, spec_text: &str) -> (r: Option<
    usize,
>)
    ensures
        match r {
            Some(i) => i < inline.len() && inline_index(
                inline_views(inline@),
                source@,
                field@,
                spec_text@,
            ) == Some(i as int),
            None => inline_index(inline_views(inline@), source@, field@, spec_text@) is None,
        },
{
    let ghost all = inline_views(inline@);
    let mut i: usize = 0;
    while i < inline.len()
        invariant
            i <= inline.len(),
            all == inline_views(inline@),
            inline_index(all.take(i as int), source@, field@, spec_text@) is None,
        decreases inline.len() - i,
    {
        assert(all.take(i + 1).drop_last() == all.take(i as int));
        assert(all.take(i + 1).last() == inline@[i as int]@);
        if inline[i].source.same(source) && same(inline[i].field.as_str(), field) && same(
            inline[i].spec.as_str(),
            spec_text,
        ) {
            proof {
                lemma_inline_prefix(all, i + 1, source@, field@, spec_text@);
            }
            return Some(i);
        }
        i += 1;
    }
    assert(all.take(i as int) == all);
    None
}

/// Every group is of a type that the registry has.
pub open spec fn resolved(types: Seq<SemanticType>, named: Seq<NamedView>) -> bool {
    forall|i: int| 0 <= i < named.len() ==> 0 <= (#[trigger] named[i]).full < types.len()
}

/// Finds the group of a text and a type, making one where there is none.
fn named_group(
    registry: &TypeRegistry,
    named: &mut Vec<NamedGroup>,
    source: &Expr,
    target: &String,
) -> (r: Result<usize, PlanError>)
    requires
        resolved(registry.types@, named_views(old(named)@)),
    ensures
        ({
            let want = with_named(
                registry.types@,
                named_views(old(named)@),
                source@,
                target@,
            );
            match r {
                Ok(i) => want == Ok::<(Seq<NamedView>, int), PlanErrorView>(
                    (named_views(final(named)@), i as int),
                ) && i < final(named)@.len() && resolved(
                    registry.types@,
                    named_views(final(named)@),
                ),
                Err(err) => want == Err::<(Seq<NamedView>, int), PlanErrorView>(err@),
            }
        }),
{
    let key = lowercase_of(target.as_str());
    match find_named(named, source, key.as_str()) {
        Some(i) => Ok(i),
        None => match registry.find(target.as_str()) {
            None => Err(
                PlanError::Plan(
                    concat3(
                        "unknown semantic type ",
                        target.as_str(),
                        "; define it with CREATE SEMANTIC TYPE first",
                    ),
                ),
            ),
            Some(full) => {
                let ghost before = named_views(named@);
                let group = NamedGroup {
                    source: source.copy(),
                    key,
                    full,
                    whole: false,
                    fields: Vec::new(),
                };
                assert(views(group.fields@) =~= Seq::<Seq<char>>::empty());
                named.push(group);
                assert(named_views(named@) =~= before.push(group@));
                Ok(named.len() - 1)
            },
        },
    }
}

impl Wanted {
    fn observe(&mut self, registry: &TypeRegistry, marker: &Marker) -> (r: Result<(), PlanError>)
        requires
            resolved(registry.types@, old(self)@.named),
        ensures
            ({
                let want = observed(registry.types@, old(self)@, marker@);
                match r {
                    Ok(_) => want == Ok::<WantedView, PlanErrorView>(final(self)@) && resolved(
                        registry.types@,
                        final(self)@.named,
                    ),
                    Err(err) => want == Err::<WantedView, PlanErrorView>(err@),
                }
            }),
    {
        match marker {
            Marker::Struct { source, target } => {
                match named_group(registry, &mut self.named, source, target) {
                    Err(err) => Err(err),
                    Ok(i) => {
                        let ghost before = named_views(self.named@);
                        self.named[i].whole = true;
                        assert(named_views(self.named@) =~= before.update(
                            i as int,
                            NamedView { whole: true, ..before[i as int] },
                        ));
                        Ok(())
                    },
                }
            },
            Marker::Field { source, target, field } => {
                match named_group(registry, &mut self.named, source, target) {
                    Err(err) => Err(err),
                    Ok(i) => {
                        let ghost before = named_views(self.named@);
                        assert(before[i as int] == self.named@[i as int]@);
                        put_text(&mut self.named[i].fields, field.as_str());
                        assert(named_views(self.named@) =~= before.update(
                            i as int,
                            NamedView {
                                fields: with_text(before[i as int].fields, field@),
                                ..before[i as int]
                            },
                        ));
                        Ok(())
                    },
                }
            },
            Marker::Inline { source, field, spec, doc } => {
                if find_inline(
                    &self.inline,
                    source,
                    field.as_str(),
                    spec.as_str(),
                ).is_none() {
                    let ghost before = inline_views(self.inline@);
                    let group = InlineGroup {
                        source: source.copy(),
                        field: field.clone(),
                        spec: spec.clone(),
                        doc: doc.clone(),
                    };
                    self.inline.push(group);
                    assert(inline_views(self.inline@) =~= before.push(group@));
                }
                Ok(())
            },
        }
    }
}

proof fn lemma_observe_error(types: Seq<SemanticType>, markers: Seq<MarkerView>, n: int)
    requires
        0 <= n <= markers.len(),
        observed_all(types, markers.take(n)) is Err,
    ensures
        observed_all(types, markers) == observed_all(types, markers.take(n)),
    decreases markers.len(),
{
    if n == markers.len() {
        assert(markers.take(n) == markers);
    } else {
        assert(markers.drop_last().take(n) == markers.take(n));
        lemma_observe_error(types, markers.drop_last(), n);
    }
}

proof fn lemma_fields_error(types: Seq<SemanticType>, named: Seq<NamedView>, n: int)
    requires
        0 <= n <= named.len(),
        all_group_fields(types, named.take(n)) is Err,
    ensures
        all_group_fields(types, named) == all_group_fields(types, named.take(n)),
    decreases named.len(),
{
    if n == named.len() {
        assert(named.take(n) == named);
    } else {
        assert(named.drop_last().take(n) == named.take(n));
        lemma_fields_error(types, named.drop_last(), n);
    }
}

proof fn lemma_outputs_error(
    exprs: Seq<ExprView>,
    n: int,
    w: WantedView,
    fields: Seq<Seq<Seq<char>>>,
)
    requires
        0 <= n <= exprs.len(),
        outputs(exprs.take(n), w, fields) is Err,
    ensures
        outputs(exprs, w, fields) == outputs(exprs.take(n), w, fields),
    decreases exprs.len(),
{
    if n == exprs.len() {
        assert(exprs.take(n) == exprs);
    } else {
        assert(exprs.drop_last().take(n) == exprs.take(n));
        lemma_outputs_error(exprs.drop_last(), n, w, fields);
    }
}

proof fn lemma_replaced_error(
    args: Seq<ExprView>,
    n: int,
    w: WantedView,
    fields: Seq<Seq<Seq<char>>>,
)
    requires
        0 <= n <= args.len(),
        replaced_all(args.take(n), w, fields) is Err,
    ensures
        replaced_all(args, w, fields) == replaced_all(args.take(n), w, fields),
    decreases args.len(),
{
    if n == args.len() {
        assert(args.take(n) == args);
    } else {
        assert(args.drop_last().take(n) == args.take(n));
        lemma_replaced_error(args.drop_last(), n, w, fields);
    }
}

/// Everything that some markers want.
fn observe_all(registry: &TypeRegistry, markers: &Vec<Marker>) -> (r: Result<Wanted, PlanError>)
    ensures
        ({
            let want = observed_all(registry.types@, marker_views(markers@));
            match r {
                Ok(w) => want == Ok::<WantedView, PlanErrorView>(w@) && resolved(
                    registry.types@,
                    w@.named,
                ),
                Err(err) => want == Err::<WantedView, PlanErrorView>(err@),
            }
        }),
{
    let ghost all = marker_views(markers@);
    let mut wanted = Wanted { named: Vec::new(), inline: Vec::new() };
    let mut i: usize = 0;
    assert(named_views(wanted.named@) =~= Seq::<NamedView>::empty());
    assert(inline_views(wanted.inline@) =~= Seq::<InlineGroupView>::empty());
    while i < markers.len()
        invariant
            i <= markers.len(),
            all == marker_views(markers@),
            observed_all(registry.types@, all.take(i as int)) == Ok::<WantedView, PlanErrorView>(
                wanted@,
            ),
            resolved(registry.types@, wanted@.named),
        decreases markers.len() - i,
    {
        assert(all.take(i + 1).drop_last() == all.take(i as int));
        assert(all.take(i + 1).last() == markers@[i as int]@);
        if let Err(err) = wanted.observe(registry, &markers[i]) {
            proof {
                lemma_observe_error(registry.types@, all, i + 1);
            }
            return Err(err);
        }
        i += 1;
    }
    assert(all.take(i as int) == all);
    Ok(wanted)
}

/// The fields that each named group extracts.
fn fields_of(registry: &TypeRegistry, named: &Vec<NamedGroup>) -> (r: Result<
    Vec<Vec<String>>,
    PlanError,
>)
    requires
        resolved(registry.types@, named_views(named@)),
    ensures
        ({
            let want = all_group_fields(registry.types@, named_views(named@));
            match r {
                Ok(fields) => want == Ok::<Seq<Seq<Seq<char>>>, PlanErrorView>(lists(fields@))
                    && fields@.len() == named@.len(),
                Err(err) => want == Err::<Seq<Seq<Seq<char>>>, PlanErrorView>(err@),
            }
        }),
{
    let ghost types = registry.types@;
    let ghost all = named_views(named@);
    let mut out: Vec<Vec<String>> = Vec::new();
    let mut i: usize = 0;
    assert(lists(out@) =~= Seq::<Seq<Seq<char>>>::empty());
    while i < named.len()
        invariant
            i <= named.len(),
            types == registry.types@,
            all == named_views(named@),
            resolved(types, all),
            out@.len() == i,
            all_group_fields(types, all.take(i as int)) == Ok::<
                Seq<Seq<Seq<char>>>,
                PlanErrorView,
            >(lists(out@)),
        decreases named.len() - i,
    {
        assert(all.take(i + 1).drop_last() == all.take(i as int));
        assert(all.take(i + 1).last() == named@[i as int]@);
        let group = &named[i];
        assert(all[i as int] == group@);
        let full = &registry.types[group.full];
        let ghost before = lists(out@);
        if group.whole {
            let names = full.all_fields();
            out.push(names);
            assert(lists(out@) =~= before.push(views(names@)));
        } else {
            match full.pruned(&group.fields) {
                Ok(names) => {
                    out.push(names);
                    assert(lists(out@) =~= before.push(views(names@)));
                },
                Err(field) => {
                    proof {
                        lemma_fields_error(types, all, i + 1);
                    }
                    let about = concat3("semantic type ", full.name.as_str(), " has no field ");
                    return Err(PlanError::Plan(about.concat(field.as_str())));
                },
            }
        }
        i += 1;
    }
    assert(all.take(i as int) == all);
    Ok(out)
}

proof fn lemma_untyped_prefix(inline: Seq<InlineGroupView>, n: int)
    requires
        0 <= n <= inline.len(),
        first_untyped(inline.take(n)) is Some,
    ensures
        first_untyped(inline) == first_untyped(inline.take(n)),
    decreases inline.len(),
{
    if n == inline.len() {
        assert(inline.take(n) == inline);
    } else {
        assert(inline.drop_last().take(n) == inline.take(n));
        lemma_untyped_prefix(inline.drop_last(), n);
    }
}

/// Whether every declaration in place gives its field a type; the first that
/// does not is the error.
fn check_inline(inline: &Vec<InlineGroup>) -> (r: Result<(), PlanError>)
    ensures
        match r {
            Ok(_) => first_untyped(inline_views(inline@)) is None,
            Err(err) => first_untyped(inline_views(inline@)) matches Some(spec) && err@
                == PlanErrorView::Plan(UNKNOWN_FIELD_TYPE@ + spec),
        },
{
    let ghost all = inline_views(inline@);
    let mut i: usize = 0;
    while i < inline.len()
        invariant
            i <= inline.len(),
            all == inline_views(inline@),
            first_untyped(all.take(i as int)) is None,
        decreases inline.len() - i,
    {
        assert(all.take(i + 1).drop_last() == all.take(i as int));
        assert(all.take(i + 1).last() == inline@[i as int]@);
        if let Err(message) = parse_field_type_str(inline[i].spec.as_str()) {
            proof {
                lemma_untyped_prefix(all, i + 1);
            }
            return Err(PlanError::Plan(message));
        }
        i += 1;
    }
    assert(all.take(i as int) == all);
    Ok(())
}

/// Stacks one node per group above a plan: the named ones, then the others.
fn build(registry: &TypeRegistry, wanted: &Wanted, fields: &Vec<Vec<String>>, input: Plan) -> (r:
    Plan)
    requires
        resolved(registry.types@, wanted@.named),
        fields@.len() == wanted.named@.len(),
        wanted.named.len() + wanted.inline.len() <= usize::MAX,
    ensures
        r@ == stacked_inline(
            wanted@.inline,
            stacked_named(registry.types@, wanted@.named, lists(fields@), input@),
            wanted@.named.len(),
        ),
{
    let ghost types = registry.types@;
    let ghost all = wanted@.named;
    let ghost fl = lists(fields@);
    let ghost start = input@;
    let mut plan = input;
    let mut i: usize = 0;
    let count: usize = wanted.named.len();
    assert(all.len() == count);
    while i < count
        invariant
            i <= count == wanted.named@.len(),
            fields@.len() == count,
            types == registry.types@,
            all == named_views(wanted.named@),
            fl == lists(fields@),
            resolved(types, all),
            plan@ == stacked_named(types, all.take(i as int), fl, start),
        decreases count - i,
    {
        assert(all.take(i + 1).drop_last() == all.take(i as int));
        assert(all.take(i + 1).last() == wanted.named@[i as int]@);
        let group = &wanted.named[i];
        assert(all[i as int] == group@);
        let ghost below = plan@;
        let mut exprs: Vec<Expr> = Vec::new();
        exprs.push(group.source.copy());
        let mut inputs: Vec<Plan> = Vec::new();
        inputs.push(plan);
        plan =
        Plan {
            op: Op::SemExtract {
                target: registry.types[group.full].name.clone(),
                fields: crate::text::copy_list(&fields[i]),
                inline: None,
                id: i,
            },
            exprs,
            inputs,
        };
        assert(expr_views(plan.exprs@) =~= seq![group.source@]);
        assert(plan_views(plan.inputs@) =~= seq![below]);
        assert(fl[i as int] == views(fields@[i as int]@));
        i += 1;
    }
    assert(all.take(i as int) == all);
    let ghost under = plan@;
    let ghost rest = wanted@.inline;
    let mut j: usize = 0;
    while j < wanted.inline.len()
        invariant
            j <= wanted.inline.len(),
            count + wanted.inline.len() <= usize::MAX,
            rest == inline_views(wanted.inline@),
            plan@ == stacked_inline(rest.take(j as int), under, count as nat),
        decreases wanted.inline.len() - j,
    {
        assert(rest.take(j + 1).drop_last() == rest.take(j as int));
        assert(rest.take(j + 1).last() == wanted.inline@[j as int]@);
        let group = &wanted.inline[j];
        let ghost below = plan@;
        let mut exprs: Vec<Expr> = Vec::new();
        exprs.push(group.source.copy());
        let mut inputs: Vec<Plan> = Vec::new();
        inputs.push(plan);
        let mut names: Vec<String> = Vec::new();
        names.push(group.field.clone());
        assert(views(names@) =~= seq![group.field@]);
        plan =
        Plan {
            op: Op::SemExtract {
                target: "__extract_".to_owned().concat(group.field.as_str()),
                fields: names,
                inline: Some(Inline { spec: group.spec.clone(), doc: group.doc.clone() }),
                id: count + j,
            },
            exprs,
            inputs,
        };
        assert(expr_views(plan.exprs@) =~= seq![group.source@]);
        assert(plan_views(plan.inputs@) =~= seq![below]);
        j += 1;
    }
    assert(rest.take(j as int) == rest);
    plan
}

/// A struct of every column that a node produces.
fn struct_of(id: usize, fields: &Vec<String>) -> (r: Expr)
    ensures
        r@ == (ExprView {
            head: HeadView::Call(NAMED_STRUCT@),
            args: struct_args(id as nat, views(fields@)),
        }),
{
    let ghost all = views(fields@);
    let mut args: Vec<Expr> = Vec::new();
    let mut i: usize = 0;
    assert(expr_views(args@) =~= struct_args(id as nat, all.take(0)));
    while i < fields.len()
        invariant
            i <= fields.len(),
            all == views(fields@),
            expr_views(args@) == struct_args(id as nat, all.take(i as int)),
        decreases fields.len() - i,
    {
        assert(all.take(i + 1).drop_last() == all.take(i as int));
        assert(all.take(i + 1).last() == fields@[i as int]@);
        let ghost before = expr_views(args@);
        let name = Expr { head: Head::Text(fields[i].clone()), args: Vec::new() };
        assert(expr_views(name.args@) =~= Seq::<ExprView>::empty());
        let column = column_expr(output_column_name(id, fields[i].as_str()));
        args.push(name);
        args.push(column);
        assert(expr_views(args@) =~= before.push(name@).push(column@));
        i += 1;
    }
    assert(all.take(i as int) == all);
    Expr { head: Head::Call(NAMED_STRUCT.to_owned()), args }
}

/// Swaps every marker of an expression for a column, or a struct of columns.
fn replace(e: &Expr, wanted: &Wanted, fields: &Vec<Vec<String>>) -> (r: Result<Expr, PlanError>)
    requires
        fields@.len() == wanted.named@.len(),
        wanted.named.len() + wanted.inline.len() <= usize::MAX,
    ensures
        ({
            let want = replaced(e@, wanted@, lists(fields@));
            match r {
                Ok(x) => want == Ok::<ExprView, PlanErrorView>(x@),
                Err(err) => want == Err::<ExprView, PlanErrorView>(err@),
            }
        }),
    decreases e, 1nat,
{
    let ghost all = expr_views(e.args@);
    let ghost w = wanted@;
    let ghost fl = lists(fields@);
    assert(e@.args == all);
    let mut args: Vec<Expr> = Vec::new();
    let mut i: usize = 0;
    assert(expr_views(args@) =~= Seq::<ExprView>::empty());
    while i < e.args.len()
        invariant
            i <= e.args.len(),
            fields@.len() == wanted.named@.len(),
            wanted.named.len() + wanted.inline.len() <= usize::MAX,
            all == expr_views(e.args@),
            all == e@.args,
            w == wanted@,
            fl == lists(fields@),
            replaced_all(all.take(i as int), w, fl) == Ok::<Seq<ExprView>, PlanErrorView>(
                expr_views(args@),
            ),
        decreases e.args.len() - i,
    {
        assert(all.take(i + 1).drop_last() == all.take(i as int));
        assert(all.take(i + 1).last() == e.args@[i as int]@);
        assert(decreases_to!(*e => e.args@[i as int]));
        let ghost before = expr_views(args@);
        match replace(&e.args[i], wanted, fields) {
            Err(err) => {
                proof {
                    lemma_replaced_error(all, i + 1, w, fl);
                }
                return Err(err);
            },
            Ok(x) => {
                args.push(x);
                assert(expr_views(args@) =~= before.push(x@));
            },
        }
        i += 1;
    }
    assert(all.take(i as int) == all);
    let now = Expr { head: e.head.copy(), args };
    match parse_marker(&now) {
        Err(err) => Err(err),
        Ok(None) => Ok(now),
        Ok(Some(Marker::Struct { source, target })) => {
            let key = lowercase_of(target.as_str());
            match find_named(&wanted.named, &source, key.as_str()) {
                None => Err(PlanError::Internal(NODE_MISSING.to_owned())),
                Some(i) => {
                    assert(fl[i as int] == views(fields@[i as int]@));
                    Ok(struct_of(i, &fields[i]))
                },
            }
        },
        Ok(Some(Marker::Field { source, target, field })) => {
            let key = lowercase_of(target.as_str());
            match find_named(&wanted.named, &source, key.as_str()) {
                None => Err(PlanError::Internal(NODE_MISSING.to_owned())),
                Some(i) => Ok(column_expr(output_column_name(i, field.as_str()))),
            }
        },
        Ok(Some(Marker::Inline { source, field, spec, doc: _ })) => {
            match find_inline(&wanted.inline, &source, field.as_str(), spec.as_str()) {
                None => Err(PlanError::Internal(NODE_MISSING.to_owned())),
                Some(i) => Ok(
                    column_expr(output_column_name(wanted.named.len() + i, field.as_str())),
                ),
            }
        },
    }
}

impl ExtractRewriteRule {
    pub fn new(registry: TypeRegistry) -> (r: Self)
        ensures
            r.registry == registry,
    {
        ExtractRewriteRule { registry }
    }

    /// The name that the optimizer logs the rule under.
    pub fn name(&self) -> (r: &'static str)
        ensures
            r@ == "semcast_extract_rewrite"@,
    {
        "semcast_extract_rewrite"
    }

    /// Rewrites one node of a plan, its inputs having been rewritten before.
    pub fn rewrite(&self, plan: Plan) -> (r: Result<Transformed, PlanError>)
        requires
            node_formed(plan@),
        ensures
            tells(r, plan@, extract_outcome(self.registry.types@, plan@)),
    {
        let n: usize = plan.exprs.len();
        let ghost all = expr_views(plan.exprs@);
        let ghost start = plan@;
        assert(start.exprs == all);
        let is_projection: bool = match &plan.op {
            Op::Projection => true,
            _ => false,
        };
        assert(all.subrange(0, n as int) =~= all);
        if !is_projection {
            if any_call(&plan.exprs, 0, n, SEM_EXTRACT_UDF_NAME) || any_call(
                &plan.exprs,
                0,
                n,
                SEM_EXTRACT_FIELD_UDF_NAME,
            ) || any_call(&plan.exprs, 0, n, SEM_EXTRACT_INLINE_UDF_NAME) {
                return Err(PlanError::Plan(NOT_IN_SELECT.to_owned()));
            }
            return Ok(Transformed { plan, changed: false });
        }
        assert(plan@.inputs.len() == plan.inputs@.len());
        assert(plan@.inputs[0] == plan.inputs@[0]@);
        let mut markers: Vec<Marker> = Vec::new();
        let mut i: usize = 0;
        assert(marker_views(markers@) =~= Seq::<MarkerView>::empty());
        while i < n
            invariant
                i <= n == plan.exprs@.len(),
                all == expr_views(plan.exprs@),
                start == plan@,
                start.exprs == all,
                start.op is Projection,
                collected_all(all.take(i as int)) is Ok,
                marker_views(markers@) == collected_all(all.take(i as int))->Ok_0,
            decreases n - i,
        {
            assert(all.take(i + 1).drop_last() == all.take(i as int));
            assert(all.take(i + 1).last() == plan.exprs@[i as int]@);
            if let Err(err) = collect_markers(&plan.exprs[i], &mut markers) {
                proof {
                    lemma_collect_error(all, i + 1);
                }
                return Err(err);
            }
            i += 1;
        }
        assert(all.take(i as int) == all);
        if markers.len() == 0 {
            return Ok(Transformed { plan, changed: false });
        }
        let wanted = match observe_all(&self.registry, &markers) {
            Err(err) => {
                return Err(err);
            },
            Ok(wanted) => wanted,
        };
        proof {
            lemma_wanted_len(self.registry.types@, marker_views(markers@));
            assert(wanted@.named.len() == wanted.named@.len());
            assert(wanted@.inline.len() == wanted.inline@.len());
        }
        let fields = match fields_of(&self.registry, &wanted.named) {
            Err(err) => {
                return Err(err);
            },
            Ok(fields) => fields,
        };
        if let Err(err) = check_inline(&wanted.inline) {
            return Err(err);
        }
        let ghost w = wanted@;
        let ghost fl = lists(fields@);
        let mut out: Vec<Expr> = Vec::new();
        let mut j: usize = 0;
        assert(expr_views(out@) =~= Seq::<ExprView>::empty());
        while j < n
            invariant
                j <= n == plan.exprs@.len(),
                all == expr_views(plan.exprs@),
                w == wanted@,
                fl == lists(fields@),
                fields@.len() == wanted.named@.len(),
                wanted.named.len() + wanted.inline.len() <= usize::MAX,
                start == plan@,
                start.exprs == all,
                start.op is Projection,
                collected_all(all) is Ok,
                collected_all(all)->Ok_0.len() > 0,
                observed_all(self.registry.types@, collected_all(all)->Ok_0) == Ok::<
                    WantedView,
                    PlanErrorView,
                >(w),
                all_group_fields(self.registry.types@, w.named) == Ok::<
                    Seq<Seq<Seq<char>>>,
                    PlanErrorView,
                >(fl),
                first_untyped(w.inline) is None,
                outputs(all.take(j as int), w, fl) == Ok::<Seq<ExprView>, PlanErrorView>(
                    expr_views(out@),
                ),
            decreases n - j,
        {
            assert(all.take(j + 1).drop_last() == all.take(j as int));
            assert(all.take(j + 1).last() == plan.exprs@[j as int]@);
            let ghost before = expr_views(out@);
            match replace(&plan.exprs[j], &wanted, &fields) {
                Err(err) => {
                    proof {
                        lemma_outputs_error(all, j + 1, w, fl);
                    }
                    return Err(err);
                },
                Ok(x) => {
                    let named = name_like(x, plan.exprs[j].copy());
                    out.push(named);
                    assert(expr_views(out@) =~= before.push(named@));
                },
            }
            j += 1;
        }
        assert(all.take(j as int) == all);
        let Plan { op, exprs: _, inputs } = plan;
        let mut inputs = inputs;
        match inputs.pop() {
            None => Err(PlanError::Internal(NODE_MISSING.to_owned())),
            Some(input) => {
                let ghost below = input@;
                let input = build(&self.registry, &wanted, &fields, input);
                let mut under: Vec<Plan> = Vec::new();
                under.push(input);
                assert(plan_views(under@) =~= seq![
                    stacked_inline(
                        w.inline,
                        stacked_named(self.registry.types@, w.named, fl, below),
                        w.named.len(),
                    ),
                ]);
                Ok(Transformed { plan: Plan { op, exprs: out, inputs: under }, changed: true })
            },
        }
    }
}

proof fn lemma_wanted_len(types: Seq<SemanticType>, markers: Seq<MarkerView>)
    ensures
        observed_all(types, markers) matches Ok(w) ==> w.named.len() + w.inline.len()
            <= markers.len(),
    decreases markers.len(),
{
    if markers.len() > 0 {
        lemma_wanted_len(types, markers.drop_last());
        if observed_all(types, markers) is Ok {
            let w = observed_all(types, markers.drop_last())->Ok_0;
            match markers.last() {
                MarkerView::Struct { source, target } => {
                    lemma_named_index(w.named, source, lowercase(target));
                },
                MarkerView::Field { source, target, field } => {
                    lemma_named_index(w.named, source, lowercase(target));
                },
                MarkerView::Inline { .. } => {},
            }
        }
    }
}

proof fn lemma_named_index(named: Seq<NamedView>, source: ExprView, key: Seq<char>)
    ensures
        named_index(named, source, key) matches Some(i) ==> 0 <= i < named.len()
            && named[i].source == source && named[i].key == key,
    decreases named.len(),
{
    if named.len() > 0 {
        lemma_named_index(named.drop_last(), source, key);
    }
}

/// The groups of `w` are still there in `v`, each where it was.
pub open spec fn keeps(w: WantedView, v: WantedView) -> bool {
    &&& w.named.len() <= v.named.len()
    &&& forall|i: int|
        0 <= i < w.named.len() ==> (#[trigger] v.named[i]).source == w.named[i].source
            && v.named[i].key == w.named[i].key
    &&& w.inline.is_prefix_of(v.inline)
}

/// Whether a marker has a node.
pub open spec fn has_node(w: WantedView, m: MarkerView) -> bool {
    match m {
        MarkerView::Struct { source, target } => named_index(w.named, source, lowercase(target))
            is Some,
        MarkerView::Field { source, target, .. } => named_index(w.named, source, lowercase(target))
            is Some,
        MarkerView::Inline { source, field, spec, .. } => inline_index(
            w.inline,
            source,
            field,
            spec,
        ) is Some,
    }
}

proof fn lemma_named_there(named: Seq<NamedView>, source: ExprView, key: Seq<char>, i: int)
    requires
        0 <= i < named.len(),
        named[i].source == source,
        named[i].key == key,
    ensures
        named_index(named, source, key) is Some,
    decreases named.len(),
{
    if i < named.len() - 1 {
        lemma_named_there(named.drop_last(), source, key, i);
    }
}

proof fn lemma_still_has_node(w: WantedView, v: WantedView, m: MarkerView)
    requires
        keeps(w, v),
        has_node(w, m),
    ensures
        has_node(v, m),
{
    match m {
        MarkerView::Struct { source, target } => {
            lemma_named_index(w.named, source, lowercase(target));
            let i = named_index(w.named, source, lowercase(target))->0;
            assert(v.named[i].source == w.named[i].source);
            lemma_named_there(v.named, source, lowercase(target), i);
        },
        MarkerView::Field { source, target, .. } => {
            lemma_named_index(w.named, source, lowercase(target));
            let i = named_index(w.named, source, lowercase(target))->0;
            assert(v.named[i].source == w.named[i].source);
            lemma_named_there(v.named, source, lowercase(target), i);
        },
        MarkerView::Inline { source, field, spec, .. } => {
            assert(v.inline.take(w.inline.len() as int) =~= w.inline);
            lemma_inline_prefix(v.inline, w.inline.len() as int, source, field, spec);
        },
    }
}

proof fn lemma_observed(types: Seq<SemanticType>, w: WantedView, m: MarkerView)
    requires
        observed(types, w, m) is Ok,
    ensures
        keeps(w, observed(types, w, m)->Ok_0),
        has_node(observed(types, w, m)->Ok_0, m),
{
    let v = observed(types, w, m)->Ok_0;
    match m {
        MarkerView::Struct { source, target } => {
            lemma_named_index(w.named, source, lowercase(target));
            let (named, i) = with_named(types, w.named, source, target)->Ok_0;
            assert(v.inline =~= w.inline);
            assert(v.inline.subrange(0, w.inline.len() as int) =~= w.inline);
            lemma_named_there(v.named, source, lowercase(target), i);
        },
        MarkerView::Field { source, target, field } => {
            lemma_named_index(w.named, source, lowercase(target));
            let (named, i) = with_named(types, w.named, source, target)->Ok_0;
            assert(v.inline.subrange(0, w.inline.len() as int) =~= w.inline);
            lemma_named_there(v.named, source, lowercase(target), i);
        },
        MarkerView::Inline { source, field, spec, .. } => {
            assert(v.inline.subrange(0, w.inline.len() as int) =~= w.inline);
            if inline_index(w.inline, source, field, spec) is None {
                assert(v.inline.drop_last() =~= w.inline);
            }
        },
    }
}

/// Every marker that was collected has a node.
pub proof fn every_marker_has_a_node(types: Seq<SemanticType>, markers: Seq<MarkerView>, i: int)
    requires
        0 <= i < markers.len(),
        observed_all(types, markers) is Ok,
    ensures
        has_node(observed_all(types, markers)->Ok_0, markers[i]),
    decreases markers.len(),
{
    let w = observed_all(types, markers.drop_last())->Ok_0;
    let m = markers.last();
    lemma_observed(types, w, m);
    if i < markers.len() - 1 {
        every_marker_has_a_node(types, markers.drop_last(), i);
        lemma_still_has_node(w, observed(types, w, m)->Ok_0, markers[i]);
    }
}

/// Whether texts are in order and each stands once.
pub open spec fn in_text_order(list: Seq<Seq<char>>) -> bool {
    forall|i: int, j: int|
        0 <= i < j < list.len() ==> text_le(#[trigger] list[i], #[trigger] list[j]) && list[i]
            != list[j]
}

proof fn lemma_text_place(list: Seq<Seq<char>>, text: Seq<char>)
    requires
        in_text_order(list),
    ensures
        ({
            let k = text_place(list, text);
            &&& 0 <= k <= list.len()
            &&& forall|i: int| 0 <= i < k ==> text_le(#[trigger] list[i], text)
            &&& forall|i: int| k <= i < list.len() ==> text_le(text, #[trigger] list[i])
        }),
    decreases list.len(),
{
    if list.len() > 0 {
        let last = list.len() - 1;
        if text_le(text, list.last()) {
            let before = list.drop_last();
            assert forall|i: int, j: int| 0 <= i < j < before.len() implies text_le(
                #[trigger] before[i],
                #[trigger] before[j],
            ) && before[i] != before[j] by {
                assert(before[i] == list[i] && before[j] == list[j]);
            }
            lemma_text_place(before, text);
            let k = text_place(list, text);
            assert forall|i: int| 0 <= i < k implies text_le(#[trigger] list[i], text) by {
                assert(before[i] == list[i]);
            }
            assert forall|i: int| k <= i < list.len() implies text_le(text, #[trigger] list[i]) by {
                if i < last {
                    assert(before[i] == list[i]);
                }
            }
        } else {
            text_order_is_total(text, list.last());
            assert forall|i: int| 0 <= i < list.len() implies text_le(#[trigger] list[i], text) by {
                if i < last {
                    assert(text_le(list[i], list[last]));
                    text_order_is_transitive(list[i], list[last], text);
                }
            }
        }
    }
}

proof fn lemma_with_text(list: Seq<Seq<char>>, text: Seq<char>)
    requires
        in_text_order(list),
    ensures
        in_text_order(with_text(list, text)),
{
    if !list.contains(text) {
        lemma_text_place(list, text);
        let k = text_place(list, text);
        let now = with_text(list, text);
        assert forall|i: int, j: int| 0 <= i < j < now.len() implies text_le(
            #[trigger] now[i],
            #[trigger] now[j],
        ) && now[i] != now[j] by {
            let a = if i < k {
                i
            } else {
                i - 1
            };
            let b = if j < k {
                j
            } else {
                j - 1
            };
            if i != k {
                assert(now[i] == list[a]);
            }
            if j != k {
                assert(now[j] == list[b]);
            }
        }
    }
}

/// The fields that are wanted of a type are in order, each once, whatever the
/// order of the markers: which of two missing ones is reported does not depend
/// on it.
pub proof fn wanted_fields_are_in_order(
    types: Seq<SemanticType>,
    markers: Seq<MarkerView>,
    i: int,
)
    requires
        observed_all(types, markers) is Ok,
        0 <= i < observed_all(types, markers)->Ok_0.named.len(),
    ensures
        in_text_order(observed_all(types, markers)->Ok_0.named[i].fields),
    decreases markers.len(),
{
    if markers.len() > 0 {
        let w = observed_all(types, markers.drop_last())->Ok_0;
        let m = markers.last();
        lemma_observed(types, w, m);
        if i < w.named.len() {
            wanted_fields_are_in_order(types, markers.drop_last(), i);
        }
        match m {
            MarkerView::Struct { source, target } => {
                lemma_named_index(w.named, source, lowercase(target));
            },
            MarkerView::Field { source, target, field } => {
                lemma_named_index(w.named, source, lowercase(target));
                let (named, k) = with_named(types, w.named, source, target)->Ok_0;
                if i == k {
                    lemma_with_text(named[i].fields, field);
                }
            },
            MarkerView::Inline { .. } => {},
        }
    }
}

/// Whether a name is that of a marker.
pub open spec fn marker_name(name: Seq<char>) -> bool {
    name == SEM_EXTRACT_UDF_NAME@ || name == SEM_EXTRACT_FIELD_UDF_NAME@ || name
        == SEM_EXTRACT_INLINE_UDF_NAME@
}

proof fn lemma_struct_unmarked(id: nat, fields: Seq<Seq<char>>, name: Seq<char>)
    ensures
        !any_calls(struct_args(id, fields), name),
    decreases fields.len(),
{
    if fields.len() > 0 {
        lemma_struct_unmarked(id, fields.drop_last(), name);
        let before = struct_args(id, fields.drop_last());
        let literal = text_literal(fields.last());
        let column = field_column(id, fields.last());
        assert(before.push(literal).drop_last() =~= before);
        assert(before.push(literal).push(column).drop_last() =~= before.push(literal));
        assert(!any_calls(literal.args, name));
        assert(!any_calls(column.args, name));
        assert(!calls(literal, name));
        assert(!calls(column, name));
        assert(before.push(literal).last() == literal);
        assert(before.push(literal).push(column).last() == column);
        assert(!any_calls(before.push(literal), name));
    }
}

/// No marker is left in an expression whose markers were replaced.
pub proof fn replacing_leaves_no_marker(
    e: ExprView,
    w: WantedView,
    fields: Seq<Seq<Seq<char>>>,
    name: Seq<char>,
)
    requires
        marker_name(name),
    ensures
        replaced(e, w, fields) matches Ok(x) ==> !calls(x, name),
    decreases e,
{
    if replaced(e, w, fields) is Ok {
        let x = replaced(e, w, fields)->Ok_0;
        let args = replaced_all(e.args, w, fields)->Ok_0;
        let now = ExprView { head: e.head, args };
        replacing_leaves_no_marker_in_any(e.args, w, fields, name);
        match parsed(now)->Ok_0 {
            None => {
                reveal_strlit("sem_extract");
                reveal_strlit("sem_extract_field");
                reveal_strlit("sem_extract_inline");
            },
            Some(MarkerView::Struct { source, target }) => {
                let i = named_index(w.named, source, lowercase(target))->0;
                lemma_struct_unmarked(i as nat, fields[i], name);
                reveal_strlit("sem_extract");
                reveal_strlit("sem_extract_field");
                reveal_strlit("sem_extract_inline");
                reveal_strlit("named_struct");
                assert(NAMED_STRUCT@[0] == 'n');
                assert(name[0] == 's');
            },
            Some(_) => {
                assert(x.args =~= Seq::<ExprView>::empty());
            },
        }
    }
}

proof fn replacing_leaves_no_marker_in_any(
    args: Seq<ExprView>,
    w: WantedView,
    fields: Seq<Seq<Seq<char>>>,
    name: Seq<char>,
)
    requires
        marker_name(name),
    ensures
        replaced_all(args, w, fields) matches Ok(x) ==> !any_calls(x, name),
    decreases args,
{
    if args.len() > 0 && replaced_all(args, w, fields) is Ok {
        replacing_leaves_no_marker_in_any(args.drop_last(), w, fields, name);
        replacing_leaves_no_marker(args.last(), w, fields, name);
        let before = replaced_all(args.drop_last(), w, fields)->Ok_0;
        assert(replaced_all(args, w, fields)->Ok_0.drop_last() =~= before);
    }
}

/// A marker says what it was given: the text that is read, and the type, the field,
/// the declaration and the doc line that its literals spell out.
pub proof fn a_marker_says_what_it_was_given(
    e: ExprView,
    a: Seq<char>,
    b: Seq<char>,
    c: Seq<char>,
)
    requires
        e.args.len() > 0,
    ensures
        e.head == HeadView::Call(SEM_EXTRACT_UDF_NAME@) && e.args.len() > 1 && e.args[1].head
            == HeadView::Text(a) ==> parsed(e) == Ok::<Option<MarkerView>, PlanErrorView>(
            Some(MarkerView::Struct { source: e.args[0], target: a }),
        ),
        e.head == HeadView::Call(SEM_EXTRACT_FIELD_UDF_NAME@) && e.args.len() > 2 && e.args[1].head
            == HeadView::Text(a) && e.args[2].head == HeadView::Text(b) ==> parsed(e) == Ok::<
            Option<MarkerView>,
            PlanErrorView,
        >(Some(MarkerView::Field { source: e.args[0], target: a, field: b })),
        e.head == HeadView::Call(SEM_EXTRACT_INLINE_UDF_NAME@) && e.args.len() > 3
            && e.args[1].head == HeadView::Text(a) && e.args[2].head == HeadView::Text(b)
            && e.args[3].head == HeadView::Text(c) ==> parsed(e) == Ok::<
            Option<MarkerView>,
            PlanErrorView,
        >(Some(MarkerView::Inline { source: e.args[0], field: a, spec: b, doc: c })),
        parsed(e) matches Ok(Some(m)) ==> match m {
            MarkerView::Struct { source, .. } => source == e.args[0],
            MarkerView::Field { source, .. } => source == e.args[0],
            MarkerView::Inline { source, .. } => source == e.args[0],
        },
{
    reveal_strlit("sem_extract");
    reveal_strlit("sem_extract_field");
    reveal_strlit("sem_extract_inline");
    assert(SEM_EXTRACT_UDF_NAME@.len() == 11);
    assert(SEM_EXTRACT_FIELD_UDF_NAME@.len() == 17);
    assert(SEM_EXTRACT_INLINE_UDF_NAME@.len() == 18);
}

/// The nodes of the named types stand one above another over the input: each reads
/// its own text, extracts its own fields of its own type, and has its own number;
/// and below them all is the input, unchanged.
pub proof fn named_nodes_stand_over_the_input(
    types: Seq<SemanticType>,
    named: Seq<NamedView>,
    fields: Seq<Seq<Seq<char>>>,
    input: PlanView,
    i: int,
)
    ensures
        beneath(stacked_named(types, named, fields, input), named.len()) == input,
        0 <= i < named.len() ==> {
            let node = beneath(
                stacked_named(types, named, fields, input),
                (named.len() - 1 - i) as nat,
            );
            &&& node.exprs == seq![named[i].source]
            &&& node.op == (OpView::SemExtract {
                target: types[named[i].full].name@,
                fields: fields[i],
                inline: None,
                id: i as nat,
            })
        },
    decreases named.len(),
{
    if named.len() > 0 {
        let fewer = named.drop_last();
        named_nodes_stand_over_the_input(types, fewer, fields, input, i);
        let all = stacked_named(types, named, fields, input);
        assert(all.inputs[0] == stacked_named(types, fewer, fields, input));
        if 0 <= i < fewer.len() {
            assert(fewer[i] == named[i]);
            assert(beneath(all, (named.len() - 1 - i) as nat) == beneath(
                all.inputs[0],
                (fewer.len() - 1 - i) as nat,
            ));
        }
    }
}

/// The nodes of the fields declared in place stand one above another over what is
/// below: each reads its own text, and extracts its one field by its own
/// declaration.
pub proof fn inline_nodes_stand_over_the_input(
    inline: Seq<InlineGroupView>,
    input: PlanView,
    first_id: nat,
    i: int,
)
    ensures
        beneath(stacked_inline(inline, input, first_id), inline.len()) == input,
        0 <= i < inline.len() ==> {
            let node = beneath(
                stacked_inline(inline, input, first_id),
                (inline.len() - 1 - i) as nat,
            );
            &&& node.exprs == seq![inline[i].source]
            &&& node.op == (OpView::SemExtract {
                target: "__extract_"@ + inline[i].field,
                fields: seq![inline[i].field],
                inline: Some(InlineView { spec: inline[i].spec, doc: inline[i].doc }),
                id: (first_id + i) as nat,
            })
        },
    decreases inline.len(),
{
    if inline.len() > 0 {
        let fewer = inline.drop_last();
        inline_nodes_stand_over_the_input(fewer, input, first_id, i);
        let all = stacked_inline(inline, input, first_id);
        assert(all.inputs[0] == stacked_inline(fewer, input, first_id));
        if 0 <= i < fewer.len() {
            assert(fewer[i] == inline[i]);
            assert(beneath(all, (inline.len() - 1 - i) as nat) == beneath(
                all.inputs[0],
                (fewer.len() - 1 - i) as nat,
            ));
        }
    }
}

/// A marker reads its own node: a field becomes the column of that field of the
/// group that reads the same text by the same type, whatever the case of its name;
/// and a field declared in place that of the group with the same text and
/// declaration.
pub proof fn a_marker_reads_its_own_node(
    m: MarkerView,
    w: WantedView,
    fields: Seq<Seq<Seq<char>>>,
)
    requires
        stand_in(m, w, fields) is Ok,
    ensures
        match m {
            MarkerView::Struct { source, target } => exists|i: int|
                0 <= i < w.named.len() && (#[trigger] w.named[i]).source == source
                    && w.named[i].key == lowercase(target) && stand_in(m, w, fields)->Ok_0 == (
                ExprView {
                    head: HeadView::Call(NAMED_STRUCT@),
                    args: struct_args(i as nat, fields[i]),
                }),
            MarkerView::Field { source, target, field } => exists|i: int|
                0 <= i < w.named.len() && (#[trigger] w.named[i]).source == source
                    && w.named[i].key == lowercase(target) && stand_in(m, w, fields)->Ok_0
                    == field_column(i as nat, field),
            MarkerView::Inline { source, field, spec, .. } => exists|i: int|
                0 <= i < w.inline.len() && (#[trigger] w.inline[i]).source == source
                    && w.inline[i].field == field && w.inline[i].spec == spec && stand_in(
                    m,
                    w,
                    fields,
                )->Ok_0 == field_column((w.named.len() + i) as nat, field),
        },
{
    match m {
        MarkerView::Struct { source, target } => lemma_named_index(
            w.named,
            source,
            lowercase(target),
        ),
        MarkerView::Field { source, target, .. } => lemma_named_index(
            w.named,
            source,
            lowercase(target),
        ),
        MarkerView::Inline { source, field, spec, .. } => lemma_inline_found(
            w.inline,
            source,
            field,
            spec,
        ),
    }
}

proof fn lemma_inline_found(
    inline: Seq<InlineGroupView>,
    source: ExprView,
    field: Seq<char>,
    spec: Seq<char>,
)
    ensures
        inline_index(inline, source, field, spec) matches Some(i) ==> 0 <= i < inline.len()
            && inline[i].source == source && inline[i].field == field && inline[i].spec == spec,
    decreases inline.len(),
{
    if inline.len() > 0 {
        lemma_inline_found(inline.drop_last(), source, field, spec);
    }
}

/// A struct has its fields in their order, each column behind the name of its own
/// field.
pub proof fn a_struct_names_its_fields(id: nat, fields: Seq<Seq<char>>, k: int)
    requires
        0 <= k < fields.len(),
    ensures
        struct_args(id, fields).len() == 2 * fields.len(),
        struct_args(id, fields)[2 * k] == text_literal(fields[k]),
        struct_args(id, fields)[2 * k + 1] == field_column(id, fields[k]),
    decreases fields.len(),
{
    let fewer = fields.drop_last();
    if k < fewer.len() {
        a_struct_names_its_fields(id, fewer, k);
    } else if fewer.len() > 0 {
        a_struct_names_its_fields(id, fewer, 0);
    } else {
        assert(struct_args(id, fewer).len() == 0);
    }
}

}
