//! Marker calls, and the nodes that stand in for them.
//!
//! `relevance()`, `meaning_of()` and `semantic_key()` cannot be evaluated where
//! they are written: what they mean is a fact about the rows around. Each rule
//! collects the distinct markers of a plan node, stacks one semantic node per
//! marker below it, and swaps every marker for a reference to the column that
//! its node materializes. This module is what the three rules share.

use vstd::prelude::*;

use crate::index::dedupe::DEFAULT_SIMILARITY;
use crate::logical::expr::{
    any_call, any_calls, calls, expr_views, is_call, Expr, ExprView, Head, HeadView,
};
use crate::logical::plan::{
    plan_views, tells, Op, OpView, Outcome, Plan, PlanError, PlanErrorView, PlanView, Transformed,
};
use crate::logical::sem_cluster::{label_column_name, label_name};
use crate::logical::sem_distinct::{key_column_name, key_name};
use crate::logical::sem_rank::{score_column_name, score_name};
use crate::number::{Double, ONE};
use crate::text::{decimal, decimal_of};

verus! {

/// The name of the ranking marker.
pub const RELEVANCE_UDF_NAME: &'static str = "relevance";

/// The name of the clustering marker.
pub const MEANING_OF_UDF_NAME: &'static str = "meaning_of";

/// The name of the dedupe marker.
pub const SEMANTIC_KEY_UDF_NAME: &'static str = "semantic_key";

/// Which marker a rule looks for.
#[derive(Debug, Clone, Copy, PartialEq, Eq, Structural)]
pub enum Kind {
    Relevance,
    MeaningOf,
    SemanticKey,
}

/// What a marker says besides its text.
#[derive(Debug)]
pub enum Setting {
    /// The query to rank against.
    Query(String),
    /// The number of groups, where the query said.
    Groups(Option<u64>),
    /// The similarity of duplicates, by the bits of a single-precision number.
    Similarity(u32),
}

/// A marker call.
#[derive(Debug)]
pub struct Marker {
    pub text: Expr,
    pub setting: Setting,
}

/// What a [`Setting`] stands for.
pub enum SettingView {
    Query(Seq<char>),
    Groups(Option<u64>),
    Similarity(u32),
}

/// What a [`Marker`] stands for.
pub struct MarkerView {
    pub text: ExprView,
    pub setting: SettingView,
}

impl View for Setting {
    type V = SettingView;

    open spec fn view(&self) -> SettingView {
        match *self {
            Setting::Query(q) => SettingView::Query(q@),
            Setting::Groups(k) => SettingView::Groups(k),
            Setting::Similarity(b) => SettingView::Similarity(b),
        }
    }
}

impl View for Marker {
    type V = MarkerView;

    open spec fn view(&self) -> MarkerView {
        MarkerView { text: self.text@, setting: self.setting@ }
    }
}

pub open spec fn marker_views(markers: Seq<Marker>) -> Seq<MarkerView> {
    markers.map_values(|m: Marker| m@)
}

impl Setting {
    fn same(&self, other: &Setting) -> (r: bool)
        ensures
            r == (self@ == other@),
    {
        match self {
            Setting::Query(a) => match other {
                Setting::Query(b) => *a == *b,
                _ => false,
            },
            Setting::Groups(a) => match other {
                Setting::Groups(b) => match a {
                    Some(x) => match b {
                        Some(y) => *x == *y,
                        None => false,
                    },
                    None => b.is_none(),
                },
                _ => false,
            },
            Setting::Similarity(a) => match other {
                Setting::Similarity(b) => *a == *b,
                _ => false,
            },
        }
    }
}

impl Marker {
    /// Whether two markers ask for the same thing.
    pub fn same(&self, other: &Marker) -> (r: bool)
        ensures
            r == (self@ == other@),
    {
        self.text.same(&other.text) && self.setting.same(&other.setting)
    }
}

impl Kind {
    /// The function name of the marker.
    pub open spec fn call_name(self) -> Seq<char> {
        match self {
            Kind::Relevance => RELEVANCE_UDF_NAME@,
            Kind::MeaningOf => MEANING_OF_UDF_NAME@,
            Kind::SemanticKey => SEMANTIC_KEY_UDF_NAME@,
        }
    }

    /// The column that the node of an id materializes.
    pub open spec fn column_name(self, id: nat) -> Seq<char> {
        match self {
            Kind::Relevance => score_name(id),
            Kind::MeaningOf => label_name(id),
            Kind::SemanticKey => key_name(id),
        }
    }

    /// The message of a marker that was collected but has no node.
    pub open spec fn missing(self) -> Seq<char> {
        match self {
            Kind::Relevance => "rank node missing for a collected relevance() marker"@,
            Kind::MeaningOf => "cluster node missing for a collected meaning_of() marker"@,
            Kind::SemanticKey => "dedupe node missing for a collected semantic_key() marker"@,
        }
    }

    /// What the second argument of a marker sets, or why it cannot.
    pub open spec fn read_setting(self, arg: Option<ExprView>) -> Result<SettingView, PlanErrorView> {
        match self {
            Kind::Relevance => match arg->0.head {
                HeadView::Text(query) => Ok(SettingView::Query(query)),
                _ => Err(
                    PlanErrorView::Got(
                        "the second argument of relevance() must be a string literal (the ranking query), got: "@,
                        arg->0,
                    ),
                ),
            },
            Kind::MeaningOf => match arg {
                None => Ok(SettingView::Groups(None)),
                Some(arg) => match arg.head {
                    HeadView::Int(k) => if k == -1 || k == 0 {
                        Ok(SettingView::Groups(None))
                    } else if k > 0 {
                        Ok(SettingView::Groups(Some(k as u64)))
                    } else {
                        Err(
                            PlanErrorView::Got(
                                "INTO takes a positive number of groups, got: "@,
                                arg,
                            ),
                        )
                    },
                    _ => Err(
                        PlanErrorView::Got("INTO takes a positive number of groups, got: "@, arg),
                    ),
                },
            },
            Kind::SemanticKey => match arg {
                None => Ok(SettingView::Similarity(DEFAULT_SIMILARITY)),
                Some(arg) => match arg.head {
                    HeadView::Real(double, single) => if (Double { bits: 0 }).below(
                        Double { bits: double },
                    ) && (Double { bits: double }).at_most(Double { bits: ONE }) {
                        Ok(SettingView::Similarity(single))
                    } else {
                        Err(
                            PlanErrorView::Got(
                                "the second argument of semantic_key() must be a similarity in (0, 1] as a float literal, got: "@,
                                arg,
                            ),
                        )
                    },
                    _ => Err(
                        PlanErrorView::Got(
                            "the second argument of semantic_key() must be a similarity in (0, 1] as a float literal, got: "@,
                            arg,
                        ),
                    ),
                },
            },
        }
    }

    /// How many arguments a marker takes.
    pub open spec fn takes(self, n: nat) -> bool {
        match self {
            Kind::Relevance => n == 2,
            _ => 1 <= n <= 2,
        }
    }

    /// The message of a marker with a wrong number of arguments.
    pub open spec fn arity_message(self, n: nat) -> Seq<char> {
        match self {
            Kind::Relevance => "relevance() takes 2 arguments, got "@ + decimal(n),
            Kind::MeaningOf => "meaning_of() takes 1 or 2 arguments, got "@ + decimal(n),
            Kind::SemanticKey => "semantic_key() takes 1 or 2 arguments, got "@ + decimal(n),
        }
    }

    /// Whether an expression is a marker call.
    pub open spec fn is_marker(self, e: ExprView) -> bool {
        is_call(e, self.call_name())
    }

    /// The marker that an expression is, if it is one; or why it cannot be.
    pub open spec fn parsed(self, e: ExprView) -> Result<Option<MarkerView>, PlanErrorView> {
        if !self.is_marker(e) {
            Ok(None)
        } else if !self.takes(e.args.len()) {
            Err(PlanErrorView::Plan(self.arity_message(e.args.len())))
        } else {
            let arg = if e.args.len() > 1 {
                Some(e.args[1])
            } else {
                None
            };
            match self.read_setting(arg) {
                Ok(setting) => Ok(Some(MarkerView { text: e.args[0], setting })),
                Err(err) => Err(err),
            }
        }
    }

    fn name(self) -> (r: &'static str)
        ensures
            r@ == self.call_name(),
    {
        match self {
            Kind::Relevance => RELEVANCE_UDF_NAME,
            Kind::MeaningOf => MEANING_OF_UDF_NAME,
            Kind::SemanticKey => SEMANTIC_KEY_UDF_NAME,
        }
    }

    /// The column that the node of an id materializes.
    pub fn column(self, id: usize) -> (r: String)
        ensures
            r@ == self.column_name(id as nat),
    {
        match self {
            Kind::Relevance => score_column_name(id),
            Kind::MeaningOf => label_column_name(id),
            Kind::SemanticKey => key_column_name(id),
        }
    }

    fn missing_message(self) -> (r: String)
        ensures
            r@ == self.missing(),
    {
        match self {
            Kind::Relevance => "rank node missing for a collected relevance() marker".to_owned(),
            Kind::MeaningOf => "cluster node missing for a collected meaning_of() marker".to_owned(),
            Kind::SemanticKey => "dedupe node missing for a collected semantic_key() marker".to_owned(),
        }
    }

    fn arity_text(self, n: usize) -> (r: String)
        ensures
            r@ == self.arity_message(n as nat),
    {
        let number = decimal_of(n as u64);
        match self {
            Kind::Relevance => "relevance() takes 2 arguments, got ".to_owned().concat(
                number.as_str(),
            ),
            Kind::MeaningOf => "meaning_of() takes 1 or 2 arguments, got ".to_owned().concat(
                number.as_str(),
            ),
            Kind::SemanticKey => "semantic_key() takes 1 or 2 arguments, got ".to_owned().concat(
                number.as_str(),
            ),
        }
    }

    /// Whether an expression is a marker call.
    pub fn marks(self, e: &Expr) -> (r: bool)
        ensures
            r == self.is_marker(e@),
    {
        e.is_call_of(self.name())
    }

    fn setting(self, arg: Option<&Expr>) -> (r: Result<Setting, PlanError>)
        requires
            self == Kind::Relevance ==> arg is Some,
        ensures
            ({
                let want = self.read_setting(
                    match arg {
                        Some(a) => Some(a@),
                        None => None,
                    },
                );
                match r {
                    Ok(s) => want == Ok::<SettingView, PlanErrorView>(s@),
                    Err(e) => want == Err::<SettingView, PlanErrorView>(e@),
                }
            }),
    {
        match self {
            Kind::Relevance => match arg {
                Some(arg) => match &arg.head {
                    Head::Text(query) => Ok(Setting::Query(query.clone())),
                    _ => Err(
                        PlanError::Got(
                            "the second argument of relevance() must be a string literal (the ranking query), got: ".to_owned(),
                            arg.copy(),
                        ),
                    ),
                },
                None => Ok(Setting::Query(String::new())),
            },
            Kind::MeaningOf => match arg {
                None => Ok(Setting::Groups(None)),
                Some(arg) => match &arg.head {
                    Head::Int(k) => if *k == -1 || *k == 0 {
                        Ok(Setting::Groups(None))
                    } else if *k > 0 {
                        Ok(Setting::Groups(Some(*k as u64)))
                    } else {
                        Err(
                            PlanError::Got(
                                "INTO takes a positive number of groups, got: ".to_owned(),
                                arg.copy(),
                            ),
                        )
                    },
                    _ => Err(
                        PlanError::Got(
                            "INTO takes a positive number of groups, got: ".to_owned(),
                            arg.copy(),
                        ),
                    ),
                },
            },
            Kind::SemanticKey => match arg {
                None => Ok(Setting::Similarity(DEFAULT_SIMILARITY)),
                Some(arg) => {
                    if let Head::Real(double, single) = &arg.head {
                        let s = Double { bits: *double };
                        if (Double { bits: 0 }).lt(s) && s.le(Double { bits: ONE }) {
                            return Ok(Setting::Similarity(*single));
                        }
                    }
                    Err(
                        PlanError::Got(
                            "the second argument of semantic_key() must be a similarity in (0, 1] as a float literal, got: ".to_owned(),
                            arg.copy(),
                        ),
                    )
                },
            },
        }
    }

    /// Reads a marker call: its text, and what else it says.
    pub fn parse_marker(self, e: &Expr) -> (r: Result<Option<Marker>, PlanError>)
        ensures
            match r {
                Ok(Some(m)) => self.parsed(e@) == Ok::<Option<MarkerView>, PlanErrorView>(Some(m@)),
                Ok(None) => self.parsed(e@) == Ok::<Option<MarkerView>, PlanErrorView>(None),
                Err(err) => self.parsed(e@) == Err::<Option<MarkerView>, PlanErrorView>(err@),
            },
    {
        if !self.marks(e) {
            return Ok(None);
        }
        let n: usize = e.args.len();
        assert(e@.args.len() == n);
        let fits: bool = match self {
            Kind::Relevance => n == 2,
            _ => 1 <= n && n <= 2,
        };
        if !fits {
            return Err(PlanError::Plan(self.arity_text(n)));
        }
        assert(e@.args[0] == e.args@[0]@);
        let arg: Option<&Expr> = if n > 1 {
            assert(e@.args[1] == e.args@[1]@);
            Some(&e.args[1])
        } else {
            None
        };
        match self.setting(arg) {
            Ok(setting) => Ok(Some(Marker { text: e.args[0].copy(), setting })),
            Err(err) => Err(err),
        }
    }

    /// Whether a marker stands anywhere in an expression.
    pub open spec fn occurs(self, e: ExprView) -> bool {
        calls(e, self.call_name())
    }

    /// Whether a marker stands anywhere in some expressions.
    pub open spec fn occurs_in(self, args: Seq<ExprView>) -> bool {
        any_calls(args, self.call_name())
    }

    /// Whether a marker stands anywhere in an expression.
    pub fn contains_marker(self, e: &Expr) -> (r: bool)
        ensures
            r == self.occurs(e@),
    {
        e.contains_call(self.name())
    }

    /// Whether a marker stands anywhere in the expressions from `from` up to
    /// `to`.
    pub fn any_marker(self, exprs: &Vec<Expr>, from: usize, to: usize) -> (r: bool)
        requires
            from <= to <= exprs.len(),
        ensures
            r == self.occurs_in(expr_views(exprs@).subrange(from as int, to as int)),
    {
        any_call(exprs, from, to, self.name())
    }

    /// The markers of an expression, outermost and leftmost first; or why one
    /// of them cannot be.
    pub open spec fn collected(self, e: ExprView) -> Result<Seq<MarkerView>, PlanErrorView>
        decreases e,
    {
        match self.parsed(e) {
            Err(err) => Err(err),
            Ok(own) => match self.collected_all(e.args) {
                Err(err) => Err(err),
                Ok(rest) => Ok(
                    (match own {
                        Some(m) => seq![m],
                        None => Seq::empty(),
                    }) + rest,
                ),
            },
        }
    }

    /// The markers of some expressions, one after another.
    pub open spec fn collected_all(self, args: Seq<ExprView>) -> Result<
        Seq<MarkerView>,
        PlanErrorView,
    >
        decreases args,
    {
        if args.len() == 0 {
            Ok(Seq::empty())
        } else {
            match self.collected_all(args.drop_last()) {
                Err(err) => Err(err),
                Ok(before) => match self.collected(args.last()) {
                    Err(err) => Err(err),
                    Ok(more) => Ok(before + more),
                },
            }
        }
    }

    proof fn lemma_collect_error(self, args: Seq<ExprView>, n: int)
        requires
            0 <= n <= args.len(),
            self.collected_all(args.take(n)) is Err,
        ensures
            self.collected_all(args) == self.collected_all(args.take(n)),
        decreases args.len(),
    {
        if n == args.len() {
            assert(args.take(n) == args);
        } else {
            assert(args.drop_last().take(n) == args.take(n));
            self.lemma_collect_error(args.drop_last(), n);
        }
    }

    /// Adds the markers of an expression to a list.
    fn collect_markers(self, e: &Expr, out: &mut Vec<Marker>) -> (r: Result<(), PlanError>)
        ensures
            match r {
                Ok(_) => self.collected(e@) is Ok && marker_views(final(out)@) == marker_views(
                    old(out)@,
                ) + self.collected(e@)->Ok_0,
                Err(err) => self.collected(e@) == Err::<Seq<MarkerView>, PlanErrorView>(err@),
            },
        decreases e, 1nat,
    {
        let ghost start = marker_views(out@);
        let ghost mut own: Seq<MarkerView> = Seq::empty();
        match self.parse_marker(e) {
            Err(err) => {
                return Err(err);
            },
            Ok(Some(m)) => {
                proof {
                    own = seq![m@];
                }
                out.push(m);
                assert(marker_views(out@) == start + own);
            },
            Ok(None) => {
                assert(marker_views(out@) == start + own);
            },
        }
        assert(e@.args == expr_views(e.args@));
        let ghost all = expr_views(e.args@);
        let mut i: usize = 0;
        assert(start + own + Seq::<MarkerView>::empty() == start + own);
        while i < e.args.len()
            invariant
                i <= e.args.len(),
                all == expr_views(e.args@),
                all == e@.args,
                self.parsed(e@) == Ok::<Option<MarkerView>, PlanErrorView>(
                    if own.len() == 0 {
                        None
                    } else {
                        Some(own[0])
                    },
                ),
                own.len() <= 1,
                self.collected_all(all.take(i as int)) is Ok,
                marker_views(out@) == start + own + self.collected_all(all.take(i as int))->Ok_0,
            decreases e.args.len() - i,
        {
            assert(all.take(i + 1).drop_last() == all.take(i as int));
            assert(all.take(i + 1).last() == e.args@[i as int]@);
            assert(decreases_to!(*e => e.args@[i as int]));
            let ghost so_far = self.collected_all(all.take(i as int))->Ok_0;
            match self.collect_markers(&e.args[i], out) {
                Ok(_) => {
                    assert(marker_views(out@) == start + own + (so_far + self.collected(
                        e.args@[i as int]@,
                    )->Ok_0));
                },
                Err(err) => {
                    proof {
                        self.lemma_collect_error(all, i + 1);
                    }
                    return Err(err);
                },
            }
            i += 1;
        }
        assert(all.take(i as int) == all);
        assert((match self.parsed(e@)->Ok_0 {
            Some(m) => seq![m],
            None => Seq::<MarkerView>::empty(),
        }) == own);
        assert(marker_views(out@) == start + (own + self.collected_all(all)->Ok_0));
        Ok(())
    }
}

/// The distinct markers among some, in the order in which they first appear.
pub open spec fn distinct_markers(found: Seq<MarkerView>) -> Seq<MarkerView>
    decreases found.len(),
{
    if found.len() == 0 {
        Seq::empty()
    } else {
        let before = distinct_markers(found.drop_last());
        if before.contains(found.last()) {
            before
        } else {
            before.push(found.last())
        }
    }
}

/// Where a marker first stands among some.
pub open spec fn marker_index(markers: Seq<MarkerView>, m: MarkerView) -> Option<int>
    decreases markers.len(),
{
    if markers.len() == 0 {
        None
    } else if markers[0] == m {
        Some(0)
    } else {
        match marker_index(markers.drop_first(), m) {
            Some(i) => Some(i + 1),
            None => None,
        }
    }
}

pub proof fn lemma_marker_index(markers: Seq<MarkerView>, m: MarkerView)
    ensures
        marker_index(markers, m) is Some <==> markers.contains(m),
        marker_index(markers, m) matches Some(i) ==> 0 <= i < markers.len() && markers[i] == m,
    decreases markers.len(),
{
    if markers.len() > 0 {
        let rest = markers.drop_first();
        lemma_marker_index(rest, m);
        if markers[0] != m && markers.contains(m) {
            let k = choose|k: int| 0 <= k < markers.len() && markers[k] == m;
            assert(rest[k - 1] == m);
        }
        if rest.contains(m) {
            let k = choose|k: int| 0 <= k < rest.len() && rest[k] == m;
            assert(markers[k + 1] == m);
        }
        if marker_index(markers, m) is Some {
            let i = marker_index(markers, m)->0;
            if i > 0 {
                assert(rest[i - 1] == markers[i]);
            }
            assert(markers.contains(markers[i]));
        }
    }
}

/// Where a marker first stands among some.
fn find_marker(markers: &Vec<Marker>, m: &Marker) -> (r: Option<usize>)
    ensures
        match r {
            Some(i) => i < markers.len() && marker_index(marker_views(markers@), m@) == Some(
                i as int,
            ),
            None => marker_index(marker_views(markers@), m@) is None,
        },
{
    let ghost all = marker_views(markers@);
    let mut i: usize = 0;
    assert(all.skip(0) == all);
    while i < markers.len()
        invariant
            i <= markers.len(),
            all == marker_views(markers@),
            marker_index(all, m@) == (match marker_index(all.skip(i as int), m@) {
                Some(k) => Some(k + i),
                None => None,
            }),
        decreases markers.len() - i,
    {
        assert(all.skip(i as int)[0] == markers@[i as int]@);
        if markers[i].same(m) {
            return Some(i);
        }
        assert(all.skip(i as int).drop_first() == all.skip(i + 1));
        i += 1;
    }
    None
}

/// A reference to a column by its name alone.
pub open spec fn column_ref(name: Seq<char>) -> ExprView {
    ExprView { head: HeadView::Column(None, name), args: Seq::empty() }
}

/// A reference to a column by its name alone.
pub fn column_expr(name: String) -> (r: Expr)
    ensures
        r@ == column_ref(name@),
{
    let args: Vec<Expr> = Vec::new();
    assert(expr_views(args@) =~= Seq::<ExprView>::empty());
    Expr { head: Head::Column(None, name), args }
}

impl Kind {
    /// The distinct markers of some expressions, in the order in which they
    /// first appear; or why one of them cannot be.
    pub open spec fn groups(self, exprs: Seq<ExprView>) -> Result<Seq<MarkerView>, PlanErrorView> {
        match self.collected_all(exprs) {
            Ok(found) => Ok(distinct_markers(found)),
            Err(err) => Err(err),
        }
    }

    /// Records every marker of the expressions from `from` up to `to`, one entry
    /// per distinct marker, so that a repeated one costs one node, not two.
    pub fn observe(self, exprs: &Vec<Expr>, from: usize, to: usize) -> (r: Result<
        Vec<Marker>,
        PlanError,
    >)
        requires
            from <= to <= exprs.len(),
        ensures
            ({
                let want = self.groups(expr_views(exprs@).subrange(from as int, to as int));
                match r {
                    Ok(g) => want == Ok::<Seq<MarkerView>, PlanErrorView>(marker_views(g@)),
                    Err(e) => want == Err::<Seq<MarkerView>, PlanErrorView>(e@),
                }
            }),
    {
        let ghost all = expr_views(exprs@).subrange(from as int, to as int);
        let mut found: Vec<Marker> = Vec::new();
        let mut i: usize = from;
        assert(marker_views(found@) == self.collected_all(all.take(0))->Ok_0);
        while i < to
            invariant
                from <= i <= to <= exprs.len(),
                all == expr_views(exprs@).subrange(from as int, to as int),
                self.collected_all(all.take(i - from)) is Ok,
                marker_views(found@) == self.collected_all(all.take(i - from))->Ok_0,
            decreases to - i,
        {
            assert(all.take(i - from + 1).drop_last() == all.take(i - from));
            assert(all.take(i - from + 1).last() == exprs@[i as int]@);
            if let Err(err) = self.collect_markers(&exprs[i], &mut found) {
                proof {
                    self.lemma_collect_error(all, i - from + 1);
                }
                return Err(err);
            }
            i += 1;
        }
        assert(all.take(i - from) == all);
        Ok(dedupe_markers(found))
    }

    /// An expression with every marker replaced by a reference to its node's
    /// column, innermost first; or why it cannot be.
    pub open spec fn replaced(
        self,
        e: ExprView,
        groups: Seq<MarkerView>,
        first_id: nat,
    ) -> Result<ExprView, PlanErrorView>
        decreases e,
    {
        match self.replaced_all(e.args, groups, first_id) {
            Err(err) => Err(err),
            Ok(args) => {
                let now = ExprView { head: e.head, args };
                match self.parsed(now) {
                    Err(err) => Err(err),
                    Ok(None) => Ok(now),
                    Ok(Some(m)) => match marker_index(groups, m) {
                        Some(i) => Ok(column_ref(self.column_name((first_id + i) as nat))),
                        None => Err(PlanErrorView::Internal(self.missing())),
                    },
                }
            },
        }
    }

    /// Some expressions with every marker replaced, one after another.
    pub open spec fn replaced_all(
        self,
        args: Seq<ExprView>,
        groups: Seq<MarkerView>,
        first_id: nat,
    ) -> Result<Seq<ExprView>, PlanErrorView>
        decreases args,
    {
        if args.len() == 0 {
            Ok(Seq::empty())
        } else {
            match self.replaced_all(args.drop_last(), groups, first_id) {
                Err(err) => Err(err),
                Ok(before) => match self.replaced(args.last(), groups, first_id) {
                    Err(err) => Err(err),
                    Ok(e) => Ok(before.push(e)),
                },
            }
        }
    }

    pub proof fn lemma_replace_error(
        self,
        args: Seq<ExprView>,
        n: int,
        groups: Seq<MarkerView>,
        first_id: nat,
    )
        requires
            0 <= n <= args.len(),
            self.replaced_all(args.take(n), groups, first_id) is Err,
        ensures
            self.replaced_all(args, groups, first_id) == self.replaced_all(
                args.take(n),
                groups,
                first_id,
            ),
        decreases args.len(),
    {
        if n == args.len() {
            assert(args.take(n) == args);
        } else {
            assert(args.drop_last().take(n) == args.take(n));
            self.lemma_replace_error(args.drop_last(), n, groups, first_id);
        }
    }

    /// Swaps every marker of an expression for its node's column.
    pub fn replace(self, e: &Expr, groups: &Vec<Marker>, first_id: usize) -> (r: Result<
        Expr,
        PlanError,
    >)
        requires
            first_id + groups.len() <= usize::MAX,
        ensures
            ({
                let want = self.replaced(e@, marker_views(groups@), first_id as nat);
                match r {
                    Ok(x) => want == Ok::<ExprView, PlanErrorView>(x@),
                    Err(err) => want == Err::<ExprView, PlanErrorView>(err@),
                }
            }),
        decreases e, 1nat,
    {
        let ghost all = expr_views(e.args@);
        let ghost g = marker_views(groups@);
        let ghost id = first_id as nat;
        assert(e@.args == all);
        let mut args: Vec<Expr> = Vec::new();
        let mut i: usize = 0;
        assert(expr_views(args@) =~= Seq::<ExprView>::empty());
        while i < e.args.len()
            invariant
                first_id + groups.len() <= usize::MAX,
                i <= e.args.len(),
                all == expr_views(e.args@),
                g == marker_views(groups@),
                id == first_id,
                self.replaced_all(all.take(i as int), g, id) == Ok::<Seq<ExprView>, PlanErrorView>(
                    expr_views(args@),
                ),
            decreases e.args.len() - i,
        {
            assert(all.take(i + 1).drop_last() == all.take(i as int));
            assert(all.take(i + 1).last() == e.args@[i as int]@);
            assert(decreases_to!(*e => e.args@[i as int]));
            match self.replace(&e.args[i], groups, first_id) {
                Ok(x) => {
                    let ghost before = expr_views(args@);
                    args.push(x);
                    assert(expr_views(args@) =~= before.push(x@));
                },
                Err(err) => {
                    proof {
                        self.lemma_replace_error(all, i + 1, g, id);
                    }
                    return Err(err);
                },
            }
            i += 1;
        }
        assert(all.take(i as int) == all);
        let now = Expr { head: e.head.copy(), args };
        match self.parse_marker(&now) {
            Err(err) => Err(err),
            Ok(None) => Ok(now),
            Ok(Some(m)) => match find_marker(groups, &m) {
                Some(i) => Ok(column_expr(self.column(first_id + i))),
                None => Err(PlanError::Internal(self.missing_message())),
            },
        }
    }
}

/// The distinct markers among some, in the order in which they first appear.
fn dedupe_markers(found: Vec<Marker>) -> (r: Vec<Marker>)
    ensures
        marker_views(r@) == distinct_markers(marker_views(found@)),
{
    let ghost all = marker_views(found@);
    let mut found = found;
    let mut rest: Vec<Marker> = Vec::new();
    // The list is turned round, so that its first marker is the next to come
    // off the end.
    let ghost count = found@.len();
    let ghost original = found@;
    while found.len() > 0
        invariant
            found@.len() <= count == original.len(),
            found@ == original.take(found@.len() as int),
            rest@.len() == count - found@.len(),
            forall|k: int|
                0 <= k < rest@.len() ==> #[trigger] rest@[k] == original[count - 1 - k],
        decreases found.len(),
    {
        if let Some(m) = found.pop() {
            rest.push(m);
        }
    }
    let mut out: Vec<Marker> = Vec::new();
    let ghost mut done: int = 0;
    assert(marker_views(out@) == distinct_markers(all.take(0)));
    while rest.len() > 0
        invariant
            all == marker_views(original),
            0 <= done <= count == original.len(),
            rest@.len() == count - done,
            forall|k: int|
                0 <= k < rest@.len() ==> #[trigger] rest@[k] == original[count - 1 - k],
            marker_views(out@) == distinct_markers(all.take(done)),
        decreases rest.len(),
    {
        if let Some(m) = rest.pop() {
            assert(m == original[done]);
            assert(all.take(done + 1).drop_last() == all.take(done));
            assert(all.take(done + 1).last() == m@);
            proof {
                lemma_marker_index(marker_views(out@), m@);
            }
            if find_marker(&out, &m).is_none() {
                let ghost before = marker_views(out@);
                out.push(m);
                assert(marker_views(out@) == before.push(m@));
            }
            proof {
                done = done + 1;
            }
        }
    }
    assert(all.take(done) == all);
    out
}

/// The node of a marker, over an input.
pub open spec fn marker_node(m: MarkerView, input: PlanView, limit: nat, id: nat) -> PlanView {
    PlanView {
        op: match m.setting {
            SettingView::Query(query) => OpView::SemRank { query, limit, id },
            SettingView::Groups(k) => OpView::SemCluster { k, id },
            SettingView::Similarity(similarity) => OpView::SemDistinct { similarity, id },
        },
        exprs: seq![m.text],
        inputs: seq![input],
    }
}

/// One node per marker, stacked above an input.
pub open spec fn stacked(groups: Seq<MarkerView>, input: PlanView, limit: nat, first_id: nat) -> PlanView
    decreases groups.len(),
{
    if groups.len() == 0 {
        input
    } else {
        marker_node(
            groups.last(),
            stacked(groups.drop_last(), input, limit, first_id),
            limit,
            (first_id + groups.len() - 1) as nat,
        )
    }
}

/// Stacks one node per marker above an input.
pub fn build(groups: &Vec<Marker>, input: Plan, limit: usize, first_id: usize) -> (r: Plan)
    requires
        first_id + groups.len() <= usize::MAX,
    ensures
        r@ == stacked(marker_views(groups@), input@, limit as nat, first_id as nat),
{
    let ghost all = marker_views(groups@);
    let ghost start = input@;
    let mut plan = input;
    let mut i: usize = 0;
    while i < groups.len()
        invariant
            first_id + groups.len() <= usize::MAX,
            i <= groups.len(),
            all == marker_views(groups@),
            plan@ == stacked(all.take(i as int), start, limit as nat, first_id as nat),
        decreases groups.len() - i,
    {
        assert(all.take(i + 1).drop_last() == all.take(i as int));
        let m = &groups[i];
        let id: usize = first_id + i;
        let op: Op = match &m.setting {
            Setting::Query(query) => Op::SemRank { query: query.clone(), limit, id },
            Setting::Groups(k) => Op::SemCluster { k: *k, id },
            Setting::Similarity(similarity) => Op::SemDistinct { similarity: *similarity, id },
        };
        let mut exprs: Vec<Expr> = Vec::new();
        exprs.push(m.text.copy());
        let mut inputs: Vec<Plan> = Vec::new();
        inputs.push(plan);
        plan = Plan { op, exprs, inputs };
        assert(expr_views(plan.exprs@) =~= seq![m.text@]);
        assert(plan_views(plan.inputs@) =~= seq![
            stacked(all.take(i as int), start, limit as nat, first_id as nat),
        ]);
        i += 1;
    }
    assert(all.take(i as int) == all);
    plan
}

/// Under which name an expression goes on once its markers are replaced.
#[derive(Debug, Clone, Copy, PartialEq, Eq, Structural)]
pub enum Naming {
    /// Under whatever name the replacement has.
    Free,
    /// Each under the name that it had.
    Kept,
    /// Each that held a marker under the name that it had.
    KeptWhereMarked,
}

/// An expression under the name of another.
pub open spec fn named_like(e: ExprView, original: ExprView) -> ExprView {
    ExprView { head: HeadView::NamedLike(Box::new(original)), args: seq![e] }
}

/// An expression under the name of another.
pub fn name_like(e: Expr, original: Expr) -> (r: Expr)
    ensures
        r@ == named_like(e@, original@),
{
    let mut args: Vec<Expr> = Vec::new();
    args.push(e);
    assert(expr_views(args@) =~= seq![e@]);
    Expr { head: Head::NamedLike(Box::new(original)), args }
}

impl Kind {
    /// An expression after its markers are replaced, under its name.
    pub open spec fn renamed(
        self,
        e: ExprView,
        naming: Naming,
        groups: Seq<MarkerView>,
        first_id: nat,
    ) -> Result<ExprView, PlanErrorView> {
        match self.replaced(e, groups, first_id) {
            Err(err) => Err(err),
            Ok(x) => Ok(
                match naming {
                    Naming::Free => x,
                    Naming::Kept => named_like(x, e),
                    Naming::KeptWhereMarked => if self.occurs(e) {
                        named_like(x, e)
                    } else {
                        e
                    },
                },
            ),
        }
    }

    /// Some expressions after their markers are replaced; or why the first that
    /// cannot be is refused.
    pub open spec fn renamed_all(
        self,
        exprs: Seq<ExprView>,
        naming: Naming,
        groups: Seq<MarkerView>,
        first_id: nat,
    ) -> Result<Seq<ExprView>, PlanErrorView>
        decreases exprs.len(),
    {
        if exprs.len() == 0 {
            Ok(Seq::empty())
        } else {
            match self.renamed_all(exprs.drop_last(), naming, groups, first_id) {
                Err(err) => Err(err),
                Ok(before) => match self.renamed(exprs.last(), naming, groups, first_id) {
                    Err(err) => Err(err),
                    Ok(e) => Ok(before.push(e)),
                },
            }
        }
    }

    /// A node whose first `n` expressions hold markers, over the nodes that
    /// stand in for them; or why it cannot be.
    pub open spec fn rewritten(
        self,
        plan: PlanView,
        n: nat,
        naming: Naming,
        limit: nat,
        first_id: nat,
    ) -> Result<PlanView, PlanErrorView> {
        let marked = plan.exprs.subrange(0, n as int);
        match self.groups(marked) {
            Err(err) => Err(err),
            Ok(groups) => match self.renamed_all(marked, naming, groups, first_id) {
                Err(err) => Err(err),
                Ok(exprs) => Ok(
                    PlanView {
                        op: plan.op,
                        exprs: exprs + plan.exprs.skip(n as int),
                        inputs: seq![stacked(groups, plan.inputs[0], limit, first_id)],
                    },
                ),
            },
        }
    }

    proof fn lemma_rename_error(
        self,
        exprs: Seq<ExprView>,
        n: int,
        naming: Naming,
        groups: Seq<MarkerView>,
        first_id: nat,
    )
        requires
            0 <= n <= exprs.len(),
            self.renamed_all(exprs.take(n), naming, groups, first_id) is Err,
        ensures
            self.renamed_all(exprs, naming, groups, first_id) == self.renamed_all(
                exprs.take(n),
                naming,
                groups,
                first_id,
            ),
        decreases exprs.len(),
    {
        if n == exprs.len() {
            assert(exprs.take(n) == exprs);
        } else {
            assert(exprs.drop_last().take(n) == exprs.take(n));
            self.lemma_rename_error(exprs.drop_last(), n, naming, groups, first_id);
        }
    }

    proof fn lemma_unmarked_all(self, args: Seq<ExprView>, groups: Seq<MarkerView>, first_id: nat)
        requires
            !self.occurs_in(args),
        ensures
            self.replaced_all(args, groups, first_id) == Ok::<Seq<ExprView>, PlanErrorView>(args),
        decreases args,
    {
        if args.len() > 0 {
            self.lemma_unmarked_all(args.drop_last(), groups, first_id);
            self.lemma_unmarked(args.last(), groups, first_id);
            assert(args.drop_last().push(args.last()) == args);
        } else {
            assert(args == Seq::<ExprView>::empty());
        }
    }

    proof fn lemma_unmarked(self, e: ExprView, groups: Seq<MarkerView>, first_id: nat)
        requires
            !self.occurs(e),
        ensures
            self.replaced(e, groups, first_id) == Ok::<ExprView, PlanErrorView>(e),
        decreases e,
    {
        self.lemma_unmarked_all(e.args, groups, first_id);
    }

    fn rename(&self, e: Expr, naming: Naming, groups: &Vec<Marker>, first_id: usize) -> (r: Result<
        Expr,
        PlanError,
    >)
        requires
            first_id + groups.len() <= usize::MAX,
        ensures
            ({
                let want = self.renamed(e@, naming, marker_views(groups@), first_id as nat);
                match r {
                    Ok(x) => want == Ok::<ExprView, PlanErrorView>(x@),
                    Err(err) => want == Err::<ExprView, PlanErrorView>(err@),
                }
            }),
    {
        if let Naming::KeptWhereMarked = naming {
            if !self.contains_marker(&e) {
                proof {
                    self.lemma_unmarked(e@, marker_views(groups@), first_id as nat);
                }
                return Ok(e);
            }
        }
        match self.replace(&e, groups, first_id) {
            Err(err) => Err(err),
            Ok(x) => match naming {
                Naming::Free => Ok(x),
                _ => Ok(name_like(x, e)),
            },
        }
    }

    /// Stands the nodes of the markers below a node whose first `n` expressions
    /// hold them. With it comes the number of those nodes.
    pub fn rewrite_over(
        self,
        plan: Plan,
        n: usize,
        naming: Naming,
        limit: usize,
        first_id: usize,
    ) -> (r: Result<(Plan, usize), PlanError>)
        requires
            n <= plan.exprs.len(),
            plan.inputs.len() == 1,
            first_id == 0 || (self.groups(plan@.exprs.subrange(0, n as int)) matches Ok(g)
                ==> first_id + g.len() <= usize::MAX),
        ensures
            ({
                let want = self.rewritten(plan@, n as nat, naming, limit as nat, first_id as nat);
                match r {
                    Ok((p, count)) => want == Ok::<PlanView, PlanErrorView>(p@) && self.groups(
                        plan@.exprs.subrange(0, n as int),
                    ) is Ok && count == self.groups(
                        plan@.exprs.subrange(0, n as int),
                    )->Ok_0.len(),
                    Err(e) => want == Err::<PlanView, PlanErrorView>(e@),
                }
            }),
    {
        let ghost start = plan@;
        let ghost all = expr_views(plan.exprs@);
        let ghost marked = all.subrange(0, n as int);
        assert(start.exprs == all);
        let groups = match self.observe(&plan.exprs, 0, n) {
            Err(err) => {
                return Err(err);
            },
            Ok(groups) => groups,
        };
        let ghost g = marker_views(groups@);
        let count: usize = groups.len();
        let Plan { op, exprs, inputs } = plan;
        let ghost given = exprs@;
        let mut exprs = exprs;
        let mut out: Vec<Expr> = Vec::new();
        let mut i: usize = 0;
        assert(expr_views(out@) =~= Seq::<ExprView>::empty());
        while i < exprs.len()
            invariant
                first_id + groups.len() <= usize::MAX,
                g == marker_views(groups@),
                i <= exprs.len(),
                exprs@.len() == given.len(),
                n <= given.len(),
                all == expr_views(given),
                marked == all.subrange(0, n as int),
                start == plan@,
                start.exprs == all,
                self.groups(marked) == Ok::<Seq<MarkerView>, PlanErrorView>(g),
                forall|k: int| i <= k < given.len() ==> exprs@[k] == given[k],
                i <= n ==> self.renamed_all(marked.take(i as int), naming, g, first_id as nat)
                    == Ok::<Seq<ExprView>, PlanErrorView>(expr_views(out@)),
                i > n ==> self.renamed_all(marked, naming, g, first_id as nat) is Ok && expr_views(
                    out@,
                ) == self.renamed_all(marked, naming, g, first_id as nat)->Ok_0 + all.subrange(
                    n as int,
                    i as int,
                ),
            decreases exprs.len() - i,
        {
            let mut e = Expr { head: Head::And, args: Vec::new() };
            std::mem::swap(&mut exprs[i], &mut e);
            assert(e == given[i as int]);
            let ghost before = expr_views(out@);
            let ghost e0 = e@;
            assert(all[i as int] == e0);
            if i < n {
                assert(marked.take(i + 1).drop_last() == marked.take(i as int));
                assert(marked.take(i + 1).last() == e0);
                match self.rename(e, naming, &groups, first_id) {
                    Err(err) => {
                        proof {
                            self.lemma_rename_error(marked, i + 1, naming, g, first_id as nat);
                        }
                        return Err(err);
                    },
                    Ok(x) => {
                        out.push(x);
                        assert(expr_views(out@) =~= before.push(x@));
                    },
                }
                i += 1;
            } else {
                out.push(e);
                assert(expr_views(out@) =~= before.push(e0));
                proof {
                    if i == n {
                        assert(marked.take(n as int) == marked);
                        assert(all.subrange(n as int, i + 1) =~= seq![e0]);
                        assert(before.push(e0) =~= before + seq![e0]);
                    } else {
                        assert(all.subrange(n as int, i + 1) =~= all.subrange(
                            n as int,
                            i as int,
                        ).push(e0));
                        let head = self.renamed_all(marked, naming, g, first_id as nat)->Ok_0;
                        assert((head + all.subrange(n as int, i as int)).push(e0) =~= head + all.subrange(
                            n as int,
                            i as int,
                        ).push(e0));
                    }
                }
                i += 1;
            }
        }
        assert(marked.take(n as int) == marked);
        assert(expr_views(out@) == self.renamed_all(marked, naming, g, first_id as nat)->Ok_0
            + all.skip(n as int)) by {
            if i == n {
                assert(all.skip(n as int) =~= Seq::<ExprView>::empty());
                assert(expr_views(out@) =~= expr_views(out@) + Seq::<ExprView>::empty());
            } else {
                assert(all.skip(n as int) =~= all.subrange(n as int, i as int));
            }
        }
        let mut inputs = inputs;
        let ghost below = inputs@[0]@;
        assert(start.inputs[0] == below);
        match inputs.pop() {
            None => Err(PlanError::Internal(self.missing_message())),
            Some(input) => {
                let input = build(&groups, input, limit, first_id);
                let mut stacked_input: Vec<Plan> = Vec::new();
                stacked_input.push(input);
                assert(plan_views(stacked_input@) =~= seq![
                    stacked(g, below, limit as nat, first_id as nat),
                ]);
                Ok((Plan { op, exprs: out, inputs: stacked_input }, count))
            },
        }
    }
}

/// What a rule makes of a plan, from the plan that it leads to.
pub open spec fn outcome_of(r: Result<PlanView, PlanErrorView>) -> Outcome {
    match r {
        Ok(p) => Outcome::Changed(p),
        Err(err) => Outcome::Refused(err),
    }
}

impl Kind {
    /// What becomes of a node whose first `n` expressions may hold markers.
    pub open spec fn held_outcome(self, plan: PlanView, n: nat, naming: Naming) -> Outcome {
        if !self.occurs_in(plan.exprs.subrange(0, n as int)) {
            Outcome::Unchanged
        } else {
            outcome_of(self.rewritten(plan, n, naming, 0, 0))
        }
    }

    /// What becomes of an aggregate: a marker may be one of its group keys, and
    /// nothing that rows are folded with.
    pub open spec fn aggregate_outcome(
        self,
        plan: PlanView,
        groups: nat,
        elsewhere: Seq<char>,
    ) -> Outcome {
        if self.occurs_in(plan.exprs.subrange(groups as int, plan.exprs.len() as int)) {
            Outcome::Refused(PlanErrorView::Plan(elsewhere))
        } else {
            self.held_outcome(plan, groups, Naming::KeptWhereMarked)
        }
    }

    /// What becomes of a node that may hold no marker at all.
    pub open spec fn other_outcome(self, plan: PlanView, elsewhere: Seq<char>) -> Outcome {
        if self.occurs_in(plan.exprs.subrange(0, plan.exprs.len() as int)) {
            Outcome::Refused(PlanErrorView::Plan(elsewhere))
        } else {
            Outcome::Unchanged
        }
    }

    /// Rewrites a node whose first `n` expressions may hold markers.
    pub fn rewrite_held(self, plan: Plan, n: usize, naming: Naming) -> (r: Result<
        Transformed,
        PlanError,
    >)
        requires
            n <= plan.exprs.len(),
            plan.inputs.len() == 1,
        ensures
            tells(r, plan@, self.held_outcome(plan@, n as nat, naming)),
    {
        if !self.any_marker(&plan.exprs, 0, n) {
            return Ok(Transformed { plan, changed: false });
        }
        match self.rewrite_over(plan, n, naming, 0, 0) {
            Ok((plan, _)) => Ok(Transformed { plan, changed: true }),
            Err(err) => Err(err),
        }
    }

    /// Rewrites an aggregate over its first `groups` expressions.
    pub fn rewrite_aggregate(self, plan: Plan, groups: usize, elsewhere: &str) -> (r: Result<
        Transformed,
        PlanError,
    >)
        requires
            groups <= plan.exprs.len(),
            plan.inputs.len() == 1,
        ensures
            tells(r, plan@, self.aggregate_outcome(plan@, groups as nat, elsewhere@)),
    {
        if self.any_marker(&plan.exprs, groups, plan.exprs.len()) {
            return Err(PlanError::Plan(elsewhere.to_owned()));
        }
        self.rewrite_held(plan, groups, Naming::KeptWhereMarked)
    }

    /// Refuses a node that holds a marker.
    pub fn rewrite_other(self, plan: Plan, elsewhere: &str) -> (r: Result<Transformed, PlanError>)
        ensures
            tells(r, plan@, self.other_outcome(plan@, elsewhere@)),
    {
        if self.any_marker(&plan.exprs, 0, plan.exprs.len()) {
            return Err(PlanError::Plan(elsewhere.to_owned()));
        }
        Ok(Transformed { plan, changed: false })
    }
}

/// Among the markers that get a node, each stands once; and every marker that
/// was found is among them. So a marker that is repeated costs one node.
pub proof fn each_marker_gets_one_node(found: Seq<MarkerView>)
    ensures
        distinct_markers(found).no_duplicates(),
        forall|m: MarkerView|
            #[trigger] distinct_markers(found).contains(m) <==> found.contains(m),
    decreases found.len(),
{
    if found.len() > 0 {
        let rest = found.drop_last();
        let before = distinct_markers(rest);
        each_marker_gets_one_node(rest);
        let now = distinct_markers(found);
        assert forall|m: MarkerView| #[trigger] now.contains(m) <==> found.contains(m) by {
            assert(before.contains(m) <==> rest.contains(m));
            if found.contains(m) {
                let k = choose|k: int| 0 <= k < found.len() && found[k] == m;
                if k < rest.len() {
                    assert(rest[k] == m);
                    let j = choose|j: int| 0 <= j < before.len() && before[j] == m;
                    assert(now[j] == m);
                } else if !before.contains(m) {
                    assert(now.last() == m);
                }
            }
            if now.contains(m) {
                let k = choose|k: int| 0 <= k < now.len() && now[k] == m;
                if k < before.len() {
                    assert(before[k] == m);
                    let j = choose|j: int| 0 <= j < rest.len() && rest[j] == m;
                    assert(found[j] == m);
                } else {
                    assert(found.last() == m);
                }
            }
        }
    }
}

/// No marker is left in an expression whose markers were replaced.
pub proof fn replacing_leaves_no_marker(
    kind: Kind,
    e: ExprView,
    groups: Seq<MarkerView>,
    first_id: nat,
)
    ensures
        kind.replaced(e, groups, first_id) matches Ok(x) ==> !kind.occurs(x),
    decreases e,
{
    if kind.replaced(e, groups, first_id) is Ok {
        replacing_leaves_no_marker_in_any(kind, e.args, groups, first_id);
        let x = kind.replaced(e, groups, first_id)->Ok_0;
        if kind.is_marker(e) {
            assert(x.head is Column);
            assert(x.args =~= Seq::<ExprView>::empty());
        }
    }
}

proof fn replacing_leaves_no_marker_in_any(
    kind: Kind,
    args: Seq<ExprView>,
    groups: Seq<MarkerView>,
    first_id: nat,
)
    ensures
        kind.replaced_all(args, groups, first_id) matches Ok(x) ==> !kind.occurs_in(x),
    decreases args,
{
    if args.len() > 0 && kind.replaced_all(args, groups, first_id) is Ok {
        replacing_leaves_no_marker_in_any(kind, args.drop_last(), groups, first_id);
        replacing_leaves_no_marker(kind, args.last(), groups, first_id);
        let before = kind.replaced_all(args.drop_last(), groups, first_id)->Ok_0;
        let x = kind.replaced_all(args, groups, first_id)->Ok_0;
        assert(x.drop_last() =~= before);
    }
}

/// The node that stands `n` nodes below the root of a plan, along the first inputs.
pub open spec fn beneath(p: PlanView, n: nat) -> PlanView
    decreases n,
{
    if n == 0 {
        p
    } else {
        beneath(p.inputs[0], (n - 1) as nat)
    }
}

/// A marker says what it was given: its text is the first argument, a ranking asks
/// its query, a clustering the groups that it names, if any, and a dedupe the
/// similarity that it names, or the usual one.
pub proof fn a_marker_says_what_it_was_given(kind: Kind, e: ExprView)
    ensures
        kind.parsed(e) matches Ok(None) ==> !kind.is_marker(e),
        kind.parsed(e) matches Ok(Some(m)) ==> kind.is_marker(e) && m.text == e.args[0],
        kind.is_marker(e) && kind is Relevance && e.args.len() == 2 ==> (
        e.args[1].head matches HeadView::Text(query) ==> kind.parsed(e) == Ok::<
            Option<MarkerView>,
            PlanErrorView,
        >(Some(MarkerView { text: e.args[0], setting: SettingView::Query(query) }))),
        kind.is_marker(e) && kind is Relevance ==> (kind.parsed(e) is Ok <==> e.args.len() == 2
            && e.args[1].head is Text),
        kind.is_marker(e) && kind is MeaningOf && e.args.len() == 1 ==> kind.parsed(e) == Ok::<
            Option<MarkerView>,
            PlanErrorView,
        >(Some(MarkerView { text: e.args[0], setting: SettingView::Groups(None) })),
        kind.is_marker(e) && kind is MeaningOf && e.args.len() == 2 ==> (
        e.args[1].head matches HeadView::Int(k) ==> k > 0 ==> kind.parsed(e) == Ok::<
            Option<MarkerView>,
            PlanErrorView,
        >(Some(MarkerView { text: e.args[0], setting: SettingView::Groups(Some(k as u64)) }))),
        kind.is_marker(e) && kind is SemanticKey && e.args.len() == 1 ==> kind.parsed(e) == Ok::<
            Option<MarkerView>,
            PlanErrorView,
        >(
            Some(
                MarkerView {
                    text: e.args[0],
                    setting: SettingView::Similarity(DEFAULT_SIMILARITY),
                },
            ),
        ),
        kind.is_marker(e) && kind is SemanticKey && e.args.len() == 2 ==> (
        e.args[1].head matches HeadView::Real(double, single) ==> (Double { bits: 0 }).below(
            Double { bits: double },
        ) && (Double { bits: double }).at_most(Double { bits: ONE }) ==> kind.parsed(e) == Ok::<
            Option<MarkerView>,
            PlanErrorView,
        >(Some(MarkerView { text: e.args[0], setting: SettingView::Similarity(single) }))),
{
}

/// The nodes of some markers stand one above another over the input: the node of
/// each reads the marker's own text, does what the marker says, and has its own
/// number; and below them all is the input, unchanged.
pub proof fn markers_stand_over_the_input(
    groups: Seq<MarkerView>,
    input: PlanView,
    limit: nat,
    first_id: nat,
    i: int,
)
    ensures
        beneath(stacked(groups, input, limit, first_id), groups.len()) == input,
        0 <= i < groups.len() ==> {
            let node = beneath(
                stacked(groups, input, limit, first_id),
                (groups.len() - 1 - i) as nat,
            );
            &&& node.exprs == seq![groups[i].text]
            &&& node.inputs.len() == 1
            &&& (groups[i].setting matches SettingView::Query(query) ==> node.op
                == OpView::SemRank { query, limit, id: (first_id + i) as nat })
            &&& (groups[i].setting matches SettingView::Groups(k) ==> node.op
                == OpView::SemCluster { k, id: (first_id + i) as nat })
            &&& (groups[i].setting matches SettingView::Similarity(similarity) ==> node.op
                == OpView::SemDistinct { similarity, id: (first_id + i) as nat })
        },
    decreases groups.len(),
{
    if groups.len() > 0 {
        let fewer = groups.drop_last();
        markers_stand_over_the_input(fewer, input, limit, first_id, i);
        let all = stacked(groups, input, limit, first_id);
        assert(all.inputs[0] == stacked(fewer, input, limit, first_id));
        if 0 <= i < fewer.len() {
            assert(fewer[i] == groups[i]);
            assert(beneath(all, (groups.len() - 1 - i) as nat) == beneath(
                all.inputs[0],
                (fewer.len() - 1 - i) as nat,
            ));
        }
    }
}

/// A marker reads its own column: where no other marker stands in its arguments, it
/// becomes a reference to the column of the node that has its text and its setting.
pub proof fn a_marker_reads_its_own_column(
    kind: Kind,
    e: ExprView,
    groups: Seq<MarkerView>,
    input: PlanView,
    limit: nat,
    first_id: nat,
)
    requires
        kind.parsed(e) is Ok,
        kind.parsed(e)->Ok_0 is Some,
        !kind.occurs_in(e.args),
        groups.contains(kind.parsed(e)->Ok_0->0),
    ensures
        exists|i: int|
            0 <= i < groups.len() && #[trigger] groups[i] == kind.parsed(e)->Ok_0->0
                && kind.replaced(e, groups, first_id) == Ok::<ExprView, PlanErrorView>(
                column_ref(kind.column_name((first_id + i) as nat)),
            ),
{
    kind.lemma_unmarked_all(e.args, groups, first_id);
    let m = kind.parsed(e)->Ok_0->0;
    lemma_marker_index(groups, m);
}

/// Rewriting a node changes its marked expressions and puts nodes below it, and
/// nothing else: what it does, and the expressions that hold no marker, stay; and
/// it reads its input through the nodes.
pub proof fn rewriting_keeps_the_node(
    kind: Kind,
    plan: PlanView,
    n: nat,
    naming: Naming,
    limit: nat,
    first_id: nat,
)
    requires
        n <= plan.exprs.len(),
        kind.rewritten(plan, n, naming, limit, first_id) is Ok,
    ensures
        ({
            let p = kind.rewritten(plan, n, naming, limit, first_id)->Ok_0;
            let nodes = kind.groups(plan.exprs.subrange(0, n as int))->Ok_0;
            &&& p.op == plan.op
            &&& p.exprs.len() == plan.exprs.len()
            &&& forall|i: int| n <= i < plan.exprs.len() ==> #[trigger] p.exprs[i] == plan.exprs[i]
            &&& naming != Naming::Kept ==> forall|i: int|
                0 <= i < n && !kind.occurs(#[trigger] plan.exprs[i]) ==> p.exprs[i]
                    == plan.exprs[i]
            &&& p.inputs.len() == 1
            &&& beneath(p.inputs[0], nodes.len()) == plan.inputs[0]
        }),
{
    let marked = plan.exprs.subrange(0, n as int);
    let groups = kind.groups(marked)->Ok_0;
    lemma_renamed(kind, marked, naming, groups, first_id);
    markers_stand_over_the_input(groups, plan.inputs[0], limit, first_id, 0);
    let p = kind.rewritten(plan, n, naming, limit, first_id)->Ok_0;
    assert forall|i: int| n <= i < plan.exprs.len() implies #[trigger] p.exprs[i] == plan.exprs[i] by {
        assert(plan.exprs.skip(n as int)[i - n] == plan.exprs[i]);
    }
    if naming != Naming::Kept {
        assert forall|i: int| 0 <= i < n && !kind.occurs(#[trigger] plan.exprs[i]) implies p.exprs[i]
            == plan.exprs[i] by {
            assert(marked[i] == plan.exprs[i]);
        }
    }
}

proof fn lemma_renamed(
    kind: Kind,
    exprs: Seq<ExprView>,
    naming: Naming,
    groups: Seq<MarkerView>,
    first_id: nat,
)
    requires
        kind.renamed_all(exprs, naming, groups, first_id) is Ok,
    ensures
        kind.renamed_all(exprs, naming, groups, first_id)->Ok_0.len() == exprs.len(),
        naming != Naming::Kept ==> forall|i: int|
            0 <= i < exprs.len() && !kind.occurs(#[trigger] exprs[i]) ==> kind.renamed_all(
                exprs,
                naming,
                groups,
                first_id,
            )->Ok_0[i] == exprs[i],
    decreases exprs.len(),
{
    if exprs.len() > 0 {
        let fewer = exprs.drop_last();
        lemma_renamed(kind, fewer, naming, groups, first_id);
        let last = exprs.len() - 1;
        if !kind.occurs(exprs[last]) {
            kind.lemma_unmarked(exprs[last], groups, first_id);
        }
        if naming != Naming::Kept {
            let now = kind.renamed_all(exprs, naming, groups, first_id)->Ok_0;
            assert forall|i: int| 0 <= i < exprs.len() && !kind.occurs(
                #[trigger] exprs[i],
            ) implies now[i] == exprs[i] by {
                if i < last {
                    assert(fewer[i] == exprs[i]);
                }
            }
        }
    }
}

/// Every marker of an expression is collected, its own first and those of its
/// arguments behind it, and nothing that is no marker.
pub proof fn every_marker_is_collected(kind: Kind, e: ExprView, m: MarkerView)
    requires
        kind.collected(e) is Ok,
    ensures
        kind.parsed(e) == Ok::<Option<MarkerView>, PlanErrorView>(Some(m)) ==> kind.collected(
            e,
        )->Ok_0.len() > 0 && kind.collected(e)->Ok_0[0] == m,
        kind.collected(e)->Ok_0.contains(m) <==> kind.parsed(e) == Ok::<
            Option<MarkerView>,
            PlanErrorView,
        >(Some(m)) || exists|i: int|
            0 <= i < e.args.len() && (#[trigger] kind.collected(e.args[i])) is Ok && kind.collected(
                e.args[i],
            )->Ok_0.contains(m),
        forall|i: int| 0 <= i < e.args.len() ==> (#[trigger] kind.collected(e.args[i])) is Ok,
{
    lemma_collected_from_all(kind, e.args, m);
    let rest = kind.collected_all(e.args)->Ok_0;
    let own = match kind.parsed(e)->Ok_0 {
        Some(x) => seq![x],
        None => Seq::empty(),
    };
    assert(kind.collected(e)->Ok_0 == own + rest);
    lemma_in_one_of_two(own, rest, m);
    if kind.parsed(e) == Ok::<Option<MarkerView>, PlanErrorView>(Some(m)) {
        assert(own[0] == m);
    }
}

proof fn lemma_in_one_of_two(a: Seq<MarkerView>, b: Seq<MarkerView>, m: MarkerView)
    ensures
        (a + b).contains(m) <==> a.contains(m) || b.contains(m),
{
    if a.contains(m) {
        let k = a.index_of(m);
        assert((a + b)[k] == m);
    }
    if b.contains(m) {
        let k = b.index_of(m);
        assert((a + b)[a.len() + k] == m);
    }
    if (a + b).contains(m) {
        let k = (a + b).index_of(m);
        if k < a.len() {
            assert(a[k] == m);
        } else {
            assert(b[k - a.len()] == m);
        }
    }
}

proof fn lemma_collected_from_all(kind: Kind, args: Seq<ExprView>, m: MarkerView)
    requires
        kind.collected_all(args) is Ok,
    ensures
        forall|i: int| 0 <= i < args.len() ==> (#[trigger] kind.collected(args[i])) is Ok,
        kind.collected_all(args)->Ok_0.contains(m) <==> exists|i: int|
            0 <= i < args.len() && (#[trigger] kind.collected(args[i])) is Ok && kind.collected(
                args[i],
            )->Ok_0.contains(m),
    decreases args.len(),
{
    if args.len() > 0 {
        let fewer = args.drop_last();
        let n = args.len() - 1;
        lemma_collected_from_all(kind, fewer, m);
        let before = kind.collected_all(fewer)->Ok_0;
        let more = kind.collected(args[n])->Ok_0;
        lemma_in_one_of_two(before, more, m);
        assert forall|i: int| 0 <= i < args.len() implies (#[trigger] kind.collected(
            args[i],
        )) is Ok by {
            if i < n {
                assert(kind.collected(fewer[i]) is Ok);
            }
        }
        if before.contains(m) {
            let i = choose|i: int|
                0 <= i < fewer.len() && (#[trigger] kind.collected(fewer[i])) is Ok
                    && kind.collected(fewer[i])->Ok_0.contains(m);
            assert(kind.collected(args[i])->Ok_0.contains(m));
        }
        if exists|i: int|
            0 <= i < args.len() && (#[trigger] kind.collected(args[i])) is Ok && kind.collected(
                args[i],
            )->Ok_0.contains(m) {
            let i = choose|i: int|
                0 <= i < args.len() && (#[trigger] kind.collected(args[i])) is Ok
                    && kind.collected(args[i])->Ok_0.contains(m);
            if i < n {
                assert(kind.collected(fewer[i])->Ok_0.contains(m));
            }
        }
    }
}

/// What is named like another expression is itself under the other's name: two that
/// come out alike are the same expression under the same name.
pub proof fn a_name_is_that_of_the_original(
    e: ExprView,
    original: ExprView,
    f: ExprView,
    other: ExprView,
)
    requires
        named_like(e, original) == named_like(f, other),
    ensures
        e == f,
        original == other,
        named_like(e, original).args == seq![e],
{
    assert(named_like(e, original).args[0] == e);
    assert(named_like(f, other).args[0] == f);
}

}
