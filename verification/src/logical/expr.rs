//! Expressions, as far as the semantic rules read them.
//!
//! An expression is a head over argument expressions. The heads that the rules
//! know are told apart; every other kind of expression is an opaque head, by a
//! number that whoever built the tree gave it, over its children.

use vstd::prelude::*;

verus! {

/// What kind of expression it is, with everything that is no argument.
#[derive(Debug)]
pub enum Head {
    /// A column, by table (where it names one) and name.
    Column(Option<String>, String),
    /// A string literal.
    Text(String),
    /// A 64-bit integer literal.
    Int(i64),
    /// A double-precision literal, by its bits, and by the bits of the nearest
    /// single-precision number.
    Real(u64, u32),
    /// A call of a scalar function.
    Call(String),
    /// `CASE`: its arguments are the base where there is one, a `WHEN` and a
    /// `THEN` for each branch, and the `ELSE` where there is one.
    Case { base: bool, branches: usize, otherwise: bool },
    And,
    IsNotTrue,
    /// A cast, whatever the type.
    Cast(u64),
    /// Another name for its argument.
    Alias(String),
    /// Its argument, under the name that another expression has.
    NamedLike(Box<Expr>),
    /// Any other expression.
    Opaque(u64),
}

/// An expression.
#[derive(Debug)]
pub struct Expr {
    pub head: Head,
    pub args: Vec<Expr>,
}

/// What a [`Head`] stands for.
pub enum HeadView {
    Column(Option<Seq<char>>, Seq<char>),
    Text(Seq<char>),
    Int(i64),
    Real(u64, u32),
    Call(Seq<char>),
    Case { base: bool, branches: nat, otherwise: bool },
    And,
    IsNotTrue,
    Cast(u64),
    Alias(Seq<char>),
    NamedLike(Box<ExprView>),
    Opaque(u64),
}

/// What an [`Expr`] stands for.
pub struct ExprView {
    pub head: HeadView,
    pub args: Seq<ExprView>,
}

pub open spec fn head_view(h: Head) -> HeadView
    decreases h, 0nat,
{
    match h {
        Head::Column(t, n) => HeadView::Column(crate::text::opt_view(t), n@),
        Head::Text(s) => HeadView::Text(s@),
        Head::Int(i) => HeadView::Int(i),
        Head::Real(d, s) => HeadView::Real(d, s),
        Head::Call(s) => HeadView::Call(s@),
        Head::Case { base, branches, otherwise } => HeadView::Case {
            base,
            branches: branches as nat,
            otherwise,
        },
        Head::And => HeadView::And,
        Head::IsNotTrue => HeadView::IsNotTrue,
        Head::Cast(t) => HeadView::Cast(t),
        Head::Alias(s) => HeadView::Alias(s@),
        Head::NamedLike(e) => HeadView::NamedLike(Box::new(expr_view(*e))),
        Head::Opaque(id) => HeadView::Opaque(id),
    }
}

pub open spec fn expr_view(e: Expr) -> ExprView
    decreases e, 0nat,
{
    ExprView { head: head_view(e.head), args: expr_views(e.args@) }
}

/// The views of some expressions.
pub open spec fn expr_views(args: Seq<Expr>) -> Seq<ExprView>
    decreases args, 1nat,
{
    Seq::new(
        args.len(),
        |i: int|
            if 0 <= i < args.len() {
                expr_view(args[i])
            } else {
                arbitrary()
            },
    )
}

impl View for Expr {
    type V = ExprView;

    open spec fn view(&self) -> ExprView {
        expr_view(*self)
    }
}

impl View for Head {
    type V = HeadView;

    open spec fn view(&self) -> HeadView {
        head_view(*self)
    }
}

/// The view of an optional expression.
pub open spec fn opt_expr(e: Option<Expr>) -> Option<ExprView> {
    match e {
        Some(e) => Some(e@),
        None => None,
    }
}

/// Whether two optional names are the same.
fn same_name(a: &Option<String>, b: &Option<String>) -> (r: bool)
    ensures
        r == (crate::text::opt_view(*a) == crate::text::opt_view(*b)),
{
    match a {
        Some(a) => match b {
            Some(b) => *a == *b,
            None => false,
        },
        None => b.is_none(),
    }
}

impl Head {
    /// Whether two heads are the same.
    pub fn same(&self, other: &Head) -> (r: bool)
        ensures
            r == (self@ == other@),
        decreases self, 0nat,
    {
        match self {
            Head::Column(t, n) => match other {
                Head::Column(u, m) => same_name(t, u) && *n == *m,
                _ => false,
            },
            Head::Text(s) => match other {
                Head::Text(t) => *s == *t,
                _ => false,
            },
            Head::Int(i) => match other {
                Head::Int(j) => *i == *j,
                _ => false,
            },
            Head::Real(a, x) => match other {
                Head::Real(b, y) => *a == *b && *x == *y,
                _ => false,
            },
            Head::Call(s) => match other {
                Head::Call(t) => *s == *t,
                _ => false,
            },
            Head::Case { base, branches, otherwise } => match other {
                Head::Case { base: b, branches: n, otherwise: o } => *base == *b && *branches == *n
                    && *otherwise == *o,
                _ => false,
            },
            Head::And => matches!(other, Head::And),
            Head::IsNotTrue => matches!(other, Head::IsNotTrue),
            Head::Cast(t) => match other {
                Head::Cast(u) => *t == *u,
                _ => false,
            },
            Head::Alias(s) => match other {
                Head::Alias(t) => *s == *t,
                _ => false,
            },
            Head::NamedLike(e) => match other {
                Head::NamedLike(f) => (**e).same(&**f),
                _ => false,
            },
            Head::Opaque(a) => match other {
                Head::Opaque(b) => *a == *b,
                _ => false,
            },
        }
    }

    /// A copy of the head.
    pub fn copy(&self) -> (r: Head)
        ensures
            r@ == self@,
        decreases self, 0nat,
    {
        match self {
            Head::Column(t, n) => Head::Column(
                match t {
                    Some(t) => Some(t.clone()),
                    None => None,
                },
                n.clone(),
            ),
            Head::Text(s) => Head::Text(s.clone()),
            Head::Int(i) => Head::Int(*i),
            Head::Real(d, s) => Head::Real(*d, *s),
            Head::Call(s) => Head::Call(s.clone()),
            Head::Case { base, branches, otherwise } => Head::Case {
                base: *base,
                branches: *branches,
                otherwise: *otherwise,
            },
            Head::And => Head::And,
            Head::IsNotTrue => Head::IsNotTrue,
            Head::Cast(t) => Head::Cast(*t),
            Head::Alias(s) => Head::Alias(s.clone()),
            Head::NamedLike(e) => Head::NamedLike(Box::new((**e).copy())),
            Head::Opaque(id) => Head::Opaque(*id),
        }
    }
}

impl Expr {
    /// Whether two expressions are the same.
    pub fn same(&self, other: &Expr) -> (r: bool)
        ensures
            r == (self@ == other@),
        decreases self, 0nat,
    {
        if !self.head.same(&other.head) {
            return false;
        }
        if self.args.len() != other.args.len() {
            assert(expr_views(self.args@).len() != expr_views(other.args@).len());
            return false;
        }
        let mut i: usize = 0;
        while i < self.args.len()
            invariant
                i <= self.args.len() == other.args.len(),
                forall|k: int| 0 <= k < i ==> (#[trigger] self.args@[k])@ == other.args@[k]@,
            decreases self.args.len() - i,
        {
            assert(decreases_to!(*self => self.args@[i as int]));
            if !self.args[i].same(&other.args[i]) {
                assert(expr_views(self.args@)[i as int] != expr_views(other.args@)[i as int]);
                return false;
            }
            i += 1;
        }
        assert(expr_views(self.args@) =~= expr_views(other.args@));
        true
    }

    /// A copy of the expression.
    pub fn copy(&self) -> (r: Expr)
        ensures
            r@ == self@,
        decreases self, 0nat,
    {
        let mut args: Vec<Expr> = Vec::new();
        let mut i: usize = 0;
        while i < self.args.len()
            invariant
                i <= self.args.len(),
                args.len() == i,
                forall|k: int| 0 <= k < i ==> (#[trigger] args@[k])@ == self.args@[k]@,
            decreases self.args.len() - i,
        {
            assert(decreases_to!(*self => self.args@[i as int]));
            args.push(self.args[i].copy());
            i += 1;
        }
        assert(expr_views(args@) =~= expr_views(self.args@));
        Expr { head: self.head.copy(), args }
    }
}

/// Whether an expression is a call of a function.
pub open spec fn is_call(e: ExprView, name: Seq<char>) -> bool {
    e.head == HeadView::Call(name)
}

/// Whether a call of a function stands anywhere in an expression.
pub open spec fn calls(e: ExprView, name: Seq<char>) -> bool
    decreases e,
{
    is_call(e, name) || any_calls(e.args, name)
}

/// Whether a call of a function stands anywhere in some expressions.
pub open spec fn any_calls(args: Seq<ExprView>, name: Seq<char>) -> bool
    decreases args,
{
    args.len() > 0 && (any_calls(args.drop_last(), name) || calls(args.last(), name))
}

pub proof fn lemma_calls_prefix(args: Seq<ExprView>, n: int, name: Seq<char>)
    requires
        0 <= n <= args.len(),
        any_calls(args.take(n), name),
    ensures
        any_calls(args, name),
    decreases args.len(),
{
    if n == args.len() {
        assert(args.take(n) == args);
    } else {
        assert(args.drop_last().take(n) == args.take(n));
        lemma_calls_prefix(args.drop_last(), n, name);
    }
}

impl Expr {
    /// Whether an expression is a call of a function.
    pub fn is_call_of(&self, name: &str) -> (r: bool)
        ensures
            r == is_call(self@, name@),
    {
        match &self.head {
            Head::Call(called) => crate::text::same(called.as_str(), name),
            _ => false,
        }
    }

    /// Whether a call of a function stands anywhere in an expression.
    pub fn contains_call(&self, name: &str) -> (r: bool)
        ensures
            r == calls(self@, name@),
        decreases self, 1nat,
    {
        if self.is_call_of(name) {
            return true;
        }
        let ghost all = expr_views(self.args@);
        assert(self@.args == all);
        let mut i: usize = 0;
        assert(!any_calls(all.take(0), name@));
        while i < self.args.len()
            invariant
                i <= self.args.len(),
                all == expr_views(self.args@),
                all == self@.args,
                !any_calls(all.take(i as int), name@),
            decreases self.args.len() - i,
        {
            assert(all.take(i + 1).drop_last() == all.take(i as int));
            assert(all.take(i + 1).last() == self.args@[i as int]@);
            assert(decreases_to!(*self => self.args@[i as int]));
            if self.args[i].contains_call(name) {
                proof {
                    lemma_calls_prefix(all, i + 1, name@);
                }
                return true;
            }
            i += 1;
        }
        assert(all.take(i as int) == all);
        false
    }
}

/// Whether a call of a function stands anywhere in the expressions from `from`
/// up to `to`.
pub fn any_call(exprs: &Vec<Expr>, from: usize, to: usize, name: &str) -> (r: bool)
    requires
        from <= to <= exprs.len(),
    ensures
        r == any_calls(expr_views(exprs@).subrange(from as int, to as int), name@),
{
    let ghost all = expr_views(exprs@).subrange(from as int, to as int);
    let mut i: usize = from;
    assert(!any_calls(all.take(0), name@));
    while i < to
        invariant
            from <= i <= to <= exprs.len(),
            all == expr_views(exprs@).subrange(from as int, to as int),
            !any_calls(all.take(i - from), name@),
        decreases to - i,
    {
        assert(all.take(i - from + 1).drop_last() == all.take(i - from));
        assert(all.take(i - from + 1).last() == exprs@[i as int]@);
        if exprs[i].contains_call(name) {
            proof {
                lemma_calls_prefix(all, i - from + 1, name@);
            }
            return true;
        }
        i += 1;
    }
    assert(all.take(i - from) == all);
    false
}

/// Two conditions that must both hold.
pub open spec fn both(a: ExprView, b: ExprView) -> ExprView {
    ExprView { head: HeadView::And, args: seq![a, b] }
}

/// A condition that does not hold, or is unknown.
pub open spec fn not_true(e: ExprView) -> ExprView {
    ExprView { head: HeadView::IsNotTrue, args: seq![e] }
}

/// Some conditions that must all hold, the first ones joined first.
pub open spec fn conjoined(exprs: Seq<ExprView>) -> Option<ExprView>
    decreases exprs.len(),
{
    if exprs.len() == 0 {
        None
    } else {
        Some(
            match conjoined(exprs.drop_last()) {
                None => exprs.last(),
                Some(before) => both(before, exprs.last()),
            },
        )
    }
}

/// The conditions that must hold for a condition to hold: a conjunction, under
/// whatever other name, is taken apart.
pub open spec fn conjuncts(e: ExprView) -> Seq<ExprView>
    decreases e,
{
    if e.head is And || e.head is Alias {
        conjuncts_of(e.args)
    } else {
        seq![e]
    }
}

/// The conditions that must hold for some conditions to hold.
pub open spec fn conjuncts_of(args: Seq<ExprView>) -> Seq<ExprView>
    decreases args,
{
    if args.len() == 0 {
        Seq::empty()
    } else {
        conjuncts_of(args.drop_last()) + conjuncts(args.last())
    }
}

/// Joins two conditions.
pub fn and(a: Expr, b: Expr) -> (r: Expr)
    ensures
        r@ == both(a@, b@),
{
    let mut args: Vec<Expr> = Vec::new();
    args.push(a);
    args.push(b);
    assert(expr_views(args@) =~= seq![a@, b@]);
    Expr { head: Head::And, args }
}

/// The condition that another does not hold, or is unknown.
pub fn is_not_true(e: Expr) -> (r: Expr)
    ensures
        r@ == not_true(e@),
{
    let mut args: Vec<Expr> = Vec::new();
    args.push(e);
    assert(expr_views(args@) =~= seq![e@]);
    Expr { head: Head::IsNotTrue, args }
}

/// Joins some conditions; `None` where there are none.
pub fn conjunction(exprs: &Vec<Expr>) -> (r: Option<Expr>)
    ensures
        opt_expr(r) == conjoined(expr_views(exprs@)),
{
    let ghost all = expr_views(exprs@);
    let mut joined: Option<Expr> = None;
    let mut i: usize = 0;
    while i < exprs.len()
        invariant
            i <= exprs.len(),
            all == expr_views(exprs@),
            opt_expr(joined) == conjoined(all.take(i as int)),
        decreases exprs.len() - i,
    {
        assert(all.take(i + 1).drop_last() == all.take(i as int));
        assert(all.take(i + 1).last() == exprs@[i as int]@);
        let next = exprs[i].copy();
        joined = match joined {
            None => Some(next),
            Some(before) => Some(and(before, next)),
        };
        i += 1;
    }
    assert(all.take(i as int) == all);
    joined
}

/// Takes a conjunction apart.
pub fn split_conjunction(e: &Expr, out: &mut Vec<Expr>)
    ensures
        expr_views(final(out)@) == expr_views(old(out)@) + conjuncts(e@),
    decreases e, 1nat,
{
    let ghost start = expr_views(out@);
    let splits: bool = match &e.head {
        Head::And | Head::Alias(_) => true,
        _ => false,
    };
    if !splits {
        out.push(e.copy());
        assert(expr_views(out@) =~= start + seq![e@]);
        return ;
    }
    let ghost all = expr_views(e.args@);
    assert(e@.args == all);
    let mut i: usize = 0;
    assert(start + Seq::<ExprView>::empty() =~= start);
    while i < e.args.len()
        invariant
            i <= e.args.len(),
            all == expr_views(e.args@),
            all == e@.args,
            expr_views(out@) == start + conjuncts_of(all.take(i as int)),
        decreases e.args.len() - i,
    {
        assert(all.take(i + 1).drop_last() == all.take(i as int));
        assert(all.take(i + 1).last() == e.args@[i as int]@);
        assert(decreases_to!(*e => e.args@[i as int]));
        let ghost before = conjuncts_of(all.take(i as int));
        split_conjunction(&e.args[i], out);
        assert(start + before + conjuncts(e.args@[i as int]@) =~= start + (before + conjuncts(
            e.args@[i as int]@,
        )));
        i += 1;
    }
    assert(all.take(i as int) == all);
}

/// A conjunction comes apart as it was joined: conditions that are no conjunctions
/// themselves, joined and taken apart, are the same conditions, in their order.
pub proof fn a_conjunction_comes_apart_as_it_was_joined(exprs: Seq<ExprView>)
    requires
        exprs.len() > 0,
        forall|i: int|
            0 <= i < exprs.len() ==> !((#[trigger] exprs[i]).head is And) && !(
            exprs[i].head is Alias),
    ensures
        conjoined(exprs) is Some,
        conjuncts(conjoined(exprs)->0) == exprs,
    decreases exprs.len(),
{
    let fewer = exprs.drop_last();
    let last = exprs[exprs.len() - 1];
    assert(!(last.head is And) && !(last.head is Alias));
    assert(conjuncts(last) =~= seq![last]);
    if fewer.len() > 0 {
        assert forall|i: int| 0 <= i < fewer.len() implies !((#[trigger] fewer[i]).head is And)
            && !(fewer[i].head is Alias) by {
            assert(fewer[i] == exprs[i]);
        }
        a_conjunction_comes_apart_as_it_was_joined(fewer);
        lemma_both_apart(conjoined(fewer)->0, last);
        assert(fewer + seq![last] =~= exprs);
    } else {
        assert(exprs =~= seq![last]);
    }
}

proof fn lemma_both_apart(a: ExprView, b: ExprView)
    ensures
        conjuncts(both(a, b)) == conjuncts(a) + conjuncts(b),
{
    let args = seq![a, b];
    assert(args.drop_last() =~= seq![a]);
    assert(seq![a].drop_last() =~= Seq::<ExprView>::empty());
    assert(conjuncts_of(Seq::<ExprView>::empty()) =~= Seq::<ExprView>::empty());
    assert(conjuncts_of(seq![a]) =~= conjuncts(a));
    assert(conjuncts_of(args) =~= conjuncts(a) + conjuncts(b));
}

/// A call stands in an expression exactly where the expression is one or one stands
/// in an argument.
pub proof fn a_call_stands_in_an_argument(e: ExprView, name: Seq<char>)
    ensures
        calls(e, name) <==> e.head == HeadView::Call(name) || exists|i: int|
            0 <= i < e.args.len() && calls(#[trigger] e.args[i], name),
{
    lemma_any_calls(e.args, name);
}

proof fn lemma_any_calls(args: Seq<ExprView>, name: Seq<char>)
    ensures
        any_calls(args, name) <==> exists|i: int|
            0 <= i < args.len() && calls(#[trigger] args[i], name),
    decreases args.len(),
{
    if args.len() > 0 {
        let fewer = args.drop_last();
        lemma_any_calls(fewer, name);
        if any_calls(fewer, name) {
            let i = choose|i: int| 0 <= i < fewer.len() && calls(#[trigger] fewer[i], name);
            assert(calls(args[i], name));
        } else if calls(args.last(), name) {
            assert(calls(args[args.len() - 1], name));
        }
        if exists|i: int| 0 <= i < args.len() && calls(#[trigger] args[i], name) {
            let i = choose|i: int| 0 <= i < args.len() && calls(#[trigger] args[i], name);
            if i < fewer.len() {
                assert(calls(fewer[i], name));
            }
        }
    }
}

}
