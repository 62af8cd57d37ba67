//! Semantic types: what typed extraction asks a model to fill in.

use vstd::prelude::*;

use crate::number::Double;
use crate::text::{list_has, lowercase, lowercase_of, same, views};

verus! {

/// The type of one extracted field.
#[derive(Debug)]
pub enum FieldType {
    Text,
    Int,
    Real,
    RealBounded { min: Double, max: Double },
    Bool,
    /// One of some variants, by name.
    OneOf(Vec<String>),
    /// One of some variants that stand in an order, by name.
    Level(Vec<String>),
    List(Box<FieldType>),
    /// Another semantic type, by name.
    Nested(String),
}

/// What a [`FieldType`] stands for.
pub enum FieldTypeView {
    Text,
    Int,
    Real,
    RealBounded { min: Double, max: Double },
    Bool,
    OneOf(Seq<Seq<char>>),
    Level(Seq<Seq<char>>),
    List(Box<FieldTypeView>),
    Nested(Seq<char>),
}

pub open spec fn field_type_view(ty: FieldType) -> FieldTypeView
    decreases ty,
{
    match ty {
        FieldType::Text => FieldTypeView::Text,
        FieldType::Int => FieldTypeView::Int,
        FieldType::Real => FieldTypeView::Real,
        FieldType::RealBounded { min, max } => FieldTypeView::RealBounded { min, max },
        FieldType::Bool => FieldTypeView::Bool,
        FieldType::OneOf(variants) => FieldTypeView::OneOf(views(variants@)),
        FieldType::Level(variants) => FieldTypeView::Level(views(variants@)),
        FieldType::List(item) => FieldTypeView::List(Box::new(field_type_view(*item))),
        FieldType::Nested(name) => FieldTypeView::Nested(name@),
    }
}

impl View for FieldType {
    type V = FieldTypeView;

    open spec fn view(&self) -> FieldTypeView {
        field_type_view(*self)
    }
}

/// One extracted field.
#[derive(Debug)]
pub struct FieldSpec {
    pub name: String,
    pub ty: FieldType,
    pub doc: String,
}

/// An extracted value.
#[derive(Debug)]
pub enum Scalar {
    Null,
    Text(String),
    Int(i64),
    Real(Double),
    Bool(bool),
    List(Vec<Scalar>),
}

/// What a [`Scalar`] stands for.
pub enum ScalarView {
    Null,
    Text(Seq<char>),
    Int(i64),
    Real(Double),
    Bool(bool),
    List(Seq<ScalarView>),
}

impl View for Scalar {
    type V = ScalarView;

    open spec fn view(&self) -> ScalarView {
        scalar_view(*self)
    }
}

pub open spec fn scalar_view(s: Scalar) -> ScalarView
    decreases s, 0nat,
{
    match s {
        Scalar::Null => ScalarView::Null,
        Scalar::Text(t) => ScalarView::Text(t@),
        Scalar::Int(i) => ScalarView::Int(i),
        Scalar::Real(d) => ScalarView::Real(d),
        Scalar::Bool(b) => ScalarView::Bool(b),
        Scalar::List(items) => ScalarView::List(scalar_views(items@)),
    }
}

/// The views of some scalars.
pub open spec fn scalar_views(items: Seq<Scalar>) -> Seq<ScalarView>
    decreases items, 1nat,
{
    Seq::new(
        items.len(),
        |i: int|
            if 0 <= i < items.len() {
                scalar_view(items[i])
            } else {
                ScalarView::Null
            },
    )
}

/// A named extraction: its fields, and those that are generated in one shot.
#[derive(Debug)]
pub struct SemanticType {
    pub name: String,
    pub version: String,
    pub fields: Vec<FieldSpec>,
    /// The `TOGETHER` groups, by field names.
    pub together: Vec<Vec<String>>,
}

/// The names of some fields.
pub open spec fn field_names(fields: Seq<FieldSpec>) -> Seq<Seq<char>> {
    fields.map_values(|f: FieldSpec| f.name@)
}

/// The views of some lists of texts.
pub open spec fn lists(groups: Seq<Vec<String>>) -> Seq<Seq<Seq<char>>> {
    groups.map_values(|g: Vec<String>| views(g@))
}

/// Whether some field of a group is wanted.
pub open spec fn wants_any(group: Seq<Seq<char>>, wanted: Seq<Seq<char>>) -> bool {
    exists|i: int| 0 <= i < group.len() && wanted.contains(#[trigger] group[i])
}

/// Whether a field is wanted, or generated together with one that is.
pub open spec fn reached(
    field: Seq<char>,
    together: Seq<Seq<Seq<char>>>,
    wanted: Seq<Seq<char>>,
) -> bool {
    wanted.contains(field) || exists|g: int|
        0 <= g < together.len() && (#[trigger] together[g]).contains(field) && wants_any(
            together[g],
            wanted,
        )
}

/// The fields that extracting some wanted ones takes, in their order.
pub open spec fn kept_fields(
    fields: Seq<Seq<char>>,
    together: Seq<Seq<Seq<char>>>,
    wanted: Seq<Seq<char>>,
) -> Seq<Seq<char>> {
    fields.filter(|f: Seq<char>| reached(f, together, wanted))
}

/// The first wanted field that a type does not have.
pub open spec fn first_missing(fields: Seq<Seq<char>>, wanted: Seq<Seq<char>>) -> Option<Seq<char>>
    decreases wanted.len(),
{
    if wanted.len() == 0 {
        None
    } else {
        match first_missing(fields, wanted.drop_last()) {
            Some(f) => Some(f),
            None => if fields.contains(wanted.last()) {
                None
            } else {
                Some(wanted.last())
            },
        }
    }
}

proof fn lemma_missing_prefix(fields: Seq<Seq<char>>, wanted: Seq<Seq<char>>, n: int)
    requires
        0 <= n <= wanted.len(),
        first_missing(fields, wanted.take(n)) is Some,
    ensures
        first_missing(fields, wanted) == first_missing(fields, wanted.take(n)),
    decreases wanted.len(),
{
    if n == wanted.len() {
        assert(wanted.take(n) == wanted);
    } else {
        assert(wanted.drop_last().take(n) == wanted.take(n));
        lemma_missing_prefix(fields, wanted.drop_last(), n);
    }
}

impl SemanticType {
    /// The names of the fields.
    pub open spec fn names(&self) -> Seq<Seq<char>> {
        field_names(self.fields@)
    }

    /// The names of the fields.
    pub fn all_fields(&self) -> (r: Vec<String>)
        ensures
            views(r@) == self.names(),
    {
        let mut out: Vec<String> = Vec::new();
        let mut i: usize = 0;
        while i < self.fields.len()
            invariant
                i <= self.fields.len(),
                views(out@) == self.names().take(i as int),
            decreases self.fields.len() - i,
        {
            let ghost before = views(out@);
            out.push(self.fields[i].name.clone());
            assert(views(out@) =~= before.push(self.fields@[i as int].name@));
            assert(self.names().take(i + 1) =~= before.push(self.fields@[i as int].name@));
            i += 1;
        }
        assert(self.names().take(i as int) == self.names());
        out
    }

    fn reaches(&self, field: &String, wanted: &Vec<String>) -> (r: bool)
        ensures
            r == reached(field@, lists(self.together@), views(wanted@)),
    {
        if list_has(wanted, field.as_str()) {
            return true;
        }
        let mut g: usize = 0;
        while g < self.together.len()
            invariant
                g <= self.together.len(),
                forall|k: int|
                    0 <= k < g ==> !((#[trigger] lists(self.together@)[k]).contains(field@)
                        && wants_any(lists(self.together@)[k], views(wanted@))),
            decreases self.together.len() - g,
        {
            let group = &self.together[g];
            assert(lists(self.together@)[g as int] == views(group@));
            if list_has(group, field.as_str()) {
                let mut i: usize = 0;
                while i < group.len()
                    invariant
                        i <= group.len(),
                        g < self.together.len(),
                        lists(self.together@)[g as int] == views(group@),
                        views(group@).contains(field@),
                        forall|k: int|
                            0 <= k < i ==> !views(wanted@).contains(#[trigger] views(group@)[k]),
                    decreases group.len() - i,
                {
                    if list_has(wanted, group[i].as_str()) {
                        assert(views(group@)[i as int] == group@[i as int]@);
                        assert(wants_any(lists(self.together@)[g as int], views(wanted@)));
                        return true;
                    }
                    i += 1;
                }
                assert(!wants_any(views(group@), views(wanted@)));
            }
            g += 1;
        }
        false
    }

    /// The fields that extracting some wanted ones takes: those, and the whole
    /// of every `TOGETHER` group that one of them is in. A wanted field that the
    /// type does not have is the error.
    pub fn pruned(&self, wanted: &Vec<String>) -> (r: Result<Vec<String>, String>)
        ensures
            match r {
                Ok(fields) => first_missing(self.names(), views(wanted@)) is None && views(fields@)
                    == kept_fields(self.names(), lists(self.together@), views(wanted@)),
                Err(field) => first_missing(self.names(), views(wanted@)) == Some(field@),
            },
    {
        let ghost names = self.names();
        let ghost w = views(wanted@);
        let ghost keep = |f: Seq<char>| reached(f, lists(self.together@), w);
        let all = self.all_fields();
        let mut i: usize = 0;
        while i < wanted.len()
            invariant
                i <= wanted.len(),
                w == views(wanted@),
                names == self.names(),
                views(all@) == names,
                first_missing(names, w.take(i as int)) is None,
            decreases wanted.len() - i,
        {
            assert(w.take(i + 1).drop_last() == w.take(i as int));
            assert(w.take(i + 1).last() == wanted@[i as int]@);
            if !list_has(&all, wanted[i].as_str()) {
                proof {
                    lemma_missing_prefix(names, w, i + 1);
                }
                return Err(wanted[i].clone());
            }
            i += 1;
        }
        assert(w.take(i as int) == w);
        let mut out: Vec<String> = Vec::new();
        let mut j: usize = 0;
        proof {
            reveal(Seq::filter);
            assert(views(out@) =~= names.take(0).filter(keep));
        }
        while j < all.len()
            invariant
                j <= all.len(),
                names == views(all@),
                w == views(wanted@),
                keep == (|f: Seq<char>| reached(f, lists(self.together@), w)),
                views(out@) == names.take(j as int).filter(keep),
            decreases all.len() - j,
        {
            proof {
                reveal(Seq::filter);
                assert(names.take(j + 1).drop_last() == names.take(j as int));
                assert(names.take(j + 1).last() == all@[j as int]@);
            }
            if self.reaches(&all[j], wanted) {
                let ghost before = views(out@);
                out.push(all[j].clone());
                assert(views(out@) =~= before.push(all@[j as int]@));
            }
            j += 1;
        }
        assert(names.take(j as int) == names);
        Ok(out)
    }
}

/// The semantic types that a session knows.
#[derive(Debug)]
pub struct TypeRegistry {
    pub types: Vec<SemanticType>,
}

/// Where the first type of a name stands, whatever the case of its letters.
pub open spec fn type_index(types: Seq<SemanticType>, name: Seq<char>) -> Option<int>
    decreases types.len(),
{
    if types.len() == 0 {
        None
    } else {
        match type_index(types.drop_last(), name) {
            Some(i) => Some(i),
            None => if lowercase(types.last().name@) == lowercase(name) {
                Some(types.len() - 1)
            } else {
                None
            },
        }
    }
}

proof fn lemma_type_prefix(types: Seq<SemanticType>, n: int, name: Seq<char>)
    requires
        0 <= n <= types.len(),
        type_index(types.take(n), name) is Some,
    ensures
        type_index(types, name) == type_index(types.take(n), name),
    decreases types.len(),
{
    if n == types.len() {
        assert(types.take(n) == types);
    } else {
        assert(types.drop_last().take(n) == types.take(n));
        lemma_type_prefix(types.drop_last(), n, name);
    }
}

impl TypeRegistry {
    /// Where the type of a name stands, whatever the case of its letters.
    pub fn find(&self, name: &str) -> (r: Option<usize>)
        ensures
            match r {
                Some(i) => i < self.types.len() && type_index(self.types@, name@) == Some(i as int),
                None => type_index(self.types@, name@) is None,
            },
    {
        let key = lowercase_of(name);
        let mut i: usize = 0;
        while i < self.types.len()
            invariant
                i <= self.types.len(),
                key@ == lowercase(name@),
                type_index(self.types@.take(i as int), name@) is None,
            decreases self.types.len() - i,
        {
            assert(self.types@.take(i + 1).drop_last() == self.types@.take(i as int));
            let own = lowercase_of(self.types[i].name.as_str());
            if same(own.as_str(), key.as_str()) {
                proof {
                    lemma_type_prefix(self.types@, i + 1, name@);
                }
                return Some(i);
            }
            i += 1;
        }
        assert(self.types@.take(i as int) == self.types@);
        None
    }
}

/// The first `TOGETHER` group that a field stands in.
pub open spec fn first_group(together: Seq<Seq<Seq<char>>>, field: Seq<char>) -> Option<int>
    decreases together.len(),
{
    if together.len() == 0 {
        None
    } else {
        match first_group(together.drop_last(), field) {
            Some(g) => Some(g),
            None => if together.last().contains(field) {
                Some(together.len() - 1)
            } else {
                None
            },
        }
    }
}

/// The group of each of some fields.
pub open spec fn groups_of(fields: Seq<Seq<char>>, together: Seq<Seq<Seq<char>>>) -> Seq<
    Option<int>,
> {
    fields.map_values(|f: Seq<char>| first_group(together, f))
}

/// Whether two fields are generated in one shot, by their groups: a field
/// without a group is generated by itself.
pub open spec fn mates(groups: Seq<Option<int>>, i: int, j: int) -> bool {
    i == j || (groups[i] is Some && groups[i] == groups[j])
}

/// The fields among the first `n` that are generated with one of them.
pub open spec fn mates_of(groups: Seq<Option<int>>, i: int, n: nat) -> Seq<int>
    decreases n,
{
    if n == 0 {
        Seq::empty()
    } else {
        let before = mates_of(groups, i, (n - 1) as nat);
        if mates(groups, i, n - 1) {
            before.push(n - 1)
        } else {
            before
        }
    }
}

/// Whether a field is the first of those that it is generated with.
pub open spec fn leads(groups: Seq<Option<int>>, i: int) -> bool {
    forall|j: int| 0 <= j < i ==> !#[trigger] mates(groups, i, j)
}

/// The units in which fields are generated, in the order of their first fields:
/// those of a group together, every other field by itself.
pub open spec fn units_of(groups: Seq<Option<int>>, n: nat) -> Seq<Seq<int>>
    decreases n,
{
    if n == 0 {
        Seq::empty()
    } else {
        let before = units_of(groups, (n - 1) as nat);
        if leads(groups, n - 1) {
            before.push(mates_of(groups, n - 1, groups.len()))
        } else {
            before
        }
    }
}

/// Lists of positions, as views.
pub open spec fn positions(units: Seq<Vec<usize>>) -> Seq<Seq<int>> {
    units.map_values(|u: Vec<usize>| u@.map_values(|i: usize| i as int))
}

fn group_of(together: &Vec<Vec<String>>, field: &str) -> (r: Option<usize>)
    ensures
        first_group(lists(together@), field@) == (match r {
            Some(g) => Some(g as int),
            None => None,
        }),
{
    let ghost all = lists(together@);
    let mut g: usize = 0;
    while g < together.len()
        invariant
            g <= together.len(),
            all == lists(together@),
            first_group(all.take(g as int), field@) is None,
        decreases together.len() - g,
    {
        assert(all.take(g + 1).drop_last() == all.take(g as int));
        assert(all.take(g + 1).last() == views(together[g as int]@));
        if list_has(&together[g], field) {
            proof {
                lemma_group_prefix(all, g + 1, field@);
            }
            return Some(g);
        }
        g += 1;
    }
    assert(all.take(g as int) == all);
    None
}

proof fn lemma_group_prefix(together: Seq<Seq<Seq<char>>>, n: int, field: Seq<char>)
    requires
        0 <= n <= together.len(),
        first_group(together.take(n), field) is Some,
    ensures
        first_group(together, field) == first_group(together.take(n), field),
    decreases together.len(),
{
    if n == together.len() {
        assert(together.take(n) == together);
    } else {
        assert(together.drop_last().take(n) == together.take(n));
        lemma_group_prefix(together.drop_last(), n, field);
    }
}

/// The units in which some fields are generated, by their positions: the fields
/// of a `TOGETHER` group in one shot, every other field by itself.
pub fn generation_units(fields: &Vec<FieldSpec>, together: &Vec<Vec<String>>) -> (r: Vec<Vec<usize>>)
    ensures
        positions(r@) == units_of(
            groups_of(field_names(fields@), lists(together@)),
            fields@.len(),
        ),
{
    let ghost names = field_names(fields@);
    let ghost all = groups_of(names, lists(together@));
    let n: usize = fields.len();
    let mut groups: Vec<Option<usize>> = Vec::new();
    let mut i: usize = 0;
    while i < n
        invariant
            i <= n == fields.len(),
            names == field_names(fields@),
            all == groups_of(names, lists(together@)),
            groups.len() == i,
            forall|k: int| 0 <= k < i ==> #[trigger] all[k] == (match groups[k] {
                Some(g) => Some(g as int),
                None => None,
            }),
        decreases n - i,
    {
        assert(names[i as int] == fields[i as int].name@);
        groups.push(group_of(together, fields[i].name.as_str()));
        i += 1;
    }
    let mut units: Vec<Vec<usize>> = Vec::new();
    let mut i: usize = 0;
    while i < n
        invariant
            i <= n == groups.len(),
            n == all.len(),
            forall|k: int| 0 <= k < n ==> #[trigger] all[k] == (match groups[k] {
                Some(g) => Some(g as int),
                None => None,
            }),
            positions(units@) == units_of(all, i as nat),
        decreases n - i,
    {
        let mut unit: Vec<usize> = Vec::new();
        let mut first: bool = true;
        let mut j: usize = 0;
        while j < n
            invariant
                i < n == groups.len(),
                j <= n == all.len(),
                forall|k: int| 0 <= k < n ==> #[trigger] all[k] == (match groups[k] {
                    Some(g) => Some(g as int),
                    None => None,
                }),
                unit@.map_values(|k: usize| k as int) == mates_of(all, i as int, j as nat),
                first == (forall|k: int|
                    0 <= k < j && k < i ==> !#[trigger] mates(all, i as int, k)),
            decreases n - j,
        {
            let together: bool = i == j || match (groups[i], groups[j]) {
                (Some(a), Some(b)) => a == b,
                _ => false,
            };
            assert(all[i as int] is Some == groups[i as int] is Some);
            assert(all[j as int] is Some == groups[j as int] is Some);
            assert(together == mates(all, i as int, j as int));
            if together {
                let ghost before = unit@.map_values(|k: usize| k as int);
                unit.push(j);
                assert(unit@.map_values(|k: usize| k as int) =~= before.push(j as int));
                if j < i {
                    first = false;
                }
            }
            j += 1;
        }
        assert(first == leads(all, i as int));
        if first {
            let ghost before = positions(units@);
            units.push(unit);
            assert(positions(units@) =~= before.push(mates_of(all, i as int, n as nat)));
        }
        i += 1;
    }
    units
}

proof fn lemma_mates_of(groups: Seq<Option<int>>, i: int, n: nat, j: int)
    ensures
        mates_of(groups, i, n).contains(j) <==> 0 <= j < n && mates(groups, i, j),
    decreases n,
{
    if n > 0 {
        let before = mates_of(groups, i, (n - 1) as nat);
        let now = mates_of(groups, i, n);
        lemma_mates_of(groups, i, (n - 1) as nat, j);
        if before.contains(j) {
            let k = choose|k: int| 0 <= k < before.len() && before[k] == j;
            assert(now[k] == j);
        }
        if j == n - 1 && mates(groups, i, j) {
            assert(now[now.len() - 1] == j);
        }
    }
}

/// Each unit is that of a field that leads it, and later units are led by later
/// fields.
proof fn lemma_units_of(groups: Seq<Option<int>>, n: nat) -> (leaders: Seq<int>)
    requires
        n <= groups.len(),
    ensures
        leaders.len() == units_of(groups, n).len(),
        forall|u: int|
            0 <= u < leaders.len() ==> 0 <= #[trigger] leaders[u] < n && leads(groups, leaders[u])
                && units_of(groups, n)[u] == mates_of(groups, leaders[u], groups.len()),
        forall|a: int, b: int| 0 <= a < b < leaders.len() ==> leaders[a] < leaders[b],
        forall|i: int| 0 <= i < n && #[trigger] leads(groups, i) ==> leaders.contains(i),
    decreases n,
{
    if n == 0 {
        Seq::empty()
    } else {
        let before = lemma_units_of(groups, (n - 1) as nat);
        if leads(groups, n - 1) {
            let now = before.push(n - 1);
            assert forall|i: int| 0 <= i < n && #[trigger] leads(groups, i) implies now.contains(
                i,
            ) by {
                if i < n - 1 {
                    let k = choose|k: int| 0 <= k < before.len() && before[k] == i;
                    assert(now[k] == i);
                } else {
                    assert(now[now.len() - 1] == i);
                }
            }
            now
        } else {
            before
        }
    }
}

/// The first field that a field is generated with leads their unit.
proof fn lemma_leader(groups: Seq<Option<int>>, i: int, from: int) -> (l: int)
    requires
        0 <= from <= i < groups.len(),
        forall|j: int| 0 <= j < from ==> !#[trigger] mates(groups, i, j),
    ensures
        from <= l <= i,
        mates(groups, i, l),
        leads(groups, l),
    decreases i - from,
{
    if mates(groups, i, from) {
        assert forall|j: int| 0 <= j < from implies !#[trigger] mates(groups, from, j) by {
            assert(!mates(groups, i, j));
        }
        from
    } else {
        lemma_leader(groups, i, from + 1)
    }
}

/// Whether a unit holds exactly the fields that a field is generated with.
pub open spec fn is_unit_of(groups: Seq<Option<int>>, u: int, i: int) -> bool {
    let units = units_of(groups, groups.len());
    0 <= u < units.len() && forall|j: int| #[trigger]
        units[u].contains(j) <==> 0 <= j < groups.len() && mates(groups, i, j)
}

/// Every field is generated in exactly one unit, with all the fields of its
/// group and no other.
pub proof fn every_field_is_in_one_unit(groups: Seq<Option<int>>, i: int)
    requires
        0 <= i < groups.len(),
    ensures
        exists|u: int| is_unit_of(groups, u, i),
        forall|u: int, v: int|
            0 <= u < v < units_of(groups, groups.len()).len() ==> !(#[trigger] units_of(
                groups,
                groups.len(),
            )[u].contains(i) && #[trigger] units_of(groups, groups.len())[v].contains(i)),
{
    let n = groups.len();
    let units = units_of(groups, n);
    let leaders = lemma_units_of(groups, n);
    let l = lemma_leader(groups, i, 0);
    assert(leaders.contains(l));
    let u = choose|u: int| 0 <= u < leaders.len() && leaders[u] == l;
    assert(units[u] == mates_of(groups, l, n));
    assert forall|j: int| #[trigger]
        units[u].contains(j) <==> 0 <= j < n && mates(groups, i, j) by {
        lemma_mates_of(groups, l, n, j);
    }
    assert(is_unit_of(groups, u, i));
    assert forall|a: int, b: int| 0 <= a < b < units.len() implies !(#[trigger] units[a].contains(i)
        && #[trigger] units[b].contains(i)) by {
        lemma_mates_of(groups, leaders[a], n, i);
        lemma_mates_of(groups, leaders[b], n, i);
        assert(leaders[a] < leaders[b]);
        assert(!mates(groups, leaders[b], leaders[a]));
    }
}

/// A `TOGETHER` group is never pruned apart: where one of its fields is
/// extracted, all of them are.
pub proof fn groups_are_never_pruned_apart(
    fields: Seq<Seq<char>>,
    together: Seq<Seq<Seq<char>>>,
    wanted: Seq<Seq<char>>,
    g: int,
    a: Seq<char>,
    b: Seq<char>,
)
    requires
        0 <= g < together.len(),
        forall|i: int, j: int, f: Seq<char>|
            0 <= i < together.len() && 0 <= j < together.len() && #[trigger] together[i].contains(f)
                && #[trigger] together[j].contains(f) ==> i == j,
        together[g].contains(a),
        together[g].contains(b),
        fields.contains(b),
        kept_fields(fields, together, wanted).contains(a),
    ensures
        kept_fields(fields, together, wanted).contains(b),
{
    let keep = |f: Seq<char>| reached(f, together, wanted);
    fields.filter_lemma(keep);
    let kept = kept_fields(fields, together, wanted);
    let i = choose|i: int| 0 <= i < kept.len() && kept[i] == a;
    assert(keep(kept[i]));
    if wanted.contains(a) {
        let k = choose|k: int| 0 <= k < together[g].len() && together[g][k] == a;
        assert(wanted.contains(together[g][k]));
        assert(wants_any(together[g], wanted));
    } else {
        let h = choose|h: int|
            0 <= h < together.len() && (#[trigger] together[h]).contains(a) && wants_any(
                together[h],
                wanted,
            );
        assert(h == g);
    }
    assert(keep(b));
    let k = choose|k: int| 0 <= k < fields.len() && fields[k] == b;
    assert(kept.contains(fields[k]));
}

/// Fields are pushed down: every wanted field of the type is extracted, and one that
/// is not wanted only where it stands in a group with one that is.
pub proof fn only_wanted_fields_are_extracted(
    fields: Seq<Seq<char>>,
    together: Seq<Seq<Seq<char>>>,
    wanted: Seq<Seq<char>>,
    f: Seq<char>,
)
    ensures
        fields.contains(f) && wanted.contains(f) ==> kept_fields(
            fields,
            together,
            wanted,
        ).contains(f),
        kept_fields(fields, together, wanted).contains(f) ==> fields.contains(f) && (
        wanted.contains(f) || exists|g: int, k: int|
            0 <= g < together.len() && 0 <= k < together[g].len() && together[g].contains(f)
                && wanted.contains(#[trigger] together[g][k])),
    decreases fields.len(),
{
    reveal(Seq::filter);
    let keep = |f: Seq<char>| reached(f, together, wanted);
    let kept = fields.filter(keep);
    if fields.len() > 0 {
        let fewer = fields.drop_last();
        only_wanted_fields_are_extracted(fewer, together, wanted, f);
        let before = fewer.filter(keep);
        if kept.contains(f) {
            if before.contains(f) {
                let i = choose|i: int| 0 <= i < fewer.len() && fewer[i] == f;
                assert(fields[i] == f);
            } else {
                assert(fields[fields.len() - 1] == f);
                if !wanted.contains(f) {
                    let g = choose|g: int|
                        0 <= g < together.len() && (#[trigger] together[g]).contains(f)
                            && wants_any(together[g], wanted);
                    let k = choose|k: int|
                        0 <= k < together[g].len() && wanted.contains(#[trigger] together[g][k]);
                    assert(wanted.contains(together[g][k]));
                }
            }
        }
        if fields.contains(f) && wanted.contains(f) {
            let i = choose|i: int| 0 <= i < fields.len() && fields[i] == f;
            if i < fewer.len() {
                assert(fewer[i] == f);
                let j = choose|j: int| 0 <= j < before.len() && before[j] == f;
                assert(kept[j] == f);
            } else {
                assert(keep(f));
                assert(kept.last() == f);
            }
        }
    }
}

/// A field that a type does not have is reported, the first of them; and where none
/// is, the type has them all.
pub proof fn the_first_missing_field_is_reported(fields: Seq<Seq<char>>, wanted: Seq<Seq<char>>)
    ensures
        first_missing(fields, wanted) is None <==> forall|i: int|
            0 <= i < wanted.len() ==> fields.contains(#[trigger] wanted[i]),
        first_missing(fields, wanted) is Some ==> exists|i: int|
            0 <= i < wanted.len() && Some(#[trigger] wanted[i]) == first_missing(fields, wanted)
                && !fields.contains(wanted[i]) && forall|h: int|
                0 <= h < i ==> fields.contains(#[trigger] wanted[h]),
    decreases wanted.len(),
{
    if wanted.len() > 0 {
        let fewer = wanted.drop_last();
        let last = wanted.len() - 1;
        the_first_missing_field_is_reported(fields, fewer);
        if first_missing(fields, fewer) is Some {
            let i = choose|i: int|
                0 <= i < fewer.len() && Some(#[trigger] fewer[i]) == first_missing(fields, fewer)
                    && !fields.contains(fewer[i]) && forall|h: int|
                    0 <= h < i ==> fields.contains(#[trigger] fewer[h]);
            assert(wanted[i] == fewer[i]);
            assert forall|h: int| 0 <= h < i implies fields.contains(#[trigger] wanted[h]) by {
                assert(fewer[h] == wanted[h]);
            }
        } else {
            assert forall|h: int| 0 <= h < last implies fields.contains(#[trigger] wanted[h]) by {
                assert(fewer[h] == wanted[h]);
            }
            if first_missing(fields, wanted) is None {
                assert forall|i: int| 0 <= i < wanted.len() implies fields.contains(
                    #[trigger] wanted[i],
                ) by {}
            } else {
                assert(!fields.contains(wanted[last]));
            }
        }
    }
}

/// A type is found by its name, whatever the case of its letters, and of two with one
/// name the first.
pub proof fn a_type_is_found_by_its_name(types: Seq<SemanticType>, name: Seq<char>)
    ensures
        type_index(types, name) is None <==> forall|i: int|
            0 <= i < types.len() ==> lowercase((#[trigger] types[i]).name@) != lowercase(name),
        type_index(types, name) matches Some(i) ==> 0 <= i < types.len() && lowercase(
            types[i].name@,
        ) == lowercase(name) && forall|h: int|
            0 <= h < i ==> lowercase((#[trigger] types[h]).name@) != lowercase(name),
    decreases types.len(),
{
    if types.len() > 0 {
        let fewer = types.drop_last();
        a_type_is_found_by_its_name(fewer, name);
        assert forall|h: int| 0 <= h < fewer.len() implies #[trigger] types[h] == fewer[h] by {}
        if type_index(fewer, name) is None && type_index(types, name) is None {
            assert forall|i: int| 0 <= i < types.len() implies lowercase(
                (#[trigger] types[i]).name@,
            ) != lowercase(name) by {
                if i < fewer.len() {
                    assert(fewer[i] == types[i]);
                }
            }
        }
        if let Some(i) = type_index(types, name) {
            assert(lowercase(types[i].name@) == lowercase(name));
            assert forall|h: int| 0 <= h < i implies lowercase((#[trigger] types[h]).name@)
                != lowercase(name) by {
                assert(fewer[h] == types[h]);
            }
        }
    }
}

/// A field is generated with the first `TOGETHER` group that it stands in.
pub proof fn a_field_goes_with_its_first_group(together: Seq<Seq<Seq<char>>>, field: Seq<char>)
    ensures
        first_group(together, field) is None <==> forall|g: int|
            0 <= g < together.len() ==> !(#[trigger] together[g]).contains(field),
        first_group(together, field) matches Some(g) ==> 0 <= g < together.len()
            && together[g].contains(field) && forall|h: int|
            0 <= h < g ==> !(#[trigger] together[h]).contains(field),
    decreases together.len(),
{
    if together.len() > 0 {
        let fewer = together.drop_last();
        a_field_goes_with_its_first_group(fewer, field);
        assert forall|h: int| 0 <= h < fewer.len() implies #[trigger] together[h] == fewer[h] by {}
        if first_group(together, field) is None {
            assert forall|g: int| 0 <= g < together.len() implies !(
            #[trigger] together[g]).contains(field) by {
                if g < fewer.len() {
                    assert(fewer[g] == together[g]);
                }
            }
        }
        if let Some(g) = first_group(together, field) {
            assert(together[g].contains(field));
            assert forall|h: int| 0 <= h < g implies !(#[trigger] together[h]).contains(field) by {
                assert(fewer[h] == together[h]);
            }
        }
    }
}

}
