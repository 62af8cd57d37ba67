//! Physical execution: what each semantic operator asks a model about a batch
//! of rows, and what it makes of the answers.
//!
//! Every operator works in two steps around the model call. Planning reads the
//! cache, settles the rows it can, and lists the requests for the rest;
//! applying decodes the answers, settles those rows and feeds the cache. This
//! module states what the two steps have in common.

pub mod bill;
pub mod classify;
pub mod cluster;
pub mod distinct;
pub mod extract;
pub mod index_scan;
pub mod planner;
pub mod rank;
pub mod verify;

use vstd::prelude::*;

use crate::cache::{
    entry, known, lookup, CacheKey, CachedValue, Contents, KeyView, SemanticCache, ValueView,
};

verus! {

/// The positions of the questions that the cache does not answer, in order. A
/// position without a key asks nothing.
pub open spec fn misses(keys: Seq<Option<KeyView>>, c: Contents) -> Seq<int>
    decreases keys.len(),
{
    if keys.len() == 0 {
        Seq::empty()
    } else {
        let before = misses(keys.drop_last(), c);
        match keys.last() {
            Some(k) => if known(c, k) is None {
                before.push(keys.len() - 1)
            } else {
                before
            },
            None => before,
        }
    }
}

/// How many questions the cache answers.
pub open spec fn hits(keys: Seq<Option<KeyView>>, c: Contents) -> nat
    decreases keys.len(),
{
    if keys.len() == 0 {
        0
    } else {
        let before = hits(keys.drop_last(), c);
        match keys.last() {
            Some(k) => if known(c, k) is Some {
                before + 1
            } else {
                before
            },
            None => before,
        }
    }
}

/// A cache after one evaluation. The first evaluation wins: a question that is
/// answered already keeps its answer.
pub open spec fn first_kept(c: Contents, key: KeyView, value: Seq<char>) -> Contents {
    if known(c, key) is Some {
        c
    } else {
        c.insert(key, ValueView::Value(value))
    }
}

/// A cache after some evaluations, one after another: the first usable value of
/// each question is stored under its key, and an unusable one leaves no trace.
pub open spec fn remembered(c: Contents, keys: Seq<KeyView>, values: Seq<Option<Seq<char>>>) -> Contents
    decreases values.len(),
{
    if values.len() == 0 {
        c
    } else {
        let before = remembered(c, keys.drop_last(), values.drop_last());
        match values.last() {
            Some(v) => first_kept(before, keys.last(), v),
            None => before,
        }
    }
}

/// The values that some evaluations come to: of equal questions, each with a
/// usable value, all take the first.
pub open spec fn agreed(c: Contents, keys: Seq<KeyView>, values: Seq<Option<Seq<char>>>) -> Seq<
    Option<Seq<char>>,
>
    decreases values.len(),
{
    if values.len() == 0 {
        Seq::empty()
    } else {
        agreed(c, keys.drop_last(), values.drop_last()).push(
            match values.last() {
                Some(_) => known(remembered(c, keys, values), keys.last()),
                None => None,
            },
        )
    }
}

/// Takes an evaluation in, and gives the one that the question keeps.
pub(crate) fn keep_first<C: SemanticCache>(cache: &mut C, key: CacheKey, value: String) -> (r: String)
    ensures
        final(cache).contents() == first_kept(old(cache).contents(), key@, value@),
        known(final(cache).contents(), key@) == Some(r@),
{
    match lookup(cache, &key) {
        Some(first) => first,
        None => {
            let kept: String = value.clone();
            cache.put(key, CachedValue::Value(value));
            kept
        },
    }
}

/// How many values are unusable.
pub open spec fn unusable<T>(values: Seq<Option<T>>) -> nat
    decreases values.len(),
{
    if values.len() == 0 {
        0
    } else {
        unusable(values.drop_last()) + if values.last() is None {
            1nat
        } else {
            0nat
        }
    }
}

/// The misses are positions, in order, and exactly those whose question has a
/// key without a cached value: a row that the cache answers never reaches the
/// model.
pub proof fn misses_are_the_unanswered(keys: Seq<Option<KeyView>>, c: Contents)
    ensures
        forall|j: int|
            0 <= j < misses(keys, c).len() ==> {
                let i = #[trigger] misses(keys, c)[j];
                0 <= i < keys.len() && keys[i] is Some && known(c, keys[i]->0) is None
            },
        forall|a: int, b: int|
            0 <= a < b < misses(keys, c).len() ==> misses(keys, c)[a] < misses(keys, c)[b],
        forall|i: int|
            0 <= i < keys.len() && #[trigger] keys[i] is Some && known(c, keys[i]->0) is None
                ==> misses(keys, c).contains(i),
    decreases keys.len(),
{
    if keys.len() > 0 {
        let short = keys.drop_last();
        misses_are_the_unanswered(short, c);
        let m = misses(keys, c);
        let before = misses(short, c);
        assert forall|j: int| 0 <= j < m.len() implies {
            let i = #[trigger] m[j];
            0 <= i < keys.len() && keys[i] is Some && known(c, keys[i]->0) is None
        } by {
            if j < before.len() {
                assert(m[j] == before[j]);
                assert(short[before[j]] == keys[before[j]]);
            }
        }
        assert forall|i: int|
            0 <= i < keys.len() && #[trigger] keys[i] is Some && known(
                c,
                keys[i]->0,
            ) is None implies m.contains(i) by {
            if i < short.len() {
                assert(short[i] == keys[i]);
                assert(before.contains(i));
                let j = choose|j: int| 0 <= j < before.len() && before[j] == i;
                assert(m[j] == i);
            } else {
                assert(m[m.len() - 1] == i);
            }
        }
    }
}

/// What is remembered of a key that no usable value was stored under is what
/// was known before: a failed evaluation is not cached.
pub proof fn failures_are_not_cached(
    c: Contents,
    keys: Seq<KeyView>,
    values: Seq<Option<Seq<char>>>,
    key: KeyView,
)
    requires
        keys.len() == values.len(),
        forall|j: int| 0 <= j < keys.len() && #[trigger] keys[j] == key ==> values[j] is None,
    ensures
        entry(remembered(c, keys, values), key) == entry(c, key),
    decreases values.len(),
{
    if values.len() > 0 {
        let n = keys.len() - 1;
        assert forall|j: int|
            0 <= j < keys.drop_last().len() && #[trigger] keys.drop_last()[j]
                == key implies values.drop_last()[j] is None by {
            assert(keys[j] == key);
        }
        failures_are_not_cached(c, keys.drop_last(), values.drop_last(), key);
        if keys[n] == key {
            assert(values[n] is None);
        }
    }
}

/// First evaluation wins: what a cache answers stays its answer through all
/// further evaluations.
pub proof fn answers_stay_answered(
    c: Contents,
    keys: Seq<KeyView>,
    values: Seq<Option<Seq<char>>>,
    key: KeyView,
)
    requires
        keys.len() == values.len(),
        known(c, key) is Some,
    ensures
        known(remembered(c, keys, values), key) == known(c, key),
    decreases values.len(),
{
    if values.len() > 0 {
        answers_stay_answered(c, keys.drop_last(), values.drop_last(), key);
    }
}

/// Every question that got a usable value is answered by the cache from then on,
/// by the value that it came to.
pub proof fn usable_values_are_cached(
    c: Contents,
    keys: Seq<KeyView>,
    values: Seq<Option<Seq<char>>>,
    j: int,
)
    requires
        keys.len() == values.len(),
        0 <= j < keys.len(),
    ensures
        agreed(c, keys, values).len() == values.len(),
        values[j] is None ==> agreed(c, keys, values)[j] is None,
        values[j] is Some ==> known(remembered(c, keys, values), keys[j]) is Some,
        values[j] is Some ==> agreed(c, keys, values)[j] == known(
            remembered(c, keys, values),
            keys[j],
        ),
    decreases values.len(),
{
    let n = keys.len() - 1;
    let ks = keys.drop_last();
    let vs = values.drop_last();
    lemma_agreed_len(c, ks, vs);
    if j < n {
        usable_values_are_cached(c, ks, vs, j);
        let before = remembered(c, ks, vs);
        if values[j] is Some {
            assert(ks[j] == keys[j] && vs[j] == values[j]);
            assert(known(remembered(c, keys, values), keys[j]) == known(before, keys[j]));
        }
    }
}

pub proof fn lemma_agreed_len(c: Contents, keys: Seq<KeyView>, values: Seq<Option<Seq<char>>>)
    ensures
        agreed(c, keys, values).len() == values.len(),
    decreases values.len(),
{
    if values.len() > 0 {
        lemma_agreed_len(c, keys.drop_last(), values.drop_last());
    }
}

/// The keys of the unanswered questions.
pub open spec fn missed_keys(keys: Seq<Option<KeyView>>, c: Contents) -> Seq<KeyView> {
    misses(keys, c).map_values(|i: int| keys[i]->0)
}

/// Pay once: where every evaluation was usable, asking the same questions again
/// misses nothing, so a re-run makes no model call.
pub proof fn a_rerun_misses_nothing(
    keys: Seq<Option<KeyView>>,
    c: Contents,
    values: Seq<Option<Seq<char>>>,
)
    requires
        values.len() == misses(keys, c).len(),
        unusable(values) == 0,
    ensures
        misses(keys, remembered(c, missed_keys(keys, c), values)).len() == 0,
{
    let after = remembered(c, missed_keys(keys, c), values);
    misses_are_the_unanswered(keys, c);
    misses_are_the_unanswered(keys, after);
    lemma_none_unusable(values);
    if misses(keys, after).len() > 0 {
        let i = misses(keys, after)[0];
        if known(c, keys[i]->0) is Some {
            answers_stay_answered(c, missed_keys(keys, c), values, keys[i]->0);
        } else {
            assert(misses(keys, c).contains(i));
            let j = choose|j: int| 0 <= j < misses(keys, c).len() && misses(keys, c)[j] == i;
            assert(missed_keys(keys, c)[j] == keys[i]->0);
            usable_values_are_cached(c, missed_keys(keys, c), values, j);
        }
    }
}

pub proof fn lemma_none_unusable<T>(values: Seq<Option<T>>)
    requires
        unusable(values) == 0,
    ensures
        forall|j: int| 0 <= j < values.len() ==> #[trigger] values[j] is Some,
    decreases values.len(),
{
    if values.len() > 0 {
        lemma_none_unusable(values.drop_last());
        assert forall|j: int| 0 <= j < values.len() implies #[trigger] values[j] is Some by {
            if j < values.len() - 1 {
                assert(values.drop_last()[j] is Some);
            }
        }
    }
}

pub proof fn lemma_all_usable<T>(values: Seq<Option<T>>)
    requires
        forall|j: int| 0 <= j < values.len() ==> #[trigger] values[j] is Some,
    ensures
        unusable(values) == 0,
    decreases values.len(),
{
    if values.len() > 0 {
        let short = values.drop_last();
        assert forall|j: int| 0 <= j < short.len() implies #[trigger] short[j] is Some by {
            assert(values[j] is Some);
        }
        lemma_all_usable(short);
        assert(values[values.len() - 1] is Some);
    }
}

/// What a question comes to is settled once it is evaluated, whatever follows.
pub proof fn lemma_agreed_prefix(
    c: Contents,
    keys: Seq<KeyView>,
    values: Seq<Option<Seq<char>>>,
    j: int,
)
    requires
        keys.len() == values.len(),
        0 <= j < keys.len(),
    ensures
        agreed(c, keys, values)[j] == (match values[j] {
            Some(_) => known(
                remembered(c, keys.take(j + 1), values.take(j + 1)),
                keys[j],
            ),
            None => None,
        }),
    decreases keys.len(),
{
    let n = keys.len() - 1;
    let ks = keys.drop_last();
    let vs = values.drop_last();
    lemma_agreed_len(c, ks, vs);
    if j < n {
        lemma_agreed_prefix(c, ks, vs, j);
        assert(ks.take(j + 1) == keys.take(j + 1));
        assert(vs.take(j + 1) == values.take(j + 1));
    } else {
        assert(keys.take(j + 1) == keys);
        assert(values.take(j + 1) == values);
    }
}

pub proof fn lemma_unusable_bound<T>(values: Seq<Option<T>>)
    ensures
        unusable(values) <= values.len(),
    decreases values.len(),
{
    if values.len() > 0 {
        lemma_unusable_bound(values.drop_last());
    }
}

pub proof fn lemma_hits_bound(keys: Seq<Option<KeyView>>, c: Contents)
    ensures
        hits(keys, c) + misses(keys, c).len() <= keys.len(),
    decreases keys.len(),
{
    if keys.len() > 0 {
        lemma_hits_bound(keys.drop_last(), c);
    }
}

/// The counters count: the unusable values are those that there are none of, the
/// hits and the misses are the questions with and without a cached value, and no
/// question is both.
pub proof fn counters_count<T>(values: Seq<Option<T>>, keys: Seq<Option<KeyView>>, c: Contents)
    ensures
        unusable(values) == values.filter(|v: Option<T>| v is None).len(),
        hits(keys, c) == keys.filter(
            |k: Option<KeyView>| k is Some && known(c, k->0) is Some,
        ).len(),
        misses(keys, c).len() == keys.filter(
            |k: Option<KeyView>| k is Some && known(c, k->0) is None,
        ).len(),
    decreases values.len() + keys.len(),
{
    reveal(Seq::filter);
    if values.len() > 0 {
        counters_count(values.drop_last(), keys, c);
    } else if keys.len() > 0 {
        counters_count(values, keys.drop_last(), c);
    }
}

/// A question comes to its first usable value, as it was given: the cached one
/// where there is one, else that of the first evaluation that has one.
pub proof fn the_first_usable_value_stands(
    c: Contents,
    keys: Seq<KeyView>,
    values: Seq<Option<Seq<char>>>,
    j: int,
)
    requires
        keys.len() == values.len(),
        0 <= j < keys.len(),
        values[j] is Some,
    ensures
        known(c, keys[j]) is Some ==> agreed(c, keys, values)[j] == known(c, keys[j]),
        known(c, keys[j]) is None ==> forall|i: int|
            0 <= i <= j && keys[i] == keys[j] && #[trigger] values[i] is Some && (forall|h: int|
                0 <= h < i && #[trigger] keys[h] == keys[j] ==> values[h] is None)
                ==> agreed(c, keys, values)[j] == values[i],
{
    usable_values_are_cached(c, keys, values, j);
    if known(c, keys[j]) is Some {
        answers_stay_answered(c, keys, values, keys[j]);
    } else {
        assert forall|i: int|
            0 <= i <= j && keys[i] == keys[j] && #[trigger] values[i] is Some && (forall|h: int|
                0 <= h < i && #[trigger] keys[h] == keys[j] ==> values[h] is None) implies agreed(
            c,
            keys,
            values,
        )[j] == values[i] by {
            let ks = keys.take(i + 1);
            let vs = values.take(i + 1);
            assert(ks.drop_last() =~= keys.take(i));
            assert(vs.drop_last() =~= values.take(i));
            assert forall|h: int|
                0 <= h < keys.take(i).len() && #[trigger] keys.take(i)[h]
                    == keys[j] implies values.take(i)[h] is None by {
                assert(keys[h] == keys[j]);
            }
            failures_are_not_cached(c, keys.take(i), values.take(i), keys[j]);
            let then = remembered(c, ks, vs);
            assert(known(then, keys[j]) == values[i]);
            lemma_remembered_on(c, keys, values, i + 1);
            answers_stay_answered(then, keys.skip(i + 1), values.skip(i + 1), keys[j]);
        }
    }
}

/// Remembering goes on from where it was.
proof fn lemma_remembered_on(
    c: Contents,
    keys: Seq<KeyView>,
    values: Seq<Option<Seq<char>>>,
    n: int,
)
    requires
        keys.len() == values.len(),
        0 <= n <= keys.len(),
    ensures
        remembered(c, keys, values) == remembered(
            remembered(c, keys.take(n), values.take(n)),
            keys.skip(n),
            values.skip(n),
        ),
    decreases keys.len(),
{
    if n == keys.len() {
        assert(keys.take(n) =~= keys);
        assert(values.take(n) =~= values);
    } else {
        let ks = keys.drop_last();
        let vs = values.drop_last();
        lemma_remembered_on(c, ks, vs, n);
        assert(ks.take(n) =~= keys.take(n));
        assert(vs.take(n) =~= values.take(n));
        assert(keys.skip(n).drop_last() =~= ks.skip(n));
        assert(values.skip(n).drop_last() =~= vs.skip(n));
        assert(keys.skip(n).last() == keys.last());
        assert(values.skip(n).last() == values.last());
    }
}

/// Evaluations settle their own questions and no others: questions that none of
/// them asked are known, hit and missed as before.
pub proof fn other_questions_are_untouched(
    c: Contents,
    asked: Seq<KeyView>,
    values: Seq<Option<Seq<char>>>,
    others: Seq<Option<KeyView>>,
)
    requires
        asked.len() == values.len(),
        forall|i: int, j: int|
            0 <= i < asked.len() && 0 <= j < others.len() && #[trigger] others[j] is Some
                ==> others[j]->0 != #[trigger] asked[i],
    ensures
        ({
            let after = remembered(c, asked, values);
            &&& misses(others, after) == misses(others, c)
            &&& hits(others, after) == hits(others, c)
            &&& forall|j: int|
                0 <= j < others.len() && #[trigger] others[j] is Some ==> known(after, others[j]->0)
                    == known(c, others[j]->0)
        }),
    decreases others.len(),
{
    if others.len() > 0 {
        let fewer = others.drop_last();
        assert forall|i: int, j: int|
            0 <= i < asked.len() && 0 <= j < fewer.len() && #[trigger] fewer[j] is Some implies fewer[j]->0
            != #[trigger] asked[i] by {
            assert(fewer[j] == others[j]);
        }
        other_questions_are_untouched(c, asked, values, fewer);
        let last = others[others.len() - 1];
        if last is Some {
            assert forall|i: int| 0 <= i < asked.len() && #[trigger] asked[i]
                == last->0 implies values[i] is None by {}
            failures_are_not_cached(c, asked, values, last->0);
        }
        assert forall|j: int| 0 <= j < others.len() && #[trigger] others[j] is Some implies known(
            remembered(c, asked, values),
            others[j]->0,
        ) == known(c, others[j]->0) by {
            if j < fewer.len() {
                assert(fewer[j] == others[j]);
            }
        }
    }
}

}
