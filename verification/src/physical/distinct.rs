//! The dedupe stage: giving near-duplicate rows a shared key.
//!
//! The operator only materializes the key; the `DISTINCT ON` above it does the
//! deduplication. A row that the index has never seen is its own group, keyed by
//! its own identity, so only a byte-identical twin joins it.

use std::collections::HashMap;

use vstd::arithmetic::power::{lemma_pow0, lemma_pow1, pow};
use vstd::prelude::*;

use crate::index::{doc_hash, hash_of, opt_views};
use crate::text::{digit_char, hex_of, hexadecimal, opt_view, pad_zeros, zero_padded};

verus! {

/// A group key: the representative document's identity in hexadecimal, at a
/// fixed width.
pub open spec fn key_text(hash: u64) -> Seq<char> {
    zero_padded(hexadecimal(hash as nat), 16)
}

/// A group key: the representative document's identity, rendered so it sorts and
/// compares as an ordinary string.
pub fn format_key(doc_hash: u64) -> (r: String)
    ensures
        r@ == key_text(doc_hash),
{
    let hex = hex_of(doc_hash);
    pad_zeros(&hex, 16)
}

/// The last `width` hexadecimal digits of a number.
pub open spec fn hex_digits(n: nat, width: nat) -> Seq<char>
    decreases width,
{
    if width == 0 {
        Seq::empty()
    } else {
        hex_digits(n / 16, (width - 1) as nat).push(digit_char(n % 16))
    }
}

proof fn lemma_hex_digits(n: nat, width: nat)
    requires
        width > 0,
        n < pow(16, width),
    ensures
        hexadecimal(n).len() <= width,
        zero_padded(hexadecimal(n), width) == hex_digits(n, width),
    decreases width,
{
    lemma_pow0(16);
    lemma_pow1(16);
    reveal(pow);
    let h = hexadecimal(n);
    let rest = (width - 1) as nat;
    if n < 16 {
        assert(h.len() == 1);
        lemma_zero_digits(rest);
        assert(n / 16 == 0 && n % 16 == n);
        assert(zero_padded(h, width) =~= hex_digits(0, rest).push(digit_char(n)));
    } else {
        assert(width > 1) by {
            if width == 1 {
                assert(pow(16, 1) == 16);
            }
        }
        assert(n / 16 < pow(16, rest)) by (nonlinear_arith)
            requires
                n < 16 * pow(16, rest),
        ;
        lemma_hex_digits(n / 16, rest);
        assert(h == hexadecimal(n / 16).push(digit_char(n % 16)));
        assert(zero_padded(h, width) =~= zero_padded(hexadecimal(n / 16), rest).push(
            digit_char(n % 16),
        ));
    }
}

proof fn lemma_zero_digits(width: nat)
    ensures
        hex_digits(0, width) == Seq::new(width, |i: int| '0'),
    decreases width,
{
    if width > 0 {
        lemma_zero_digits((width - 1) as nat);
        assert(Seq::new(width, |i: int| '0') =~= Seq::new((width - 1) as nat, |i: int| '0').push(
            '0',
        ));
    }
}

/// Whether one text comes before another of the same length in the dictionary.
pub open spec fn text_before(a: Seq<char>, b: Seq<char>) -> bool {
    exists|i: int|
        0 <= i < a.len() && i < b.len() && a.take(i) == b.take(i) && #[trigger] a[i] < b[i]
}

proof fn lemma_digits_order(a: nat, b: nat, width: nat)
    requires
        a < b < pow(16, width),
    ensures
        hex_digits(a, width).len() == width,
        hex_digits(b, width).len() == width,
        text_before(hex_digits(a, width), hex_digits(b, width)),
    decreases width,
{
    reveal(pow);
    lemma_digits_len(a, width);
    lemma_digits_len(b, width);
    let rest = (width - 1) as nat;
    let x = hex_digits(a, width);
    let y = hex_digits(b, width);
    let p = hex_digits(a / 16, rest);
    let q = hex_digits(b / 16, rest);
    if a / 16 < b / 16 {
        assert(b / 16 < pow(16, rest)) by (nonlinear_arith)
            requires
                b < 16 * pow(16, rest),
        ;
        lemma_digits_order(a / 16, b / 16, rest);
        let i = choose|i: int|
            0 <= i < p.len() && i < q.len() && p.take(i) == q.take(i) && #[trigger] p[i] < q[i];
        assert(x.take(i) == p.take(i));
        assert(y.take(i) == q.take(i));
        assert(x[i] == p[i] && y[i] == q[i]);
    } else {
        assert(a / 16 == b / 16 && a % 16 < b % 16);
        assert(x.take(rest as int) == p);
        assert(y.take(rest as int) == q);
        assert(x[rest as int] < y[rest as int]);
    }
}

proof fn lemma_digits_len(n: nat, width: nat)
    ensures
        hex_digits(n, width).len() == width,
    decreases width,
{
    if width > 0 {
        lemma_digits_len(n / 16, (width - 1) as nat);
    }
}

proof fn lemma_key_digits(hash: u64)
    ensures
        key_text(hash) == hex_digits(hash as nat, 16),
        (hash as nat) < pow(16, 16),
{
    assert(pow(16, 16) == 0x1_0000_0000_0000_0000) by {
        vstd::arithmetic::power2::lemma_pow2(64);
        vstd::arithmetic::power2::lemma2_to64();
        assert(pow(16, 16) == 0x1_0000_0000_0000_0000) by {
            reveal_with_fuel(pow, 17);
        }
    }
    lemma_hex_digits(hash as nat, 16);
}

/// Keys have a fixed width, so they compare and sort as strings without
/// surprises: a smaller identity has the key that comes first, and different
/// identities have different keys.
pub proof fn keys_sort_as_their_documents(a: u64, b: u64)
    ensures
        key_text(a).len() == 16,
        a < b ==> text_before(key_text(a), key_text(b)),
        a != b ==> key_text(a) != key_text(b),
{
    lemma_key_digits(a);
    lemma_key_digits(b);
    lemma_digits_len(a as nat, 16);
    if a < b {
        lemma_digits_order(a as nat, b as nat, 16);
    } else if b < a {
        lemma_digits_order(b as nat, a as nat, 16);
    }
}

/// The keys of the grouped documents.
#[derive(Debug)]
pub struct KeyOutcome {
    pub keys: HashMap<u64, String>,
    pub groups: usize,
    pub duplicate_rows: usize,
}

/// How many documents do not represent themselves.
pub open spec fn duplicates(hashes: Seq<u64>, groups: Seq<usize>, n: nat) -> nat
    decreases n,
{
    if n == 0 {
        0
    } else {
        duplicates(hashes, groups, (n - 1) as nat) + if hashes[groups[n - 1] as int] == hashes[n
            - 1] {
            0nat
        } else {
            1nat
        }
    }
}

/// Gives each document its representative's key. The representative's identity
/// is the key: short, stable, and shared by exactly the documents that collapse
/// together.
pub fn group_keys(hashes: &Vec<u64>, groups: &Vec<usize>) -> (r: KeyOutcome)
    requires
        groups.len() == hashes.len(),
        forall|i: int| 0 <= i < groups.len() ==> #[trigger] groups[i] < hashes.len(),
        forall|i: int, j: int| 0 <= i < j < hashes.len() ==> hashes[i] != hashes[j],
    ensures
        forall|h: u64| #[trigger] r.keys@.contains_key(h) <==> hashes@.contains(h),
        forall|i: int|
            0 <= i < hashes.len() ==> r.keys@[#[trigger] hashes@[i]]@ == key_text(
                hashes@[groups[i] as int],
            ),
        r.duplicate_rows == duplicates(hashes@, groups@, hashes@.len()),
        r.groups + r.duplicate_rows == hashes.len(),
{
    let mut keys: HashMap<u64, String> = HashMap::new();
    let mut distinct: usize = 0;
    let mut duplicate_rows: usize = 0;
    let mut i: usize = 0;
    while i < hashes.len()
        invariant
            groups.len() == hashes.len(),
            forall|i: int| 0 <= i < groups.len() ==> #[trigger] groups[i] < hashes.len(),
            forall|a: int, b: int| 0 <= a < b < hashes.len() ==> hashes[a] != hashes[b],
            i <= hashes.len(),
            forall|h: u64| #[trigger]
                keys@.contains_key(h) <==> hashes@.take(i as int).contains(h),
            forall|a: int|
                0 <= a < i ==> keys@[#[trigger] hashes@[a]]@ == key_text(
                    hashes@[groups[a] as int],
                ),
            duplicate_rows == duplicates(hashes@, groups@, i as nat),
            distinct + duplicate_rows == i,
        decreases hashes.len() - i,
    {
        let representative: u64 = hashes[groups[i]];
        let hash: u64 = hashes[i];
        if representative == hash {
            distinct = distinct + 1;
        } else {
            duplicate_rows = duplicate_rows + 1;
        }
        let ghost before = keys@;
        keys.insert(hash, format_key(representative));
        let ghost was = hashes@.take(i as int);
        let ghost now = hashes@.take(i + 1);
        assert forall|h: u64| #[trigger] keys@.contains_key(h) <==> now.contains(h) by {
            assert(before.contains_key(h) <==> was.contains(h));
            if was.contains(h) {
                let k = choose|k: int| 0 <= k < was.len() && was[k] == h;
                assert(now[k] == h);
            }
            if now.contains(h) && h != hash {
                let k = choose|k: int| 0 <= k < now.len() && now[k] == h;
                assert(was[k] == h);
            }
            if h == hash {
                assert(now[i as int] == h);
            }
        }
        i += 1;
    }
    assert(hashes@.take(i as int) == hashes@);
    KeyOutcome { keys, groups: distinct, duplicate_rows }
}

/// The key column of a batch. A NULL text has no identity to compare, and SQL
/// groups NULL keys together, which is what a plain `DISTINCT ON` would do too.
/// A document outside the grouping is its own group: a NULL key would collapse
/// every unindexed row into one.
pub fn with_keys(keys: &HashMap<u64, String>, texts: &Vec<Option<String>>) -> (r: Vec<
    Option<String>,
>)
    ensures
        r.len() == texts.len(),
        forall|i: int|
            0 <= i < texts.len() ==> opt_view(#[trigger] r[i]) == (match opt_views(texts@)[i] {
                Some(t) => if keys@.contains_key(hash_of(t)) {
                    Some(keys@[hash_of(t)]@)
                } else {
                    Some(key_text(hash_of(t)))
                },
                None => None,
            }),
{
    let mut column: Vec<Option<String>> = Vec::new();
    let mut i: usize = 0;
    while i < texts.len()
        invariant
            i <= texts.len(),
            column.len() == i,
            forall|k: int|
                0 <= k < i ==> opt_view(#[trigger] column[k]) == (match opt_views(texts@)[k] {
                    Some(t) => if keys@.contains_key(hash_of(t)) {
                        Some(keys@[hash_of(t)]@)
                    } else {
                        Some(key_text(hash_of(t)))
                    },
                    None => None,
                }),
        decreases texts.len() - i,
    {
        let cell: Option<String> = match &texts[i] {
            Some(text) => {
                let hash = doc_hash(text.as_str());
                match keys.get(&hash) {
                    Some(key) => Some(key.clone()),
                    None => Some(format_key(hash)),
                }
            },
            None => None,
        };
        column.push(cell);
        i += 1;
    }
    column
}

/// Two documents collapse together exactly where they have the same
/// representative.
pub proof fn rows_collapse_with_their_representative(a: u64, b: u64)
    ensures
        key_text(a) == key_text(b) <==> a == b,
{
    keys_sort_as_their_documents(a, b);
}

/// A duplicate is a document that another stands for: of documents that differ, so
/// many are counted.
pub proof fn duplicates_are_represented_by_another(hashes: Seq<u64>, groups: Seq<usize>, n: nat)
    requires
        hashes.no_duplicates(),
        groups.len() == hashes.len(),
        n <= groups.len(),
        forall|i: int| 0 <= i < groups.len() ==> #[trigger] groups[i] < hashes.len(),
    ensures
        duplicates(hashes, groups, n) == Seq::new(n, |i: int| i).filter(
            |i: int| groups[i] != i,
        ).len(),
    decreases n,
{
    reveal(Seq::filter);
    if n > 0 {
        let m = (n - 1) as nat;
        duplicates_are_represented_by_another(hashes, groups, m);
        assert(Seq::new(n, |i: int| i).drop_last() =~= Seq::new(m, |i: int| i));
        assert(groups[n - 1] < hashes.len());
    }
}

}
