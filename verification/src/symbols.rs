//! Estimating a distribution: counting how often each symbol occurs.

use crate::types::HuffmanError;
use std::collections::HashMap;
use std::hash::Hash;
use vstd::prelude::*;
use vstd::std_specs::hash::obeys_key_model;
use vstd::std_specs::iter::IteratorSpec;

verus! {

/// A distribution: for each symbol its weight, the number of times it was
/// seen. The probability of a symbol is its weight divided by the sum of all
/// weights.
pub type SymbolDistribution<T> = HashMap<T, u64>;

/// The sum of all weights of a distribution.
pub open spec fn distribution_total<T>(dist: Map<T, u64>) -> nat
    decreases dist.dom().len(),
    when dist.dom().finite()
{
    if dist.dom().len() == 0 {
        0
    } else {
        let symbol = dist.dom().choose();
        dist[symbol] as nat + distribution_total(dist.remove(symbol))
    }
}

/// The sum of all weights does not depend on the order of summation: any
/// symbol of the distribution can be taken out first.
pub proof fn lemma_total_remove<T>(dist: Map<T, u64>, symbol: T)
    requires
        dist.dom().finite(),
        dist.contains_key(symbol),
    ensures
        distribution_total(dist) == dist[symbol] as nat + distribution_total(dist.remove(symbol)),
    decreases dist.dom().len(),
{
    let first = dist.dom().choose();
    if first != symbol {
        lemma_total_remove(dist.remove(first), symbol);
        lemma_total_remove(dist.remove(symbol), first);
        assert(dist.remove(first).remove(symbol) == dist.remove(symbol).remove(first));
    }
}

/// Setting the weight of one symbol changes the sum by the difference.
pub proof fn lemma_total_insert<T>(dist: Map<T, u64>, symbol: T, weight: u64)
    requires
        dist.dom().finite(),
    ensures
        distribution_total(dist.insert(symbol, weight)) == distribution_total(dist) + weight - (
        if dist.contains_key(symbol) {
            dist[symbol] as nat
        } else {
            0
        }),
{
    let updated = dist.insert(symbol, weight);
    lemma_total_remove(updated, symbol);
    assert(updated.remove(symbol) == dist.remove(symbol));
    if dist.contains_key(symbol) {
        lemma_total_remove(dist, symbol);
    } else {
        assert(dist.remove(symbol) == dist);
    }
}

/// Counts how often each symbol occurs in `symbols`.
pub fn from_symbol_iter<T>(symbols: &[T]) -> (result: Result<
    SymbolDistribution<T>,
    HuffmanError<T>,
>) where T: Eq + Copy + Hash
    requires
        obeys_key_model::<T>(),
    ensures
        match result {
            Ok(dist) => {
                &&& symbols.len() > 0
                &&& forall|s: T| #[trigger] dist@.contains_key(s) <==> symbols@.contains(s)
                &&& forall|s: T| #[trigger]
                    dist@.contains_key(s) ==> dist@[s] == symbols@.to_multiset().count(s)
                &&& distribution_total(dist@) == symbols.len()
            },
            Err(e) => symbols.len() == 0 && e == HuffmanError::<T>::EmptyInput,
        },
{
    broadcast use vstd::std_specs::hash::group_hash_axioms;

    if symbols.len() == 0 {
        return Err(HuffmanError::EmptyInput);
    }
    let mut occurrences: SymbolDistribution<T> = HashMap::new();
    let mut i: usize = 0;
    while i < symbols.len()
        invariant
            obeys_key_model::<T>(),
            i <= symbols.len(),
            forall|s: T| #[trigger]
                occurrences@.contains_key(s) <==> symbols@.take(i as int).contains(s),
            forall|s: T| #[trigger]
                occurrences@.contains_key(s) ==> occurrences@[s] == symbols@.take(
                    i as int,
                ).to_multiset().count(s),
            distribution_total(occurrences@) == i,
        decreases symbols.len() - i,
    {
        let symbol = symbols[i];
        let ghost seen = symbols@.take(i as int);
        let ghost before = occurrences@;
        proof {
            assert(symbols@.take(i + 1) == seen.push(symbol));
            vstd::seq_lib::to_multiset_build(seen, symbol);
            seen.to_multiset_ensures();
            vstd::multiset::axiom_count_le_len(seen.to_multiset(), symbol);
            lemma_total_insert(before, symbol, (seen.to_multiset().count(symbol) + 1) as u64);
            assert forall|s: T| seen.push(symbol).contains(s) <==> seen.contains(s) || s
                == symbol by {
                if seen.contains(s) {
                    let k = choose|k: int| 0 <= k < seen.len() && seen[k] == s;
                    assert(seen.push(symbol)[k] == s);
                }
                if s == symbol {
                    assert(seen.push(symbol)[seen.len() as int] == s);
                }
            }
        }
        let count: u64 = match occurrences.get(&symbol) {
            Some(count) => *count + 1,
            None => 1,
        };
        occurrences.insert(symbol, count);
        i += 1;
    }
    assert(symbols@.take(i as int) == symbols@);
    Ok(occurrences)
}

/// Whether `entries` lists the distribution `dist`: each symbol of `dist`
/// once, with its weight, and nothing else.
pub open spec fn lists_entries<T>(entries: Seq<(T, u64)>, dist: Map<T, u64>) -> bool {
    &&& forall|i: int, j: int|
        0 <= i < j < entries.len() ==> (#[trigger] entries[i]).0 != (#[trigger] entries[j]).0
    &&& forall|i: int|
        0 <= i < entries.len() ==> dist.contains_key((#[trigger] entries[i]).0)
            && dist[entries[i].0] == entries[i].1
    &&& forall|s: T| #[trigger]
        dist.contains_key(s) ==> exists|i: int|
            0 <= i < entries.len() && (#[trigger] entries[i]).0 == s
}

/// The sum of the weights of a distribution given as (symbol, weight) pairs.
pub open spec fn total_weight<T>(dist: Seq<(T, u64)>) -> nat
    decreases dist.len(),
{
    if dist.len() == 0 {
        0
    } else {
        total_weight(dist.drop_last()) + dist.last().1 as nat
    }
}

/// A list of a distribution has the distribution's total weight.
pub proof fn lemma_listing_total<T>(entries: Seq<(T, u64)>, dist: Map<T, u64>)
    requires
        dist.dom().finite(),
        lists_entries(entries, dist),
    ensures
        total_weight(entries) == distribution_total(dist),
    decreases entries.len(),
{
    if entries.len() == 0 {
        assert forall|s: T| !dist.contains_key(s) by {}
        assert(dist.dom() =~= Set::<T>::empty());
    } else {
        let last = entries.last();
        let shorter = entries.drop_last();
        let smaller = dist.remove(last.0);
        assert forall|s: T| #[trigger] smaller.contains_key(s) implies exists|i: int|
            0 <= i < shorter.len() && (#[trigger] shorter[i]).0 == s by {
            let i = choose|i: int| 0 <= i < entries.len() && (#[trigger] entries[i]).0 == s;
            assert(shorter[i] == entries[i]);
        }
        assert forall|i: int| 0 <= i < shorter.len() implies smaller.contains_key(
            (#[trigger] shorter[i]).0,
        ) && smaller[shorter[i].0] == shorter[i].1 by {
            assert(shorter[i] == entries[i]);
        }
        assert(lists_entries(shorter, smaller)) by {
            assert forall|i: int, j: int| 0 <= i < j < shorter.len() implies (
            #[trigger] shorter[i]).0 != (#[trigger] shorter[j]).0 by {
                assert(shorter[i] == entries[i] && shorter[j] == entries[j]);
            }
        }
        lemma_listing_total(shorter, smaller);
        lemma_total_remove(dist, last.0);
    }
}

/// Lists a distribution as (symbol, weight) pairs, in no particular order.
pub fn distribution_entries<T>(dist: &SymbolDistribution<T>) -> (entries: Vec<(T, u64)>) where
    T: Eq + Copy + Hash,

    requires
        obeys_key_model::<T>(),
    ensures
        lists_entries(entries@, dist@),
        entries.len() == dist@.len(),
        total_weight(entries@) == distribution_total(dist@),
{
    broadcast use vstd::std_specs::hash::group_hash_axioms;

    let mut entries: Vec<(T, u64)> = Vec::new();
    let ghost seq = vstd::std_specs::hash::spec_hash_map_iter(dist).remaining();
    for pair in it: dist.iter()
        invariant
            it.seq() == seq,
            seq.no_duplicates(),
            entries.len() == it.index(),
            forall|j: int|
                0 <= j < entries.len() ==> (#[trigger] entries[j]) == (*seq[j].0, *seq[j].1),
    {
        let (symbol, weight) = pair;
        entries.push((*symbol, *weight));
    }
    proof {
        assert forall|i: int, j: int| 0 <= i < j < entries.len() implies (
        #[trigger] entries[i]).0 != (#[trigger] entries[j]).0 by {
            assert(dist@[*seq[i].0] == *seq[i].1);
        }
        assert forall|s: T| #[trigger] dist@.contains_key(s) implies exists|i: int|
            0 <= i < entries.len() && (#[trigger] entries[i]).0 == s by {
            let i = choose|i: int| 0 <= i < seq.len() && seq[i] == (&s, &dist@[s]);
            assert(entries[i].0 == s);
        }
        assert forall|i: int| 0 <= i < entries.len() implies dist@.contains_key(
            (#[trigger] entries[i]).0,
        ) && dist@[entries[i].0] == entries[i].1 by {
            assert(dist@[*seq[i].0] == *seq[i].1);
        }
        lemma_listing_total(entries@, dist@);
    }
    entries
}

/// A list of a distribution holds each of its entries once.
pub proof fn lemma_listing_bag<T>(entries: Seq<(T, u64)>, dist: Map<T, u64>)
    requires
        lists_entries(entries, dist),
    ensures
        forall|s: T, w: u64| #[trigger]
            entries.to_multiset().count((s, w)) == if dist.contains_key(s) && dist[s] == w {
                1nat
            } else {
                0nat
            },
{
    entries.lemma_multiset_has_no_duplicates();
    entries.to_multiset_ensures();
    assert forall|s: T, w: u64| #[trigger]
        entries.to_multiset().count((s, w)) == if dist.contains_key(s) && dist[s] == w {
            1nat
        } else {
            0nat
        } by {
        if dist.contains_key(s) && dist[s] == w {
            let i = choose|i: int| 0 <= i < entries.len() && (#[trigger] entries[i]).0 == s;
            assert(entries[i] == (s, w));
        } else if entries.contains((s, w)) {
            let i = choose|i: int| 0 <= i < entries.len() && entries[i] == (s, w);
            assert(dist.contains_key(entries[i].0));
        }
    }
}

} // verus!
