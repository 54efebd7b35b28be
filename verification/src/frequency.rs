use std::collections::HashMap;
use vstd::prelude::*;

verus! {

broadcast use vstd::std_specs::hash::group_hash_axioms;

/// How often the byte `b` occurs in `s`.
pub open spec fn occurrences(s: Seq<u8>, b: u8) -> nat
    decreases s.len(),
{
    if s.len() == 0 {
        0
    } else {
        occurrences(s.drop_last(), b) + if s.last() == b {
            1nat
        } else {
            0nat
        }
    }
}

/// The frequency table of `s`: the distinct bytes of `s`, each with the
/// number of times it occurs.
pub open spec fn frequency_table(s: Seq<u8>) -> Map<u8, usize> {
    Map::new(|b: u8| occurrences(s, b) > 0, |b: u8| occurrences(s, b) as usize)
}

/// The count that `table` records for the byte `b`: zero where it has no entry.
pub open spec fn count_of(table: Map<u8, usize>, b: u8) -> nat {
    if table.contains_key(b) {
        table[b] as nat
    } else {
        0
    }
}

/// The sum of the counts that `table` records for the byte values below `n`.
pub open spec fn total_below(table: Map<u8, usize>, n: int) -> nat
    decreases n,
{
    if n <= 0 {
        0
    } else {
        total_below(table, n - 1) + count_of(table, (n - 1) as u8)
    }
}

/// The sum of all counts in `table`.
pub open spec fn table_total(table: Map<u8, usize>) -> nat {
    total_below(table, 256)
}

/// The sum over more byte values is no smaller.
pub proof fn lemma_total_below_grows(table: Map<u8, usize>, n: int, m: int)
    requires
        n <= m,
    ensures
        total_below(table, n) <= total_below(table, m),
    decreases m - n,
{
    if n < m {
        lemma_total_below_grows(table, n, m - 1);
    }
}

/// No byte occurs more often than the sequence is long.
pub proof fn lemma_occurrences_bounded(s: Seq<u8>, b: u8)
    ensures
        occurrences(s, b) <= s.len(),
    decreases s.len(),
{
    if s.len() > 0 {
        lemma_occurrences_bounded(s.drop_last(), b);
    }
}

/// A byte occurs in `s` exactly when its number of occurrences is positive.
pub proof fn lemma_occurrences_positive(s: Seq<u8>, b: u8)
    ensures
        occurrences(s, b) > 0 <==> s.contains(b),
    decreases s.len(),
{
    if s.len() > 0 {
        lemma_occurrences_positive(s.drop_last(), b);
        if s.last() == b {
            assert(s[s.len() - 1] == b);
        } else if s.contains(b) {
            let i = choose|i: int| 0 <= i < s.len() && s[i] == b;
            assert(s.drop_last()[i] == b);
        } else if s.drop_last().contains(b) {
            let i = choose|i: int| 0 <= i < s.drop_last().len() && s.drop_last()[i] == b;
            assert(s[i] == b);
        }
    }
}

/// The number of elements of `s` whose value is below `n`.
spec fn elements_below(s: Seq<u8>, n: int) -> nat
    decreases s.len(),
{
    if s.len() == 0 {
        0
    } else {
        elements_below(s.drop_last(), n) + if s.last() < n {
            1nat
        } else {
            0nat
        }
    }
}

proof fn lemma_elements_below_step(s: Seq<u8>, n: int)
    requires
        0 < n <= 256,
    ensures
        elements_below(s, n) == elements_below(s, n - 1) + occurrences(s, (n - 1) as u8),
    decreases s.len(),
{
    if s.len() > 0 {
        lemma_elements_below_step(s.drop_last(), n);
    }
}

proof fn lemma_elements_below_none(s: Seq<u8>)
    ensures
        elements_below(s, 0) == 0,
    decreases s.len(),
{
    if s.len() > 0 {
        lemma_elements_below_none(s.drop_last());
    }
}

proof fn lemma_elements_below_all(s: Seq<u8>)
    ensures
        elements_below(s, 256) == s.len(),
    decreases s.len(),
{
    if s.len() > 0 {
        lemma_elements_below_all(s.drop_last());
    }
}

proof fn lemma_total_below_counts(s: Seq<u8>, n: int)
    requires
        0 <= n <= 256,
        s.len() <= usize::MAX,
    ensures
        total_below(frequency_table(s), n) == elements_below(s, n),
    decreases n,
{
    if n == 0 {
        lemma_elements_below_none(s);
    } else {
        lemma_total_below_counts(s, n - 1);
        lemma_elements_below_step(s, n);
        lemma_occurrences_bounded(s, (n - 1) as u8);
    }
}

/// The counts of a frequency table add up to the length of the input.
pub proof fn lemma_frequency_table_total(s: Seq<u8>)
    requires
        s.len() <= usize::MAX,
    ensures
        table_total(frequency_table(s)) == s.len(),
{
    lemma_total_below_counts(s, 256);
    lemma_elements_below_all(s);
}

/// Adds up the counts of a frequency table, unless the sum does not fit the
/// machine's word.
pub fn total_count(freq_map: &HashMap<u8, usize>) -> (total: Option<usize>)
    ensures
        match total {
            Some(sum) => sum == table_total(freq_map@),
            None => table_total(freq_map@) > usize::MAX,
        },
{
    let mut sum: usize = 0;
    let mut b: u16 = 0;
    while b < 256
        invariant
            b <= 256,
            sum == total_below(freq_map@, b as int),
        decreases 256 - b,
    {
        let byte = b as u8;
        match freq_map.get(&byte) {
            Some(count) => {
                if *count > usize::MAX - sum {
                    proof {
                        lemma_total_below_grows(freq_map@, b + 1, 256);
                    }
                    return None;
                }
                sum = sum + *count;
            },
            None => {},
        }
        b += 1;
    }
    Some(sum)
}

/// Counts the occurrences of each byte value in `buffer`.
///
/// The keys of the result are exactly the distinct bytes of `buffer`, and
/// the counts add up to its length. An empty buffer gives an empty table.
pub fn count_frequencies(buffer: &[u8]) -> (freq_map: HashMap<u8, usize>)
    ensures
        freq_map@ == frequency_table(buffer@),
        forall|b: u8| freq_map@.contains_key(b) <==> buffer@.contains(b),
        table_total(freq_map@) == buffer@.len(),
        table_total(freq_map@) <= usize::MAX,
{
    let mut freq_map: HashMap<u8, usize> = HashMap::new();
    let mut i: usize = 0;
    while i < buffer.len()
        invariant
            i <= buffer.len(),
            freq_map@ =~= frequency_table(buffer@.take(i as int)),
        decreases buffer.len() - i,
    {
        let byte = buffer[i];
        proof {
            assert(buffer@.take(i + 1).drop_last() =~= buffer@.take(i as int));
            lemma_occurrences_bounded(buffer@.take(i + 1), byte);
        }
        let count: usize = match freq_map.get(&byte) {
            Some(c) => *c,
            None => 0,
        };
        freq_map.insert(byte, count + 1);
        i += 1;
    }
    proof {
        assert(buffer@.take(i as int) =~= buffer@);
        assert forall|b: u8| freq_map@.contains_key(b) <==> buffer@.contains(b) by {
            lemma_occurrences_positive(buffer@, b);
        }
        lemma_frequency_table_total(buffer@);
    }
    freq_map
}

} // verus!
