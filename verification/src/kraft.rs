use crate::codes::is_prefix;
use vstd::prelude::*;

verus! {

/// The sum of the numbers in `s`.
pub open spec fn sum(s: Seq<nat>) -> nat
    decreases s.len(),
{
    if s.len() == 0 {
        0
    } else {
        sum(s.drop_last()) + s.last()
    }
}

/// Two to the power `n`.
pub open spec fn two_to(n: nat) -> nat
    decreases n,
{
    if n == 0 {
        1
    } else {
        2 * two_to((n - 1) as nat)
    }
}

/// The products of the numbers of `ws` and `ds` at the same index.
pub open spec fn products(ws: Seq<nat>, ds: Seq<nat>) -> Seq<nat> {
    Seq::new(ws.len(), |i: int| ws[i] * ds[i])
}

/// The weighted length of a code whose code words have the lengths `ds` and
/// are used `ws` times.
pub open spec fn dot(ws: Seq<nat>, ds: Seq<nat>) -> nat {
    sum(products(ws, ds))
}

/// For each length `d` of `ds`, the number of bit strings of length `h` that
/// begin with a given one of length `d`.
pub open spec fn powers(ds: Seq<nat>, h: nat) -> Seq<nat> {
    Seq::new(ds.len(), |i: int| two_to((h - ds[i]) as nat))
}

/// Whether no length in `ds` is above `h`.
pub open spec fn bounded(ds: Seq<nat>, h: nat) -> bool {
    forall|i: int| 0 <= i < ds.len() ==> #[trigger] ds[i] <= h
}

/// Kraft's inequality for the code word lengths `ds`, none above `h`: the
/// bit strings of length `h` that begin with code words of these lengths are
/// no more than there are bit strings of length `h`.
pub open spec fn fits(ds: Seq<nat>, h: nat) -> bool {
    bounded(ds, h) && sum(powers(ds, h)) <= two_to(h)
}

/// Whether no code word of `cs` is a prefix of one at another index.
pub open spec fn pairwise_prefix_free(cs: Seq<Seq<bool>>) -> bool {
    forall|i: int, j: int|
        0 <= i < cs.len() && 0 <= j < cs.len() && i != j ==> !is_prefix(
            #[trigger] cs[i],
            #[trigger] cs[j],
        )
}

/// The lengths of the code words of `cs`.
pub open spec fn lengths(cs: Seq<Seq<bool>>) -> Seq<nat> {
    Seq::new(cs.len(), |i: int| cs[i].len())
}

pub proof fn lemma_two_to_positive(n: nat)
    ensures
        two_to(n) > 0,
        n > 0 ==> two_to(n) % 2 == 0,
    decreases n,
{
    if n > 0 {
        lemma_two_to_positive((n - 1) as nat);
    }
}

pub proof fn lemma_sum_update(s: Seq<nat>, i: int, v: nat)
    requires
        0 <= i < s.len(),
    ensures
        sum(s.update(i, v)) + s[i] == sum(s) + v,
    decreases s.len(),
{
    if i == s.len() - 1 {
        assert(s.update(i, v).drop_last() =~= s.drop_last());
    } else {
        assert(s.update(i, v).drop_last() =~= s.drop_last().update(i, v));
        lemma_sum_update(s.drop_last(), i, v);
    }
}

pub proof fn lemma_sum_remove(s: Seq<nat>, i: int)
    requires
        0 <= i < s.len(),
    ensures
        sum(s.remove(i)) + s[i] == sum(s),
    decreases s.len(),
{
    if i == s.len() - 1 {
        assert(s.remove(i) =~= s.drop_last());
    } else {
        assert(s.remove(i).drop_last() =~= s.drop_last().remove(i));
        assert(s.remove(i).last() == s.last());
        lemma_sum_remove(s.drop_last(), i);
    }
}

pub proof fn lemma_sum_push(s: Seq<nat>, v: nat)
    ensures
        sum(s.push(v)) == sum(s) + v,
{
    assert(s.push(v).drop_last() =~= s);
}

/// The sum of even numbers is even.
pub proof fn lemma_sum_even(s: Seq<nat>)
    requires
        forall|i: int| 0 <= i < s.len() ==> #[trigger] s[i] % 2 == 0,
    ensures
        sum(s) % 2 == 0,
    decreases s.len(),
{
    if s.len() > 0 {
        assert forall|i: int| 0 <= i < s.drop_last().len() implies #[trigger] s.drop_last()[i] % 2
            == 0 by {
            assert(s.drop_last()[i] == s[i]);
        }
        lemma_sum_even(s.drop_last());
        assert(s[s.len() - 1] % 2 == 0);
    }
}

/// The sum of zeros is zero.
pub proof fn lemma_sum_zero(s: Seq<nat>)
    requires
        forall|i: int| 0 <= i < s.len() ==> #[trigger] s[i] == 0,
    ensures
        sum(s) == 0,
    decreases s.len(),
{
    if s.len() > 0 {
        assert forall|i: int| 0 <= i < s.drop_last().len() implies #[trigger] s.drop_last()[i]
            == 0 by {
            assert(s.drop_last()[i] == s[i]);
        }
        lemma_sum_zero(s.drop_last());
        assert(s[s.len() - 1] == 0);
    }
}

/// The sum of a sequence that is a sum of two, index by index, is the sum of
/// their sums.
pub proof fn lemma_sum_split(s: Seq<nat>, a: Seq<nat>, b: Seq<nat>)
    requires
        s.len() == a.len(),
        s.len() == b.len(),
        forall|i: int| 0 <= i < s.len() ==> #[trigger] s[i] == a[i] + b[i],
    ensures
        sum(s) == sum(a) + sum(b),
    decreases s.len(),
{
    if s.len() > 0 {
        assert forall|i: int| 0 <= i < s.drop_last().len() implies #[trigger] s.drop_last()[i]
            == a.drop_last()[i] + b.drop_last()[i] by {
            assert(s.drop_last()[i] == s[i]);
        }
        lemma_sum_split(s.drop_last(), a.drop_last(), b.drop_last());
        assert(s[s.len() - 1] == a[s.len() - 1] + b[s.len() - 1]);
    }
}

/// For each code word of `cs` that begins with `p`, the number of bit
/// strings of length `h` that begin with the code word, and zero for the
/// others.
pub open spec fn selected(cs: Seq<Seq<bool>>, p: Seq<bool>, h: nat) -> Seq<nat> {
    Seq::new(
        cs.len(),
        |i: int|
            if is_prefix(p, cs[i]) {
                two_to((h - cs[i].len()) as nat)
            } else {
                0
            },
    )
}

/// Among the bit strings of length `h` that begin with `p`, those that begin
/// with a code word of a prefix-free code are counted once each, so they are
/// no more than all of them.
pub proof fn lemma_kraft_below(cs: Seq<Seq<bool>>, p: Seq<bool>, h: nat)
    requires
        pairwise_prefix_free(cs),
        bounded(lengths(cs), h),
        p.len() <= h,
    ensures
        sum(selected(cs, p, h)) <= two_to((h - p.len()) as nat),
    decreases h - p.len(),
{
    let chosen = selected(cs, p, h);
    assert forall|i: int| 0 <= i < cs.len() implies cs[i].len() <= h by {
        assert(lengths(cs)[i] <= h);
    }
    if exists|i: int| 0 <= i < cs.len() && cs[i] =~= p {
        let i = choose|i: int| 0 <= i < cs.len() && cs[i] =~= p;
        let others = chosen.update(i, 0);
        assert forall|j: int| 0 <= j < others.len() implies #[trigger] others[j] == 0 by {
            if j != i && is_prefix(p, cs[j]) {
                assert(is_prefix(cs[i], cs[j]));
            }
        }
        lemma_sum_zero(others);
        lemma_sum_update(chosen, i, 0);
    } else {
        let zero = p.push(false);
        let one = p.push(true);
        if p.len() == h {
            assert forall|j: int| 0 <= j < chosen.len() implies #[trigger] chosen[j] == 0 by {
                if is_prefix(p, cs[j]) {
                    assert(cs[j] =~= p);
                }
            }
            lemma_sum_zero(chosen);
            lemma_two_to_positive(0);
        } else {
            lemma_kraft_below(cs, zero, h);
            lemma_kraft_below(cs, one, h);
            let with_zero = selected(cs, zero, h);
            let with_one = selected(cs, one, h);
            assert forall|j: int| 0 <= j < chosen.len() implies #[trigger] chosen[j]
                == with_zero[j] + with_one[j] by {
                let c = cs[j];
                if is_prefix(p, c) {
                    if c.len() == p.len() {
                        assert(c =~= p);
                    }
                    let bit = c[p.len() as int];
                    let longer = p.push(bit);
                    assert(is_prefix(longer, c)) by {
                        assert forall|k: int| 0 <= k < longer.len() implies longer[k] == c[k] by {
                            if k < p.len() {
                                assert(longer[k] == p[k]);
                            }
                        }
                    }
                    let other = p.push(!bit);
                    assert(!is_prefix(other, c)) by {
                        assert(other[p.len() as int] != c[p.len() as int]);
                    }
                } else {
                    if is_prefix(zero, c) {
                        assert forall|k: int| 0 <= k < p.len() implies p[k] == c[k] by {
                            assert(zero[k] == p[k]);
                        }
                    }
                    if is_prefix(one, c) {
                        assert forall|k: int| 0 <= k < p.len() implies p[k] == c[k] by {
                            assert(one[k] == p[k]);
                        }
                    }
                }
            }
            lemma_sum_split(chosen, with_zero, with_one);
        }
    }
}

/// Kraft's inequality: the code word lengths of a prefix-free code fit.
pub proof fn lemma_kraft(cs: Seq<Seq<bool>>, h: nat)
    requires
        pairwise_prefix_free(cs),
        bounded(lengths(cs), h),
    ensures
        fits(lengths(cs), h),
{
    lemma_kraft_below(cs, Seq::empty(), h);
    assert(selected(cs, Seq::empty(), h) =~= powers(lengths(cs), h));
}

} // verus!
