//! Counting the votes per option and laying out one bar per option.
use crate::numbers::{
    lemma_common_divisor_divides_gcd,
    decimal_len, decimal_width, divides, gcd, lemma_divides_mod, lemma_divides_trans, lemma_gcd_divides,
    lemma_gcd_positive, spec_gcd,
};
use vstd::prelude::*;

verus! {

/// Why a set of votes cannot be tallied.
#[derive(Clone, Copy, Debug, PartialEq, Eq, Structural)]
pub enum TallyError {
    /// A vote names an option that does not exist; it carries the first such vote.
    VoteOutOfBounds(usize),
}

/// How many of `votes` are for `option`.
pub open spec fn count_of(votes: Seq<usize>, option: int) -> nat
    decreases votes.len(),
{
    if votes.len() == 0 {
        0
    } else {
        count_of(votes.drop_last(), option) + if votes.last() == option {
            1nat
        } else {
            0nat
        }
    }
}

/// The first of `votes` that names no option below `n`, if there is one.
pub open spec fn first_out_of_bounds(votes: Seq<usize>, n: nat) -> Option<usize>
    decreases votes.len(),
{
    if votes.len() == 0 {
        None
    } else {
        match first_out_of_bounds(votes.drop_last(), n) {
            Some(v) => Some(v),
            None => if votes.last() >= n {
                Some(votes.last())
            } else {
                None
            },
        }
    }
}

/// The number of votes for each of the options `0..n`.
pub open spec fn vote_counts(votes: Seq<usize>, n: nat) -> Seq<nat> {
    Seq::new(n, |i: int| count_of(votes, i))
}

/// The sum of the first `n` counts.
pub open spec fn sum_of(counts: Seq<nat>, n: nat) -> nat
    decreases n,
{
    if n == 0 {
        0
    } else {
        sum_of(counts, (n - 1) as nat) + counts[n - 1]
    }
}

proof fn lemma_count_of_le_len(votes: Seq<usize>, option: int)
    ensures
        count_of(votes, option) <= votes.len(),
    decreases votes.len(),
{
    if votes.len() > 0 {
        lemma_count_of_le_len(votes.drop_last(), option);
    }
}

proof fn lemma_count_of_step(votes: Seq<usize>, j: int, option: int)
    requires
        0 <= j < votes.len(),
    ensures
        count_of(votes.take(j + 1), option) == count_of(votes.take(j), option) + if votes[j]
            == option {
            1nat
        } else {
            0nat
        },
{
    assert(votes.take(j + 1).drop_last() =~= votes.take(j));
}

/// A vote that occurs among `votes` is counted at least once.
proof fn lemma_count_of_present(votes: Seq<usize>, j: int)
    requires
        0 <= j < votes.len(),
    ensures
        count_of(votes, votes[j] as int) >= 1,
    decreases votes.len(),
{
    if j < votes.len() - 1 {
        assert(votes.drop_last()[j] == votes[j]);
        lemma_count_of_present(votes.drop_last(), j);
    }
}

proof fn lemma_first_out_of_bounds_step(votes: Seq<usize>, j: int, n: nat)
    requires
        0 <= j < votes.len(),
    ensures
        first_out_of_bounds(votes.take(j + 1), n) == match first_out_of_bounds(
            votes.take(j),
            n,
        ) {
            Some(v) => Some(v),
            None => if votes[j] >= n {
                Some(votes[j])
            } else {
                None
            },
        },
{
    assert(votes.take(j + 1).drop_last() =~= votes.take(j));
}

/// Counts the votes for each option `0..num_options`; fails on the first vote
/// that names no option.
pub fn count_votes(num_options: usize, results: &Vec<usize>) -> (r: Result<Vec<usize>, TallyError>)
    ensures
        match r {
            Ok(counts) => {
                &&& first_out_of_bounds(results@, num_options as nat) is None
                &&& counts@.len() == num_options
                &&& forall|i: int|
                    0 <= i < num_options ==> counts@[i] as nat == count_of(results@, i)
            },
            Err(TallyError::VoteOutOfBounds(v)) => first_out_of_bounds(
                results@,
                num_options as nat,
            ) == Some(v),
        },
{
    let mut counts: Vec<usize> = Vec::new();
    let mut k: usize = 0;
    while k < num_options
        invariant
            k <= num_options,
            counts@.len() == k,
            forall|i: int| 0 <= i < k ==> counts@[i] == 0,
        decreases num_options - k,
    {
        counts.push(0);
        k = k + 1;
    }
    assert(results@.take(0) =~= Seq::<usize>::empty());
    let len = results.len();
    let mut j: usize = 0;
    while j < len
        invariant
            j <= len,
            len == results@.len(),
            counts@.len() == num_options,
            first_out_of_bounds(results@.take(j as int), num_options as nat) is None,
            forall|i: int|
                0 <= i < num_options ==> counts@[i] as nat == count_of(
                    results@.take(j as int),
                    i,
                ),
        decreases len - j,
    {
        let vote = results[j];
        proof {
            lemma_first_out_of_bounds_step(results@, j as int, num_options as nat);
        }
        if vote >= num_options {
            proof {
                lemma_first_out_of_bounds_prefix(results@, j as int + 1, num_options as nat);
            }
            return Err(TallyError::VoteOutOfBounds(vote));
        }
        proof {
            lemma_count_of_le_len(results@.take(j as int), vote as int);
            assert forall|i: int| 0 <= i < num_options implies count_of(
                results@.take(j + 1),
                i,
            ) == count_of(results@.take(j as int), i) + if i == vote {
                1nat
            } else {
                0nat
            } by {
                lemma_count_of_step(results@, j as int, i);
            }
        }
        let current = counts[vote];
        counts.set(vote, current + 1);
        j = j + 1;
    }
    assert(results@.take(len as int) =~= results@);
    Ok(counts)
}

/// Once a prefix of the votes holds a vote out of bounds, the whole of them
/// has that same first one.
proof fn lemma_first_out_of_bounds_prefix(votes: Seq<usize>, k: int, n: nat)
    requires
        0 <= k <= votes.len(),
        first_out_of_bounds(votes.take(k), n) is Some,
    ensures
        first_out_of_bounds(votes, n) == first_out_of_bounds(votes.take(k), n),
    decreases votes.len() - k,
{
    if k < votes.len() {
        lemma_first_out_of_bounds_step(votes, k, n);
        lemma_first_out_of_bounds_prefix(votes, k + 1, n);
    } else {
        assert(votes.take(k) =~= votes);
    }
}

/// Option `a` is listed before option `b`: it has more votes, or as many and
/// comes first among the options.
pub open spec fn ranks_before(counts: Seq<nat>, a: usize, b: usize) -> bool {
    counts[a as int] > counts[b as int] || (counts[a as int] == counts[b as int] && a < b)
}

/// `order` lists every option of `counts` once, most votes first, and options
/// with as many votes in their own order.
pub open spec fn is_ranking(counts: Seq<nat>, order: Seq<usize>) -> bool {
    &&& order.len() == counts.len()
    &&& forall|i: int| 0 <= i < order.len() ==> #[trigger] order[i] < counts.len()
    &&& forall|k: usize| k < counts.len() ==> #[trigger] order.contains(k)
    &&& forall|i: int, j: int|
        #![trigger order[i], order[j]]
        0 <= i < j < order.len() ==> ranks_before(counts, order[i], order[j])
}

/// The counts as mathematical numbers.
pub open spec fn as_nats(counts: Seq<usize>) -> Seq<nat> {
    Seq::new(counts.len(), |i: int| counts[i] as nat)
}

/// Orders the options by their counts, most votes first; options with as many
/// votes keep their order (a stable sort).
pub fn rank_by_count(counts: &Vec<usize>) -> (order: Vec<usize>)
    ensures
        is_ranking(as_nats(counts@), order@),
{
    let n = counts.len();
    let ghost cs = as_nats(counts@);
    let mut order: Vec<usize> = Vec::new();
    let mut i: usize = 0;
    while i < n
        invariant
            i <= n,
            n == counts@.len(),
            cs == as_nats(counts@),
            order@.len() == i,
            forall|q: int| 0 <= q < order@.len() ==> #[trigger] order@[q] < i,
            forall|k: usize| k < i ==> #[trigger] order@.contains(k),
            forall|a: int, b: int|
                #![trigger order@[a], order@[b]]
                0 <= a < b < order@.len() ==> ranks_before(cs, order@[a], order@[b]),
        decreases n - i,
    {
        let c = counts[i];
        let mut p: usize = 0;
        while p < order.len() && counts[order[p]] >= c
            invariant
                p <= order@.len(),
                i < n,
                n == counts@.len(),
                forall|q: int| 0 <= q < order@.len() ==> #[trigger] order@[q] < i,
                forall|q: int| 0 <= q < p ==> counts@[#[trigger] order@[q] as int] >= c,
            decreases order@.len() - p,
        {
            p = p + 1;
        }
        proof {
            assert forall|q: int| p <= q < order@.len() implies counts@[#[trigger] order@[q] as int]
                < c by {
                assert(counts@[order@[p as int] as int] < c);
                if q > p {
                    assert(ranks_before(cs, order@[p as int], order@[q]));
                }
            }
        }
        let ghost old_order = order@;
        order.insert(p, i);
        proof {
            let new_order = order@;
            assert forall|q: int| 0 <= q < new_order.len() implies #[trigger] new_order[q] < i
                + 1 by {
                if q < p {
                    assert(new_order[q] == old_order[q]);
                } else if q > p {
                    assert(new_order[q] == old_order[q - 1]);
                }
            }
            assert forall|k: usize| k < i + 1 implies #[trigger] new_order.contains(k) by {
                if k == i {
                    assert(new_order[p as int] == i);
                } else {
                    assert(old_order.contains(k));
                    let q = choose|q: int| 0 <= q < old_order.len() && old_order[q] == k;
                    if q < p {
                        assert(new_order[q] == k);
                    } else {
                        assert(new_order[q + 1] == k);
                    }
                }
            }
            assert forall|a: int, b: int|
                #![trigger new_order[a], new_order[b]]
                0 <= a < b < new_order.len() implies ranks_before(cs, new_order[a], new_order[b]) by {
                if b < p {
                    assert(new_order[a] == old_order[a] && new_order[b] == old_order[b]);
                } else if b == p {
                    assert(new_order[a] == old_order[a]);
                    assert(old_order[a] < i);
                    assert(counts@[old_order[a] as int] >= c);
                } else if a == p {
                    assert(new_order[b] == old_order[b - 1]);
                    assert(counts@[old_order[b - 1] as int] < c);
                } else if a < p {
                    assert(new_order[a] == old_order[a] && new_order[b] == old_order[b - 1]);
                } else {
                    assert(new_order[a] == old_order[a - 1] && new_order[b] == old_order[b - 1]);
                }
            }
        }
        i = i + 1;
    }
    order
}

/// The greatest common divisor folded over `counts`, starting from `acc`:
/// `gcd(... gcd(gcd(acc, c0), c1) ..., ck)`.
pub open spec fn gcd_fold(acc: nat, counts: Seq<nat>) -> nat
    decreases counts.len(),
{
    if counts.len() == 0 {
        acc
    } else {
        spec_gcd(gcd_fold(acc, counts.drop_last()), counts.last())
    }
}

/// The number of votes that one mark of a bar stands for: the greatest common
/// divisor of the counts, folded from the first of them.
pub open spec fn bar_unit(counts: Seq<nat>) -> nat {
    gcd_fold(counts[0], counts)
}

/// The folded divisor divides its start and every count.
pub proof fn lemma_gcd_fold_divides(acc: nat, counts: Seq<nat>)
    ensures
        divides(gcd_fold(acc, counts), acc),
        forall|k: int| 0 <= k < counts.len() ==> divides(gcd_fold(acc, counts), #[trigger] counts[k]),
    decreases counts.len(),
{
    if counts.len() > 0 {
        let rest = counts.drop_last();
        lemma_gcd_fold_divides(acc, rest);
        let g0 = gcd_fold(acc, rest);
        let g = spec_gcd(g0, counts.last());
        lemma_gcd_divides(g0, counts.last());
        lemma_divides_trans(g, g0, acc);
        assert forall|k: int| 0 <= k < counts.len() implies divides(g, #[trigger] counts[k]) by {
            if k < counts.len() - 1 {
                assert(rest[k] == counts[k]);
                lemma_divides_trans(g, g0, counts[k]);
            }
        }
    } else {
        assert(acc == acc * 1);
    }
}

/// Every common divisor of the start and the counts divides the folded divisor.
pub proof fn lemma_gcd_fold_greatest(acc: nat, counts: Seq<nat>, d: nat)
    requires
        divides(d, acc),
        forall|k: int| 0 <= k < counts.len() ==> divides(d, #[trigger] counts[k]),
    ensures
        divides(d, gcd_fold(acc, counts)),
    decreases counts.len(),
{
    if counts.len() > 0 {
        let rest = counts.drop_last();
        assert forall|k: int| 0 <= k < rest.len() implies divides(d, #[trigger] rest[k]) by {
            assert(rest[k] == counts[k]);
        }
        lemma_gcd_fold_greatest(acc, rest, d);
        assert(divides(d, counts[counts.len() - 1]));
        lemma_common_divisor_divides_gcd(d, gcd_fold(acc, rest), counts.last());
    }
}

/// The unit of the bars is the greatest common divisor of the counts: it
/// divides every count, and every number that divides every count divides it.
pub proof fn lemma_bar_unit_is_gcd(counts: Seq<nat>, d: nat)
    requires
        counts.len() > 0,
        forall|k: int| 0 <= k < counts.len() ==> divides(d, #[trigger] counts[k]),
    ensures
        divides(d, bar_unit(counts)),
        forall|k: int| 0 <= k < counts.len() ==> divides(bar_unit(counts), #[trigger] counts[k]),
{
    assert(divides(d, counts[0]));
    lemma_gcd_fold_greatest(counts[0], counts, d);
    lemma_gcd_fold_divides(counts[0], counts);
}

/// The folded divisor is positive as soon as one count is.
pub proof fn lemma_gcd_fold_positive(acc: nat, counts: Seq<nat>, k: int)
    requires
        0 <= k < counts.len(),
        counts[k] > 0,
    ensures
        gcd_fold(acc, counts) > 0,
    decreases counts.len(),
{
    let rest = counts.drop_last();
    if k < counts.len() - 1 {
        assert(rest[k] == counts[k]);
        lemma_gcd_fold_positive(acc, rest, k);
    }
    lemma_gcd_positive(gcd_fold(acc, rest), counts.last());
}

/// The divisor of the bars, as `tally_up` folds it over the counts in their order.
pub fn bar_divisor(counts: &Vec<usize>) -> (d: usize)
    requires
        counts@.len() > 0,
    ensures
        d as nat == bar_unit(as_nats(counts@)),
{
    let ghost cs = as_nats(counts@);
    let n = counts.len();
    let mut d: usize = counts[0];
    let mut k: usize = 0;
    assert(cs.take(0) =~= Seq::<nat>::empty());
    while k < n
        invariant
            k <= n,
            n == counts@.len(),
            cs == as_nats(counts@),
            d as nat == gcd_fold(cs[0], cs.take(k as int)),
        decreases n - k,
    {
        assert(cs.take(k + 1).drop_last() =~= cs.take(k as int));
        d = gcd(d, counts[k]);
        k = k + 1;
    }
    assert(cs.take(n as int) =~= cs);
    d
}

/// The length in bytes of a text in UTF-8, as `str::len` reports it.
pub open spec fn byte_len(text: Seq<char>) -> nat {
    (vstd::utf8::encode_utf8(text).len() as usize) as nat
}

/// The widest label in bytes, as `str::len` measures it; 0 when there is none.
pub open spec fn label_width(options: Seq<String>) -> nat
    decreases options.len(),
{
    if options.len() == 0 {
        0
    } else {
        let rest = label_width(options.drop_last());
        let own = byte_len(options.last()@);
        if rest >= own {
            rest
        } else {
            own
        }
    }
}

/// The widest count in decimal digits; 0 when there is none.
pub open spec fn count_width(counts: Seq<nat>) -> nat
    decreases counts.len(),
{
    if counts.len() == 0 {
        0
    } else {
        let rest = count_width(counts.drop_last());
        let own = decimal_len(counts.last());
        if rest >= own {
            rest
        } else {
            own
        }
    }
}

/// The label width is the byte length of the widest label: no label is wider,
/// and some label is exactly that wide when there is one.
pub proof fn lemma_label_width_is_max(options: Seq<String>)
    ensures
        forall|i: int| 0 <= i < options.len() ==> byte_len(#[trigger] options[i]@) <= label_width(options),
        options.len() > 0 ==> exists|i: int|
            0 <= i < options.len() && byte_len(#[trigger] options[i]@) == label_width(options),
        options.len() == 0 ==> label_width(options) == 0,
    decreases options.len(),
{
    if options.len() > 0 {
        let rest = options.drop_last();
        lemma_label_width_is_max(rest);
        assert forall|i: int| 0 <= i < options.len() implies byte_len(#[trigger] options[i]@)
            <= label_width(options) by {
            if i < options.len() - 1 {
                assert(rest[i] == options[i]);
            }
        }
        let last = options.len() - 1;
        if byte_len(options[last]@) >= label_width(rest) {
            assert(byte_len(options[last]@) == label_width(options));
        } else {
            let j = choose|j: int| 0 <= j < rest.len() && byte_len(#[trigger] rest[j]@) == label_width(rest);
            assert(rest[j] == options[j]);
            assert(byte_len(options[j]@) == label_width(options));
        }
    }
}

/// The count width is the number of digits of the widest count: no count has
/// more digits, and some count has exactly that many when there is one.
pub proof fn lemma_count_width_is_max(counts: Seq<nat>)
    ensures
        forall|i: int| 0 <= i < counts.len() ==> decimal_len(#[trigger] counts[i]) <= count_width(counts),
        counts.len() > 0 ==> exists|i: int|
            0 <= i < counts.len() && decimal_len(#[trigger] counts[i]) == count_width(counts),
        counts.len() == 0 ==> count_width(counts) == 0,
    decreases counts.len(),
{
    if counts.len() > 0 {
        let rest = counts.drop_last();
        lemma_count_width_is_max(rest);
        assert forall|i: int| 0 <= i < counts.len() implies decimal_len(#[trigger] counts[i])
            <= count_width(counts) by {
            if i < counts.len() - 1 {
                assert(rest[i] == counts[i]);
            }
        }
        let last = counts.len() - 1;
        if decimal_len(counts[last]) >= count_width(rest) {
            assert(decimal_len(counts[last]) == count_width(counts));
        } else {
            let j = choose|j: int| 0 <= j < rest.len() && decimal_len(#[trigger] rest[j]) == count_width(rest);
            assert(rest[j] == counts[j]);
            assert(decimal_len(counts[j]) == count_width(counts));
        }
    }
}

fn widest_label(options: &Vec<String>) -> (w: usize)
    ensures
        w as nat == label_width(options@),
{
    let n = options.len();
    let mut w: usize = 0;
    let mut k: usize = 0;
    assert(options@.take(0) =~= Seq::<String>::empty());
    while k < n
        invariant
            k <= n,
            n == options@.len(),
            w as nat == label_width(options@.take(k as int)),
        decreases n - k,
    {
        assert(options@.take(k + 1).drop_last() =~= options@.take(k as int));
        let label = options[k].as_str();
        let own = label.len();
        assert(options@.take(k + 1).last() == options@[k as int]);
        assert(own as nat == byte_len(options@[k as int]@));
        if own > w {
            w = own;
        }
        k = k + 1;
    }
    assert(options@.take(n as int) =~= options@);
    w
}

fn widest_count(counts: &Vec<usize>) -> (w: usize)
    ensures
        w as nat == count_width(as_nats(counts@)),
{
    let ghost cs = as_nats(counts@);
    let n = counts.len();
    let mut w: usize = 0;
    let mut k: usize = 0;
    assert(cs.take(0) =~= Seq::<nat>::empty());
    while k < n
        invariant
            k <= n,
            n == counts@.len(),
            cs == as_nats(counts@),
            w as nat == count_width(cs.take(k as int)),
        decreases n - k,
    {
        assert(cs.take(k + 1).drop_last() =~= cs.take(k as int));
        let own = decimal_width(counts[k]);
        if own > w {
            w = own;
        }
        k = k + 1;
    }
    assert(cs.take(n as int) =~= cs);
    w
}

/// One line of the result: an option, its votes, and the length of its bar.
#[derive(Clone, Copy, Debug, PartialEq, Eq, Structural)]
pub struct TallyRow {
    pub option: usize,
    pub count: usize,
    pub bar: usize,
}

/// The result of a count: one row per option, most votes first, and the
/// widths that the label and count columns are padded to.
#[derive(Debug)]
pub struct Tally {
    pub rows: Vec<TallyRow>,
    pub label_width: usize,
    pub count_width: usize,
}

/// The options of the rows, in their order.
pub open spec fn row_options(rows: Seq<TallyRow>) -> Seq<usize> {
    Seq::new(rows.len(), |i: int| rows[i].option)
}

/// The counts of the rows, in their order.
pub open spec fn row_counts(rows: Seq<TallyRow>) -> Seq<nat> {
    Seq::new(rows.len(), |i: int| rows[i].count as nat)
}

proof fn lemma_in_bounds(votes: Seq<usize>, n: nat)
    requires
        first_out_of_bounds(votes, n) is None,
    ensures
        forall|j: int| 0 <= j < votes.len() ==> #[trigger] votes[j] < n,
    decreases votes.len(),
{
    if votes.len() > 0 {
        lemma_in_bounds(votes.drop_last(), n);
        assert forall|j: int| 0 <= j < votes.len() implies #[trigger] votes[j] < n by {
            if j < votes.len() - 1 {
                assert(votes.drop_last()[j] == votes[j]);
            }
        }
    }
}

/// `rows`, `labels_wide` and `counts_wide` are the tally of `results` against
/// `options`: the rows rank every option by its count, each bar has one mark
/// per `bar_unit` votes plus one, and the widths are those of the widest label
/// and count.
pub open spec fn is_tally_of(
    options: Seq<String>,
    results: Seq<usize>,
    rows: Seq<TallyRow>,
    labels_wide: nat,
    counts_wide: nat,
) -> bool {
    let unit = bar_unit(row_counts(rows));
    &&& first_out_of_bounds(results, options.len()) is None
    &&& is_ranking(vote_counts(results, options.len()), row_options(rows))
    &&& forall|i: int|
        0 <= i < rows.len() ==> #[trigger] rows[i].count as nat == count_of(
            results,
            rows[i].option as int,
        )
    &&& unit > 0
    &&& forall|i: int|
        0 <= i < rows.len() ==> #[trigger] rows[i].bar as nat == rows[i].count as nat / unit + 1
    &&& labels_wide == label_width(options)
    &&& counts_wide == count_width(row_counts(rows))
}

/// Counts `results`, the options chosen by the gathered votes, against the
/// options `options`, and lays out one bar per option.
///
/// The rows list every option once, most votes first, options with as many
/// votes in their own order. A bar has one mark for each `bar_unit` votes,
/// plus one, where `bar_unit` is the greatest common divisor of the counts.
/// A vote that names no option makes the whole count fail with that vote.
pub fn tally_up(options: &Vec<String>, results: &Vec<usize>) -> (r: Result<Tally, TallyError>)
    requires
        results@.len() > 0,
        results@.len() < usize::MAX,
    ensures
        match r {
            Ok(t) => {
                let rows = t.rows@;
                let unit = bar_unit(row_counts(rows));
                &&& is_tally_of(
                    options@,
                    results@,
                    rows,
                    t.label_width as nat,
                    t.count_width as nat,
                )
                // each bar stands for its count exactly
                &&& forall|i: int|
                    0 <= i < rows.len() ==> (#[trigger] rows[i].bar - 1) * unit == rows[i].count
                // a row's bar is never shorter than a later row's
                &&& forall|i: int, j: int|
                    0 <= i < j < rows.len() ==> #[trigger] rows[i].bar >= #[trigger] rows[j].bar
            },
            Err(TallyError::VoteOutOfBounds(v)) => first_out_of_bounds(results@, options@.len())
                == Some(v),
        },
{
    let n = options.len();
    let counts = match count_votes(n, results) {
        Ok(c) => c,
        Err(e) => {
            return Err(e);
        },
    };
    let ghost vc = vote_counts(results@, n as nat);
    assert(as_nats(counts@) =~= vc);
    assert forall|o: int| 0 <= o < n implies #[trigger] counts@[o] <= results@.len() by {
        lemma_count_of_le_len(results@, o);
    }
    let order = rank_by_count(&counts);
    let mut sorted: Vec<usize> = Vec::new();
    let mut k: usize = 0;
    while k < n
        invariant
            k <= n,
            n == counts@.len(),
            n == order@.len(),
            is_ranking(vc, order@),
            sorted@.len() == k,
            forall|q: int| 0 <= q < k ==> #[trigger] sorted@[q] == counts@[order@[q] as int],
            forall|o: int| 0 <= o < n ==> #[trigger] counts@[o] <= results@.len(),
        decreases n - k,
    {
        assert(order@[k as int] < n);
        sorted.push(counts[order[k]]);
        k = k + 1;
    }
    let ghost sc = as_nats(sorted@);
    proof {
        lemma_in_bounds(results@, n as nat);
        let first = results@[0];
        lemma_count_of_present(results@, 0);
        assert(order@.contains(first));
        let q = choose|q: int| 0 <= q < order@.len() && order@[q] == first;
        assert(sc[q] > 0);
        lemma_gcd_fold_positive(sc[0], sc, q);
        lemma_gcd_fold_divides(sc[0], sc);
    }
    let unit = bar_divisor(&sorted);
    assert forall|q: int| 0 <= q < n implies #[trigger] sorted@[q] < usize::MAX by {
        assert(order@[q] < n);
        assert(counts@[order@[q] as int] <= results@.len());
    }
    let mut rows: Vec<TallyRow> = Vec::new();
    let mut k: usize = 0;
    while k < n
        invariant
            k <= n,
            n == sorted@.len(),
            n == order@.len(),
            sc == as_nats(sorted@),
            unit as nat == bar_unit(sc),
            unit > 0,
            forall|q: int| 0 <= q < n ==> #[trigger] sorted@[q] < usize::MAX,
            rows@.len() == k,
            forall|q: int|
                #![trigger rows@[q]]
                0 <= q < k ==> {
                    &&& rows@[q].option == order@[q]
                    &&& rows@[q].count == sorted@[q]
                    &&& rows@[q].bar as int == (sorted@[q] / unit) as int + 1
                },
        decreases n - k,
    {
        let c = sorted[k];
        proof {
            vstd::arithmetic::div_mod::lemma_div_is_ordered(c as int, c as int, unit as int);
            assert(c as int / unit as int <= c as int / 1) by (nonlinear_arith)
                requires
                    unit >= 1,
                    c >= 0,
            ;
        }
        rows.push(TallyRow { option: order[k], count: c, bar: c / unit + 1 });
        k = k + 1;
    }
    let label_width = widest_label(options);
    let count_width = widest_count(&sorted);
    proof {
        assert(row_counts(rows@) =~= sc);
        assert(row_options(rows@) =~= order@);
        assert forall|i: int| 0 <= i < rows@.len() implies (#[trigger] rows@[i].bar - 1) * unit
            == rows@[i].count by {
            let c = sc[i];
            assert(divides(unit as nat, c));
            lemma_divides_mod(unit as nat, c);
            vstd::arithmetic::div_mod::lemma_fundamental_div_mod(c as int, unit as int);
            assert((c / (unit as nat)) * unit == c) by (nonlinear_arith)
                requires
                    c as int == unit * (c as int / unit as int) + c as int % unit as int,
                    c as int % unit as int == 0,
            ;
        }
        assert forall|i: int, j: int|
            0 <= i < j < rows@.len() implies #[trigger] rows@[i].bar >= #[trigger] rows@[j].bar by {
            assert(ranks_before(vc, order@[i], order@[j]));
            vstd::arithmetic::div_mod::lemma_div_is_ordered(
                sorted@[j] as int,
                sorted@[i] as int,
                unit as int,
            );
        }
    }
    Ok(Tally { rows, label_width, count_width })
}

/// When no vote is out of bounds, the counts of the options add up to the
/// number of votes: every vote is counted once.
pub proof fn lemma_counts_add_up(votes: Seq<usize>, n: nat)
    requires
        first_out_of_bounds(votes, n) is None,
    ensures
        sum_of(vote_counts(votes, n), n) == votes.len(),
    decreases votes.len(),
{
    if votes.len() > 0 {
        let rest = votes.drop_last();
        lemma_in_bounds(votes, n);
        assert(first_out_of_bounds(rest, n) is None);
        lemma_counts_add_up(rest, n);
        lemma_sum_split(votes, n, n);
        assert(votes[votes.len() - 1] < n);
        assert(sum_of(vote_counts(votes, n), n) == sum_of(vote_counts(rest, n), n) + 1);
        assert(sum_of(vote_counts(rest, n), n) == rest.len());
    } else {
        lemma_sum_of_no_votes(votes, n, n);
    }
}

proof fn lemma_sum_of_no_votes(votes: Seq<usize>, n: nat, m: nat)
    requires
        votes.len() == 0,
        m <= n,
    ensures
        sum_of(vote_counts(votes, n), m) == 0,
    decreases m,
{
    if m > 0 {
        lemma_sum_of_no_votes(votes, n, (m - 1) as nat);
    }
}

/// Splitting the last vote off: the first `m` counts of `votes` are those of the
/// earlier votes, plus one if the last vote is below `m`.
proof fn lemma_sum_split(votes: Seq<usize>, n: nat, m: nat)
    requires
        votes.len() > 0,
        m <= n,
    ensures
        sum_of(vote_counts(votes, n), m) == sum_of(vote_counts(votes.drop_last(), n), m) + if votes.last()
            < m {
            1nat
        } else {
            0nat
        },
    decreases m,
{
    if m > 0 {
        lemma_sum_split(votes, n, (m - 1) as nat);
    }
}

/// `order` lists the options of `options`, each at least once, in ranking order.
spec fn lists_in_rank_order(counts: Seq<nat>, order: Seq<usize>, options: Set<usize>) -> bool {
    &&& forall|i: int| 0 <= i < order.len() ==> options.contains(#[trigger] order[i])
    &&& forall|k: usize| options.contains(k) ==> #[trigger] order.contains(k)
    &&& forall|i: int, j: int|
        #![trigger order[i], order[j]]
        0 <= i < j < order.len() ==> ranks_before(counts, order[i], order[j])
}

proof fn lemma_listing_unique(counts: Seq<nat>, a: Seq<usize>, b: Seq<usize>, options: Set<usize>)
    requires
        lists_in_rank_order(counts, a, options),
        lists_in_rank_order(counts, b, options),
    ensures
        a == b,
    decreases a.len(),
{
    if a.len() == 0 {
        if b.len() > 0 {
            assert(options.contains(b[0]));
            assert(a.contains(b[0]));
        }
        assert(a =~= b);
    } else {
        let x = a[0];
        assert(options.contains(x));
        assert(b.contains(x));
        let y = b[0];
        if x != y {
            let q = choose|q: int| 0 <= q < b.len() && b[q] == x;
            assert(q != 0);
            assert(ranks_before(counts, b[0], b[q]));
            assert(options.contains(y));
            assert(a.contains(y));
            let p = choose|p: int| 0 <= p < a.len() && a[p] == y;
            assert(p != 0);
            assert(ranks_before(counts, a[0], a[p]));
        }
        let rest = options.remove(x);
        let a1 = a.drop_first();
        let b1 = b.drop_first();
        assert forall|i: int| 0 <= i < a1.len() implies rest.contains(#[trigger] a1[i]) by {
            assert(a1[i] == a[i + 1]);
            assert(ranks_before(counts, a[0], a[i + 1]));
        }
        assert forall|i: int| 0 <= i < b1.len() implies rest.contains(#[trigger] b1[i]) by {
            assert(b1[i] == b[i + 1]);
            assert(ranks_before(counts, b[0], b[i + 1]));
        }
        assert forall|k: usize| rest.contains(k) implies #[trigger] a1.contains(k) by {
            assert(a.contains(k));
            let p = choose|p: int| 0 <= p < a.len() && a[p] == k;
            assert(a1[p - 1] == k);
        }
        assert forall|k: usize| rest.contains(k) implies #[trigger] b1.contains(k) by {
            assert(b.contains(k));
            let p = choose|p: int| 0 <= p < b.len() && b[p] == k;
            assert(b1[p - 1] == k);
        }
        assert forall|i: int, j: int|
            #![trigger a1[i], a1[j]]
            0 <= i < j < a1.len() implies ranks_before(counts, a1[i], a1[j]) by {
            assert(a1[i] == a[i + 1] && a1[j] == a[j + 1]);
        }
        assert forall|i: int, j: int|
            #![trigger b1[i], b1[j]]
            0 <= i < j < b1.len() implies ranks_before(counts, b1[i], b1[j]) by {
            assert(b1[i] == b[i + 1] && b1[j] == b[j + 1]);
        }
        lemma_listing_unique(counts, a1, b1, rest);
        assert(a =~= seq![x] + a1);
        assert(b =~= seq![x] + b1);
    }
}

/// The ranking of a count is unique: there is exactly one order that lists every
/// option once, most votes first and ties in option order.
pub proof fn lemma_ranking_unique(counts: Seq<nat>, a: Seq<usize>, b: Seq<usize>)
    requires
        is_ranking(counts, a),
        is_ranking(counts, b),
    ensures
        a == b,
{
    let options = Set::new(|k: usize| k < counts.len());
    lemma_listing_unique(counts, a, b, options);
}

/// How many of `votes` are for `option` is how often the multiset of the votes holds it.
pub proof fn lemma_count_of_multiset(votes: Seq<usize>, option: int)
    ensures
        count_of(votes, option) == if 0 <= option <= usize::MAX {
            votes.to_multiset().count(option as usize)
        } else {
            0
        },
    decreases votes.len(),
{
    broadcast use {vstd::seq_lib::group_to_multiset_ensures, vstd::multiset::group_multiset_axioms};

    if votes.len() == 0 {
        assert(votes.to_multiset() =~= vstd::multiset::Multiset::<usize>::empty());
    } else {
        let rest = votes.drop_last();
        lemma_count_of_multiset(rest, option);
        assert(votes =~= rest.push(votes.last()));
    }
}

proof fn lemma_all_in_bounds(votes: Seq<usize>, n: nat)
    requires
        forall|j: int| 0 <= j < votes.len() ==> #[trigger] votes[j] < n,
    ensures
        first_out_of_bounds(votes, n) is None,
    decreases votes.len(),
{
    if votes.len() > 0 {
        let rest = votes.drop_last();
        assert forall|j: int| 0 <= j < rest.len() implies #[trigger] rest[j] < n by {
            assert(rest[j] == votes[j]);
        }
        lemma_all_in_bounds(rest, n);
        assert(votes[votes.len() - 1] < n);
    }
}

/// Whether some vote names no option does not depend on the order of the votes.
pub proof fn lemma_out_of_bounds_ignores_vote_order(a: Seq<usize>, b: Seq<usize>, n: nat)
    requires
        a.to_multiset() == b.to_multiset(),
    ensures
        (first_out_of_bounds(a, n) is None) == (first_out_of_bounds(b, n) is None),
{
    broadcast use vstd::seq_lib::group_to_multiset_ensures;

    if first_out_of_bounds(a, n) is None {
        lemma_in_bounds(a, n);
        assert forall|j: int| 0 <= j < b.len() implies #[trigger] b[j] < n by {
            assert(b.contains(b[j]));
            assert(b.to_multiset().count(b[j]) > 0);
            assert(a.to_multiset().count(b[j]) > 0);
            assert(a.contains(b[j]));
        }
        lemma_all_in_bounds(b, n);
    }
    if first_out_of_bounds(b, n) is None {
        lemma_in_bounds(b, n);
        assert forall|j: int| 0 <= j < a.len() implies #[trigger] a[j] < n by {
            assert(a.contains(a[j]));
            assert(a.to_multiset().count(a[j]) > 0);
            assert(b.to_multiset().count(a[j]) > 0);
            assert(b.contains(a[j]));
        }
        lemma_all_in_bounds(a, n);
    }
}

/// The tally depends only on which votes there are, not on their order: two
/// lists holding the same votes give the same rows, bars and widths.
pub proof fn lemma_tally_ignores_vote_order(
    options: Seq<String>,
    a: Seq<usize>,
    b: Seq<usize>,
    rows_a: Seq<TallyRow>,
    label_width_a: nat,
    count_width_a: nat,
    rows_b: Seq<TallyRow>,
    label_width_b: nat,
    count_width_b: nat,
)
    requires
        a.to_multiset() == b.to_multiset(),
        is_tally_of(options, a, rows_a, label_width_a, count_width_a),
        is_tally_of(options, b, rows_b, label_width_b, count_width_b),
    ensures
        rows_a == rows_b,
        label_width_a == label_width_b,
        count_width_a == count_width_b,
{
    let n = options.len();
    assert forall|i: int| 0 <= i < n implies #[trigger] count_of(a, i) == count_of(b, i) by {
        lemma_count_of_multiset(a, i);
        lemma_count_of_multiset(b, i);
    }
    assert(vote_counts(a, n) =~= vote_counts(b, n));
    lemma_ranking_unique(vote_counts(a, n), row_options(rows_a), row_options(rows_b));
    assert(rows_a.len() == rows_b.len());
    assert forall|i: int| 0 <= i < rows_a.len() implies #[trigger] rows_a[i].count == rows_b[i].count by {
        assert(row_options(rows_a)[i] == row_options(rows_b)[i]);
        assert(row_options(rows_a)[i] < n);
        lemma_count_of_multiset(a, rows_a[i].option as int);
        lemma_count_of_multiset(b, rows_a[i].option as int);
    }
    assert(row_counts(rows_a) =~= row_counts(rows_b));
    assert forall|i: int| 0 <= i < rows_a.len() implies #[trigger] rows_a[i] == rows_b[i] by {
        assert(row_options(rows_a)[i] == row_options(rows_b)[i]);
        assert(rows_a[i].bar == rows_b[i].bar);
    }
    assert(rows_a =~= rows_b);
}

} // verus!
