//! The laws of the search engine: cost monotonicity and associativity of
//! composition, push idempotence and optimality, boundary collapse,
//! exactness of pruning, and the adequacy of the whole search: no witnessed
//! assembly inside the goal can be pruned out of existence.

use vstd::prelude::*;

use crate::password::{
    all_wc, bind_cand, bind_spec, cand_text, concat_cand, cross_acc, cross_row, cross_spec,
    filter_cost_spec, filter_len_spec, filter_spec, has_sig, junction, keeps, lemma_bind_entries,
    lemma_bind_cand_wf, lemma_bind_wc, lemma_concat_wf, lemma_filter_spec_table,
    lemma_filter_spec_wc, lemma_push_entries, lemma_push_wf, lemma_sig_index, lemma_text_ends,
    is_first_min, len_ok, pipeline_spec, push_spec, rounds_spec, sig, sig_index, table_wf,
    wf_cand, Cand, Goal,
};
use crate::word::{lemma_word_cost_nonneg, End};

verus! {

/// Cost monotonicity: composing never makes a candidate cheaper than
/// either part, since every part's cost and the junction distance are
/// nonnegative.
pub proof fn lemma_composition_cost_monotone(a: Cand, b: Cand)
    requires
        wf_cand(a),
        wf_cand(b),
    ensures
        concat_cand(a, b).cost >= a.cost,
        concat_cand(a, b).cost >= b.cost,
{
    lemma_word_cost_nonneg(cand_text(a));
    lemma_word_cost_nonneg(cand_text(b));
}

/// Concatenation associativity of cost: composing three candidates gives
/// the same result, cost included, whichever pair is composed first.
pub proof fn lemma_composition_associative(a: Cand, b: Cand, c: Cand)
    requires
        wf_cand(a),
        wf_cand(b),
        wf_cand(c),
    ensures
        concat_cand(concat_cand(a, b), c) == concat_cand(a, concat_cand(b, c)),
{
    let ab = concat_cand(a, b);
    let bc = concat_cand(b, c);
    lemma_concat_wf(a, b);
    lemma_concat_wf(b, c);
    lemma_text_ends(a.words);
    lemma_text_ends(b.words);
    lemma_text_ends(c.words);
    assert(cand_text(ab).last() == cand_text(b).last());
    assert(cand_text(bc).first() == cand_text(b).first());
    assert(junction(ab, c) == junction(b, c));
    assert(junction(a, bc) == junction(a, b));
    assert((a.words + b.words) + c.words =~= a.words + (b.words + c.words));
    assert(concat_cand(ab, c) =~= concat_cand(a, bc));
}

/// Push idempotence: offering the same candidate twice leaves the table as
/// one offer leaves it.
pub proof fn lemma_push_idempotent(s: Seq<Cand>, c: Cand)
    requires
        table_wf(s),
        wf_cand(c),
    ensures
        push_spec(push_spec(s, c), c) == push_spec(s, c),
{
    let s1 = push_spec(s, c);
    lemma_push_wf(s, c);
    if has_sig(s, sig(c)) {
        lemma_sig_index(s, sig(c));
        let i = sig_index(s, sig(c));
        if keeps(s[i], c) {
        } else {
            assert(s1 == s.update(i, c));
            assert(sig(s1[i]) == sig(c));
            lemma_sig_index(s1, sig(c));
            assert(sig_index(s1, sig(c)) == i);
            assert(keeps(s1[i], c));
        }
    } else {
        assert(s1 == s.push(c));
        assert(sig(s1[s.len() as int]) == sig(c));
        lemma_sig_index(s1, sig(c));
        assert(sig_index(s1, sig(c)) == s.len() as int);
        assert(keeps(s1[s.len() as int], c));
    }
}

/// Push optimality: of two comparable contenders for a fresh signature, the
/// cheaper one holds the entry; on a tie, the earlier one.
pub proof fn lemma_push_optimal(s: Seq<Cand>, c1: Cand, c2: Cand)
    requires
        table_wf(s),
        wf_cand(c1),
        wf_cand(c2),
        sig(c1) == sig(c2),
        c1.words.len() == c2.words.len(),
        !has_sig(s, sig(c1)),
    ensures
        has_sig(push_spec(push_spec(s, c1), c2), sig(c2)),
        ({
            let s2 = push_spec(push_spec(s, c1), c2);
            s2[sig_index(s2, sig(c2))] == if c2.cost < c1.cost {
                c2
            } else {
                c1
            }
        }),
{
    let s1 = push_spec(s, c1);
    lemma_push_wf(s, c1);
    assert(s1 == s.push(c1));
    assert(sig(s1[s.len() as int]) == sig(c2));
    lemma_sig_index(s1, sig(c2));
    assert(sig_index(s1, sig(c2)) == s.len() as int);
    let s2 = push_spec(s1, c2);
    lemma_push_wf(s1, c2);
    if keeps(c1, c2) {
        assert(s2 == s1);
        assert(sig(s2[s.len() as int]) == sig(c2));
        lemma_sig_index(s2, sig(c2));
        assert(s2[sig_index(s2, sig(c2))] == c1);
    } else {
        assert(s2 == s1.update(s.len() as int, c2));
        assert(sig(s2[s.len() as int]) == sig(c2));
        lemma_sig_index(s2, sig(c2));
        assert(s2[sig_index(s2, sig(c2))] == c2);
    }
}

/// Binding collapses boundaries: every entry of a bound table is
/// unconstrained on the bound side, and the table has grown no larger.
pub proof fn lemma_bind_collapses(s: Seq<Cand>, end: End)
    ensures
        bind_spec(s, end).len() <= s.len(),
        forall|k: int|
            0 <= k < bind_spec(s, end).len() ==> match end {
                End::Left => (#[trigger] bind_spec(s, end)[k]).first is Any,
                End::Right => (#[trigger] bind_spec(s, end)[k]).last is Any,
            },
{
    lemma_bind_entries(s, end);
    let r = bind_spec(s, end);
    assert forall|k: int| 0 <= k < r.len() implies match end {
        End::Left => (#[trigger] r[k]).first is Any,
        End::Right => (#[trigger] r[k]).last is Any,
    } by {
        let m = choose|m: int| 0 <= m < s.len() && r[k] == bind_cand(s[m], end);
        assert(r[k] == bind_cand(s[m], end));
    }
}

/// Pruning soundness: the cost filter retains exactly the entries within
/// the ceiling, and drops every entry above it.
pub proof fn lemma_filter_by_cost_exact(s: Seq<Cand>, max: int)
    ensures
        forall|k: int|
            0 <= k < filter_cost_spec(s, max).len() ==> (#[trigger] filter_cost_spec(s, max)[k]).cost
                <= max && s.contains(filter_cost_spec(s, max)[k]),
        forall|m: int|
            0 <= m < s.len() && (#[trigger] s[m]).cost <= max ==> filter_cost_spec(
                s,
                max,
            ).contains(s[m]),
    decreases s.len(),
{
    if s.len() > 0 {
        let d = s.drop_last();
        let f = filter_cost_spec(s, max);
        let fd = filter_cost_spec(d, max);
        lemma_filter_by_cost_exact(d, max);
        assert forall|k: int| 0 <= k < f.len() implies (#[trigger] f[k]).cost <= max && s.contains(
            f[k],
        ) by {
            if k < fd.len() {
                assert(f[k] == fd[k]);
                assert(d.contains(fd[k]));
                let m = choose|m: int| 0 <= m < d.len() && d[m] == fd[k];
                assert(s[m] == f[k]);
            } else {
                assert(f[k] == s.last());
                assert(s[s.len() - 1] == s.last());
            }
        }
        assert forall|m: int| 0 <= m < s.len() && (#[trigger] s[m]).cost <= max implies f.contains(
            s[m],
        ) by {
            if m < d.len() {
                assert(d[m] == s[m]);
                assert(fd.contains(d[m]));
                let q = choose|q: int| 0 <= q < fd.len() && fd[q] == d[m];
                assert(f[q] == s[m]);
            } else {
                assert(s[m] == s.last());
                assert(f[f.len() - 1] == s.last());
            }
        }
    }
}

/// The table holds an entry of the candidate's signature class that costs
/// no more than the candidate: nothing is lost by searching over the table
/// instead of over the candidate itself.
pub open spec fn dominated(t: Seq<Cand>, c: Cand) -> bool {
    exists|e: int| 0 <= e < t.len() && sig(#[trigger] t[e]) == sig(c) && t[e].cost <= c.cost
}

/// Domination passes to any candidate of the same class that costs at
/// least as much.
pub proof fn lemma_dominated_transfer(t: Seq<Cand>, x: Cand, c: Cand)
    requires
        dominated(t, x),
        sig(x) == sig(c),
        x.cost <= c.cost,
    ensures
        dominated(t, c),
{
    let e = choose|e: int| 0 <= e < t.len() && sig(#[trigger] t[e]) == sig(x) && t[e].cost <= x.cost;
    assert(sig(t[e]) == sig(c) && t[e].cost <= c.cost);
}

/// On a table of uniform word count, a push never breaks domination: the
/// entry of the dominated class is only ever replaced by a cheaper one.
pub proof fn lemma_push_dominates(t: Seq<Cand>, x: Cand, c: Cand, k: nat)
    requires
        table_wf(t),
        all_wc(t, k),
        x.words.len() == k,
        dominated(t, c),
    ensures
        dominated(push_spec(t, x), c),
{
    let e = choose|e: int| 0 <= e < t.len() && sig(#[trigger] t[e]) == sig(c) && t[e].cost <= c.cost;
    let r = push_spec(t, x);
    if has_sig(t, sig(x)) {
        lemma_sig_index(t, sig(x));
        let i = sig_index(t, sig(x));
        if keeps(t[i], x) {
            assert(sig(r[e]) == sig(c) && r[e].cost <= c.cost);
        } else {
            if e == i {
                assert(t[i].words.len() == k);
                assert(t[i].cost > x.cost);
                assert(sig(r[i]) == sig(c) && r[i].cost <= c.cost);
            } else {
                assert(r[e] == t[e]);
                assert(sig(r[e]) == sig(c) && r[e].cost <= c.cost);
            }
        }
    } else {
        assert(r[e] == t[e]);
        assert(sig(r[e]) == sig(c) && r[e].cost <= c.cost);
    }
}

/// After a push the contender's own class is dominated.
pub proof fn lemma_push_introduces(t: Seq<Cand>, x: Cand, k: nat)
    requires
        table_wf(t),
        all_wc(t, k),
        x.words.len() == k,
    ensures
        dominated(push_spec(t, x), x),
{
    let r = push_spec(t, x);
    if has_sig(t, sig(x)) {
        lemma_sig_index(t, sig(x));
        let i = sig_index(t, sig(x));
        if keeps(t[i], x) {
            assert(sig(r[i]) == sig(x) && r[i].cost <= x.cost);
        } else {
            assert(sig(r[i]) == sig(x) && r[i].cost <= x.cost);
        }
    } else {
        assert(sig(r[t.len() as int]) == sig(x) && r[t.len() as int].cost <= x.cost);
    }
}

/// Binding keeps a table well-formed.
pub proof fn lemma_bind_table_wf(s: Seq<Cand>, end: End)
    requires
        table_wf(s),
    ensures
        table_wf(bind_spec(s, end)),
    decreases s.len(),
{
    if s.len() > 0 {
        let d = s.drop_last();
        assert(table_wf(d)) by {
            assert(forall|i: int| 0 <= i < d.len() ==> d[i] == s[i]);
        }
        lemma_bind_table_wf(d, end);
        crate::password::lemma_bind_cand_wf(s.last(), end);
        assert(wf_cand(s[s.len() - 1]));
        lemma_push_wf(bind_spec(d, end), bind_cand(s.last(), end));
    }
}

/// The bound table dominates the bound copy of every entry of the input.
pub proof fn lemma_bind_dominates(s: Seq<Cand>, end: End, i: int, k: nat)
    requires
        table_wf(s),
        all_wc(s, k),
        0 <= i < s.len(),
    ensures
        dominated(bind_spec(s, end), bind_cand(s[i], end)),
    decreases s.len(),
{
    let d = s.drop_last();
    assert(table_wf(d) && all_wc(d, k)) by {
        assert(forall|q: int| 0 <= q < d.len() ==> d[q] == s[q]);
    }
    lemma_bind_table_wf(d, end);
    crate::password::lemma_bind_wc(d, end, k);
    crate::password::lemma_bind_cand_wf(s.last(), end);
    assert(wf_cand(s[s.len() - 1]));
    if i == s.len() - 1 {
        lemma_push_introduces(bind_spec(d, end), bind_cand(s.last(), end), k);
        assert(bind_cand(s.last(), end) == bind_cand(s[i], end));
    } else {
        lemma_bind_dominates(d, end, i, k);
        assert(d[i] == s[i]);
        lemma_push_dominates(bind_spec(d, end), bind_cand(s.last(), end), bind_cand(s[i], end), k);
    }
}

/// The length filter retains every entry inside the window (the exactness
/// of pruning, on the length side).
pub proof fn lemma_filter_by_len_exact(s: Seq<Cand>, g: crate::password::Goal)
    ensures
        forall|m: int|
            0 <= m < s.len() && len_ok(#[trigger] s[m], g) ==> filter_len_spec(s, g).contains(
                s[m],
            ),
    decreases s.len(),
{
    if s.len() > 0 {
        let d = s.drop_last();
        let f = filter_len_spec(s, g);
        let fd = filter_len_spec(d, g);
        lemma_filter_by_len_exact(d, g);
        assert forall|m: int| 0 <= m < s.len() && len_ok(#[trigger] s[m], g) implies f.contains(
            s[m],
        ) by {
            if m < d.len() {
                assert(d[m] == s[m]);
                assert(fd.contains(d[m]));
                let q = choose|q: int| 0 <= q < fd.len() && fd[q] == d[m];
                assert(f[q] == s[m]);
            } else {
                assert(s[m] == s.last());
                assert(f[f.len() - 1] == s.last());
            }
        }
    }
}

/// Pruning cannot break domination, as long as the dominated candidate
/// itself sits within the ceiling and the window.
pub proof fn lemma_filter_dominates(s: Seq<Cand>, g: crate::password::Goal, max: int, c: Cand, k: nat)
    requires
        table_wf(s),
        all_wc(s, k),
        dominated(s, c),
        c.words.len() == k,
        c.cost <= max,
        len_ok(c, g),
    ensures
        dominated(filter_spec(s, g, max), c),
{
    let e = choose|e: int| 0 <= e < s.len() && sig(#[trigger] s[e]) == sig(c) && s[e].cost <= c.cost;
    assert(s[e].length == c.length);
    assert(s[e].words.len() == k);
    assert(len_ok(s[e], g));
    lemma_filter_by_cost_exact(s, max);
    let fc = filter_cost_spec(s, max);
    assert(fc.contains(s[e]));
    let q = choose|q: int| 0 <= q < fc.len() && fc[q] == s[e];
    lemma_filter_by_len_exact(fc, g);
    assert(filter_len_spec(fc, g).contains(fc[q]));
    let w = choose|w: int| 0 <= w < filter_len_spec(fc, g).len() && filter_len_spec(fc, g)[w] == fc[q];
    assert(sig(filter_spec(s, g, max)[w]) == sig(c) && filter_spec(s, g, max)[w].cost <= c.cost);
}

/// The key at the end of a candidate's text.
pub open spec fn key_of_last(c: Cand) -> char {
    crate::key::key_of(cand_text(c).last())
}

/// The key at the start of a candidate's text.
pub open spec fn key_of_first(c: Cand) -> char {
    crate::key::key_of(cand_text(c).first())
}

/// Composing class representatives gives a representative of the composed
/// class: the signature is the same, and the junction cost too, since the
/// boundary keys facing each other are fixed by the two signatures.
pub proof fn lemma_concat_dominates_pair(a2: Cand, b2: Cand, a: Cand, b: Cand)
    requires
        wf_cand(a2),
        wf_cand(b2),
        wf_cand(a),
        wf_cand(b),
        sig(a2) == sig(a),
        sig(b2) == sig(b),
        a2.cost <= a.cost,
        b2.cost <= b.cost,
        a.last is At,
        b.first is At,
    ensures
        sig(concat_cand(a2, b2)) == sig(concat_cand(a, b)),
        concat_cand(a2, b2).cost <= concat_cand(a, b).cost,
{
    lemma_text_ends(a.words);
    lemma_text_ends(b.words);
    lemma_text_ends(a2.words);
    lemma_text_ends(b2.words);
    let x = a.last->At_0;
    assert(key_of_last(a) == x && key_of_last(a2) == x);
    let y = b.first->At_0;
    assert(key_of_first(b) == y && key_of_first(b2) == y);
    assert(junction(a2, b2) == junction(a, b));
}

/// A cross-product row of well-formed uniform tables is a well-formed
/// uniform table.
pub proof fn lemma_cross_row_wf(t: Seq<Cand>, a: Cand, b: Seq<Cand>, ka: nat, kb: nat)
    requires
        table_wf(t),
        all_wc(t, (ka + kb) as nat),
        wf_cand(a),
        a.words.len() == ka,
        forall|j: int| 0 <= j < b.len() ==> wf_cand(#[trigger] b[j]) && b[j].words.len() == kb,
    ensures
        table_wf(cross_row(t, a, b)),
        all_wc(cross_row(t, a, b), (ka + kb) as nat),
    decreases b.len(),
{
    if b.len() > 0 {
        let d = b.drop_last();
        assert(forall|j: int| 0 <= j < d.len() ==> d[j] == b[j]);
        lemma_cross_row_wf(t, a, d, ka, kb);
        assert(wf_cand(b[b.len() - 1]));
        lemma_concat_wf(a, b.last());
        lemma_push_wf(cross_row(t, a, d), concat_cand(a, b.last()));
        lemma_push_entries(cross_row(t, a, d), concat_cand(a, b.last()));
        let r = cross_row(t, a, b);
        assert forall|q: int| 0 <= q < r.len() implies (#[trigger] r[q]).words.len() == (ka
            + kb) as nat by {
            if r[q] == concat_cand(a, b.last()) {
            } else {
                assert(cross_row(t, a, d).contains(r[q]));
                let m = choose|m: int|
                    0 <= m < cross_row(t, a, d).len() && cross_row(t, a, d)[m] == r[q];
            }
        }
    }
}

/// The accumulated cross product of well-formed uniform tables is a
/// well-formed uniform table.
pub proof fn lemma_cross_acc_wf(t: Seq<Cand>, a: Seq<Cand>, b: Seq<Cand>, ka: nat, kb: nat)
    requires
        table_wf(t),
        all_wc(t, (ka + kb) as nat),
        forall|i: int| 0 <= i < a.len() ==> wf_cand(#[trigger] a[i]) && a[i].words.len() == ka,
        forall|j: int| 0 <= j < b.len() ==> wf_cand(#[trigger] b[j]) && b[j].words.len() == kb,
    ensures
        table_wf(cross_acc(t, a, b)),
        all_wc(cross_acc(t, a, b), (ka + kb) as nat),
    decreases a.len(),
{
    if a.len() > 0 {
        let d = a.drop_last();
        assert(forall|i: int| 0 <= i < d.len() ==> d[i] == a[i]);
        lemma_cross_acc_wf(t, d, b, ka, kb);
        assert(wf_cand(a[a.len() - 1]));
        lemma_cross_row_wf(cross_acc(t, d, b), a.last(), b, ka, kb);
    }
}

/// A cross-product row keeps whatever the accumulator dominated.
pub proof fn lemma_cross_row_dominates_pres(
    t: Seq<Cand>,
    a: Cand,
    b: Seq<Cand>,
    c: Cand,
    ka: nat,
    kb: nat,
)
    requires
        table_wf(t),
        all_wc(t, (ka + kb) as nat),
        wf_cand(a),
        a.words.len() == ka,
        forall|j: int| 0 <= j < b.len() ==> wf_cand(#[trigger] b[j]) && b[j].words.len() == kb,
        dominated(t, c),
    ensures
        dominated(cross_row(t, a, b), c),
    decreases b.len(),
{
    if b.len() > 0 {
        let d = b.drop_last();
        assert(forall|j: int| 0 <= j < d.len() ==> d[j] == b[j]);
        lemma_cross_row_dominates_pres(t, a, d, c, ka, kb);
        lemma_cross_row_wf(t, a, d, ka, kb);
        assert(wf_cand(b[b.len() - 1]));
        lemma_concat_wf(a, b.last());
        lemma_push_dominates(cross_row(t, a, d), concat_cand(a, b.last()), c, (ka + kb) as nat);
    }
}

/// A cross-product row comes to dominate every composition it pushes.
pub proof fn lemma_cross_row_introduces(
    t: Seq<Cand>,
    a: Cand,
    b: Seq<Cand>,
    j: int,
    ka: nat,
    kb: nat,
)
    requires
        table_wf(t),
        all_wc(t, (ka + kb) as nat),
        wf_cand(a),
        a.words.len() == ka,
        forall|q: int| 0 <= q < b.len() ==> wf_cand(#[trigger] b[q]) && b[q].words.len() == kb,
        0 <= j < b.len(),
    ensures
        dominated(cross_row(t, a, b), concat_cand(a, b[j])),
    decreases b.len(),
{
    let d = b.drop_last();
    assert(forall|q: int| 0 <= q < d.len() ==> d[q] == b[q]);
    lemma_cross_row_wf(t, a, d, ka, kb);
    assert(wf_cand(b[b.len() - 1]));
    lemma_concat_wf(a, b.last());
    if j == b.len() - 1 {
        lemma_push_introduces(cross_row(t, a, d), concat_cand(a, b.last()), (ka + kb) as nat);
        assert(concat_cand(a, b.last()) == concat_cand(a, b[j]));
    } else {
        lemma_cross_row_introduces(t, a, d, j, ka, kb);
        assert(d[j] == b[j]);
        lemma_push_dominates(
            cross_row(t, a, d),
            concat_cand(a, b.last()),
            concat_cand(a, b[j]),
            (ka + kb) as nat,
        );
    }
}

/// The accumulated cross product dominates the composition of every pair.
pub proof fn lemma_cross_acc_dominates(
    t: Seq<Cand>,
    a: Seq<Cand>,
    b: Seq<Cand>,
    i: int,
    j: int,
    ka: nat,
    kb: nat,
)
    requires
        table_wf(t),
        all_wc(t, (ka + kb) as nat),
        forall|q: int| 0 <= q < a.len() ==> wf_cand(#[trigger] a[q]) && a[q].words.len() == ka,
        forall|q: int| 0 <= q < b.len() ==> wf_cand(#[trigger] b[q]) && b[q].words.len() == kb,
        0 <= i < a.len(),
        0 <= j < b.len(),
    ensures
        dominated(cross_acc(t, a, b), concat_cand(a[i], b[j])),
    decreases a.len(),
{
    let d = a.drop_last();
    assert(forall|q: int| 0 <= q < d.len() ==> d[q] == a[q]);
    lemma_cross_acc_wf(t, d, b, ka, kb);
    assert(wf_cand(a[a.len() - 1]));
    if i == a.len() - 1 {
        lemma_cross_row_introduces(cross_acc(t, d, b), a.last(), b, j, ka, kb);
        assert(concat_cand(a.last(), b[j]) == concat_cand(a[i], b[j]));
    } else {
        lemma_cross_acc_dominates(t, d, b, i, j, ka, kb);
        assert(d[i] == a[i]);
        lemma_cross_row_dominates_pres(
            cross_acc(t, d, b),
            a.last(),
            b,
            concat_cand(a[i], b[j]),
            ka,
            kb,
        );
    }
}

/// The full cross product dominates the composition of anything the two
/// operands dominate, provided the facing boundary keys are fixed.
pub proof fn lemma_cross_dominates(
    a: Seq<Cand>,
    b: Seq<Cand>,
    x: Cand,
    y: Cand,
    ka: nat,
    kb: nat,
)
    requires
        table_wf(a),
        table_wf(b),
        all_wc(a, ka),
        all_wc(b, kb),
        dominated(a, x),
        dominated(b, y),
        wf_cand(x),
        wf_cand(y),
        x.last is At,
        y.first is At,
    ensures
        dominated(cross_spec(a, b), concat_cand(x, y)),
{
    let ea = choose|e: int| 0 <= e < a.len() && sig(#[trigger] a[e]) == sig(x) && a[e].cost <= x.cost;
    let eb = choose|e: int| 0 <= e < b.len() && sig(#[trigger] b[e]) == sig(y) && b[e].cost <= y.cost;
    assert(Seq::<Cand>::empty().len() == 0);
    lemma_cross_acc_dominates(Seq::empty(), a, b, ea, eb, ka, kb);
    lemma_concat_dominates_pair(a[ea], b[eb], x, y);
    lemma_dominated_transfer(cross_spec(a, b), concat_cand(a[ea], b[eb]), concat_cand(x, y));
}

/// A well-formed candidate has at least one character and a nonnegative
/// cost.
pub proof fn lemma_wf_cand_pos(c: Cand)
    requires
        wf_cand(c),
    ensures
        c.length >= 1,
        c.cost >= 0,
{
    lemma_text_ends(c.words);
    lemma_word_cost_nonneg(cand_text(c));
}

/// Every entry is an unbound word: both boundary keys fixed.
pub open spec fn unbound(s: Seq<Cand>) -> bool {
    forall|k: int| 0 <= k < s.len() ==> (#[trigger] s[k]).first is At && s[k].last is At
}

/// Every index names an entry of the table.
pub open spec fn valid_idx(s: Seq<Cand>, idx: Seq<int>) -> bool {
    forall|k: int| 0 <= k < idx.len() ==> 0 <= #[trigger] idx[k] < s.len()
}

/// The left part of a witnessed assembly: the first chosen word bound on
/// the left, the following ones composed onto it in order.
pub open spec fn assembly_prefix(s: Seq<Cand>, idx: Seq<int>) -> Cand
    decreases idx.len(),
{
    if idx.len() <= 1 {
        bind_cand(s[idx[0]], End::Left)
    } else {
        concat_cand(assembly_prefix(s, idx.drop_last()), s[idx.last()])
    }
}

/// A witnessed assembly of at least two words: left-bound first word, the
/// middle words in order, right-bound last word.
pub open spec fn assembly(s: Seq<Cand>, idx: Seq<int>) -> Cand {
    concat_cand(assembly_prefix(s, idx.drop_last()), bind_cand(s[idx.last()], End::Right))
}

/// An assembly prefix is well-formed, one word per index, and its right
/// boundary key stays fixed.
pub proof fn lemma_assembly_prefix_props(s: Seq<Cand>, idx: Seq<int>)
    requires
        table_wf(s),
        unbound(s),
        all_wc(s, 1),
        valid_idx(s, idx),
        idx.len() >= 1,
    ensures
        wf_cand(assembly_prefix(s, idx)),
        assembly_prefix(s, idx).words.len() == idx.len(),
        assembly_prefix(s, idx).last is At,
    decreases idx.len(),
{
    if idx.len() == 1 {
        assert(wf_cand(s[idx[0]]));
        lemma_bind_cand_wf(s[idx[0]], End::Left);
        assert(s[idx[0]].words.len() == 1);
    } else {
        let d = idx.drop_last();
        assert(valid_idx(s, d)) by {
            assert(forall|k: int| 0 <= k < d.len() ==> d[k] == idx[k]);
        }
        lemma_assembly_prefix_props(s, d);
        assert(0 <= idx.last() < s.len());
        assert(wf_cand(s[idx.last()]));
        lemma_concat_wf(assembly_prefix(s, d), s[idx.last()]);
        assert(s[idx.last()].words.len() == 1);
        assert(s[idx.last()].last is At);
    }
}

/// Every prefix of a witnessed assembly costs no more than the whole and
/// is no longer than the whole.
pub proof fn lemma_assembly_prefix_le(s: Seq<Cand>, idx: Seq<int>, m: int)
    requires
        table_wf(s),
        unbound(s),
        all_wc(s, 1),
        valid_idx(s, idx),
        idx.len() >= 2,
        1 <= m <= idx.len() - 1,
    ensures
        assembly_prefix(s, idx.take(m)).cost <= assembly(s, idx).cost,
        assembly_prefix(s, idx.take(m)).length <= assembly(s, idx).length,
    decreases idx.len() - m,
{
    assert(valid_idx(s, idx.take(m))) by {
        assert(forall|k: int| 0 <= k < m ==> idx.take(m)[k] == idx[k]);
    }
    lemma_assembly_prefix_props(s, idx.take(m));
    if m == idx.len() - 1 {
        assert(idx.take(m) =~= idx.drop_last());
        let p = assembly_prefix(s, idx.drop_last());
        let rb = bind_cand(s[idx.last()], End::Right);
        assert(0 <= idx.last() < s.len());
        assert(wf_cand(s[idx.last()]));
        lemma_bind_cand_wf(s[idx.last()], End::Right);
        lemma_composition_cost_monotone(p, rb);
        lemma_wf_cand_pos(rb);
    } else {
        let t1 = idx.take(m + 1);
        assert(valid_idx(s, t1)) by {
            assert(forall|k: int| 0 <= k < m + 1 ==> t1[k] == idx[k]);
        }
        assert(t1.drop_last() =~= idx.take(m));
        assert(t1.last() == idx[m]);
        assert(assembly_prefix(s, t1) == concat_cand(assembly_prefix(s, idx.take(m)), s[idx[m]]));
        assert(0 <= idx[m] < s.len());
        assert(wf_cand(s[idx[m]]));
        lemma_composition_cost_monotone(assembly_prefix(s, idx.take(m)), s[idx[m]]);
        lemma_wf_cand_pos(s[idx[m]]);
        lemma_assembly_prefix_le(s, idx, m + 1);
    }
}

/// Every chosen word costs no more than the whole assembly and is no
/// longer than it.
pub proof fn lemma_assembly_word_le(s: Seq<Cand>, idx: Seq<int>, m: int)
    requires
        table_wf(s),
        unbound(s),
        all_wc(s, 1),
        valid_idx(s, idx),
        idx.len() >= 2,
        0 <= m <= idx.len() - 1,
    ensures
        s[idx[m]].cost <= assembly(s, idx).cost,
        s[idx[m]].length <= assembly(s, idx).length,
{
    assert(0 <= idx[m] < s.len());
    assert(wf_cand(s[idx[m]]));
    let p = assembly_prefix(s, idx.drop_last());
    let rb = bind_cand(s[idx.last()], End::Right);
    assert(valid_idx(s, idx.drop_last())) by {
        assert(forall|k: int| 0 <= k < idx.len() - 1 ==> idx.drop_last()[k] == idx[k]);
    }
    lemma_assembly_prefix_props(s, idx.drop_last());
    assert(0 <= idx.last() < s.len());
    assert(wf_cand(s[idx.last()]));
    lemma_bind_cand_wf(s[idx.last()], End::Right);
    lemma_composition_cost_monotone(p, rb);
    lemma_wf_cand_pos(p);
    lemma_wf_cand_pos(rb);
    if m == idx.len() - 1 {
        assert(rb.cost == s[idx[m]].cost);
        assert(rb.length == s[idx[m]].length);
    } else {
        if m == 0 {
            let t1 = idx.take(1);
            assert(t1.len() == 1 && t1[0] == idx[0]);
            assert(assembly_prefix(s, t1) == bind_cand(s[idx[0]], End::Left));
            lemma_assembly_prefix_le(s, idx, 1);
        } else {
            let t1 = idx.take(m + 1);
            assert(valid_idx(s, t1)) by {
                assert(forall|k: int| 0 <= k < m + 1 ==> t1[k] == idx[k]);
            }
            assert(t1.drop_last() =~= idx.take(m));
            assert(t1.last() == idx[m]);
            assert(valid_idx(s, idx.take(m))) by {
                assert(forall|k: int| 0 <= k < m ==> idx.take(m)[k] == idx[k]);
            }
            lemma_assembly_prefix_props(s, idx.take(m));
            assert(assembly_prefix(s, t1) == concat_cand(
                assembly_prefix(s, idx.take(m)),
                s[idx[m]],
            ));
            lemma_composition_cost_monotone(assembly_prefix(s, idx.take(m)), s[idx[m]]);
            lemma_wf_cand_pos(assembly_prefix(s, idx.take(m)));
            lemma_assembly_prefix_le(s, idx, m + 1);
        }
    }
}

/// After `m` middle rounds the accumulator dominates the assembly prefix
/// of the first `m + 1` chosen words.
proof fn lemma_rounds_dominates(s: Seq<Cand>, g: Goal, max: int, idx: Seq<int>, m: int)
    requires
        table_wf(s),
        unbound(s),
        all_wc(s, 1),
        valid_idx(s, idx),
        idx.len() == g.words_number,
        g.words_number >= 2,
        assembly(s, idx).cost <= max,
        assembly(s, idx).length <= g.max_length as int,
        0 <= m <= idx.len() - 2,
    ensures
        ({
            let left = filter_spec(bind_spec(s, End::Left), g, max);
            let center = filter_spec(s, g, max);
            let acc = rounds_spec(left, center, g, max, m as nat);
            &&& table_wf(acc)
            &&& all_wc(acc, (m + 1) as nat)
            &&& dominated(acc, assembly_prefix(s, idx.take(m + 1)))
        }),
    decreases m,
{
    let left = filter_spec(bind_spec(s, End::Left), g, max);
    let center = filter_spec(s, g, max);
    lemma_bind_table_wf(s, End::Left);
    lemma_bind_wc(s, End::Left, 1);
    lemma_filter_spec_table(bind_spec(s, End::Left), g, max);
    lemma_filter_spec_wc(bind_spec(s, End::Left), g, max, 1);
    lemma_filter_spec_table(s, g, max);
    lemma_filter_spec_wc(s, g, max, 1);
    if m == 0 {
        let t1 = idx.take(1);
        assert(valid_idx(s, t1)) by {
            assert(forall|k: int| 0 <= k < 1 ==> t1[k] == idx[k]);
        }
        let c1 = assembly_prefix(s, t1);
        assert(t1.len() == 1 && t1[0] == idx[0]);
        assert(c1 == bind_cand(s[idx[0]], End::Left));
        assert(0 <= idx[0] < s.len());
        lemma_bind_dominates(s, End::Left, idx[0], 1);
        lemma_assembly_prefix_props(s, t1);
        lemma_assembly_prefix_le(s, idx, 1);
        assert(len_ok(c1, g));
        lemma_filter_dominates(bind_spec(s, End::Left), g, max, c1, 1);
    } else {
        lemma_rounds_dominates(s, g, max, idx, m - 1);
        let acc_prev = rounds_spec(left, center, g, max, (m - 1) as nat);
        assert(valid_idx(s, idx.take(m))) by {
            assert(forall|k: int| 0 <= k < m ==> idx.take(m)[k] == idx[k]);
        }
        let pm = assembly_prefix(s, idx.take(m));
        lemma_assembly_prefix_props(s, idx.take(m));
        let w = s[idx[m]];
        assert(0 <= idx[m] < s.len());
        assert(wf_cand(w));
        assert(dominated(s, w)) by {
            assert(sig(s[idx[m]]) == sig(w) && s[idx[m]].cost <= w.cost);
        }
        lemma_assembly_word_le(s, idx, m);
        assert(len_ok(w, g));
        lemma_filter_dominates(s, g, max, w, 1);
        lemma_cross_dominates(acc_prev, center, pm, w, m as nat, 1);
        let t1 = idx.take(m + 1);
        assert(valid_idx(s, t1)) by {
            assert(forall|k: int| 0 <= k < m + 1 ==> t1[k] == idx[k]);
        }
        assert(t1.drop_last() =~= idx.take(m));
        assert(t1.last() == idx[m]);
        assert(assembly_prefix(s, t1) == concat_cand(pm, w));
        lemma_cross_acc_wf(Seq::empty(), acc_prev, center, m as nat, 1);
        lemma_assembly_prefix_props(s, t1);
        lemma_assembly_prefix_le(s, idx, m + 1);
        assert(len_ok(assembly_prefix(s, t1), g));
        lemma_filter_dominates(
            cross_spec(acc_prev, center),
            g,
            max,
            assembly_prefix(s, t1),
            (m + 1) as nat,
        );
        lemma_filter_spec_table(cross_spec(acc_prev, center), g, max);
        lemma_filter_spec_wc(cross_spec(acc_prev, center), g, max, (m + 1) as nat);
    }
}

/// Goal satisfaction, the completeness half: whenever some choice of table
/// words assembles, left and right bound, into a candidate within the
/// ceiling and the length window, the pipeline keeps an entry of that very
/// signature at no greater cost. The search cannot prune its way past
/// every witness, and with the driver's own contract it must then return a
/// candidate at least as cheap as the witness.
pub proof fn lemma_search_adequate(s: Seq<Cand>, g: Goal, max: int, idx: Seq<int>)
    requires
        table_wf(s),
        unbound(s),
        all_wc(s, 1),
        valid_idx(s, idx),
        idx.len() == g.words_number,
        g.words_number >= 2,
        assembly(s, idx).cost <= max,
        g.min_length as int <= assembly(s, idx).length <= g.max_length as int,
    ensures
        dominated(pipeline_spec(s, g, max), assembly(s, idx)),
        pipeline_spec(s, g, max).len() >= 1,
{
    let full = assembly(s, idx);
    let left = filter_spec(bind_spec(s, End::Left), g, max);
    let center = filter_spec(s, g, max);
    let nn = idx.len() - 2;
    lemma_rounds_dominates(s, g, max, idx, nn);
    let mid = rounds_spec(left, center, g, max, nn as nat);
    assert(idx.take(nn + 1) =~= idx.drop_last());
    assert(valid_idx(s, idx.drop_last())) by {
        assert(forall|k: int| 0 <= k < idx.len() - 1 ==> idx.drop_last()[k] == idx[k]);
    }
    let p = assembly_prefix(s, idx.drop_last());
    lemma_assembly_prefix_props(s, idx.drop_last());
    lemma_bind_table_wf(s, End::Right);
    lemma_bind_wc(s, End::Right, 1);
    lemma_filter_spec_table(bind_spec(s, End::Right), g, max);
    lemma_filter_spec_wc(bind_spec(s, End::Right), g, max, 1);
    let right = filter_spec(bind_spec(s, End::Right), g, max);
    let rb = bind_cand(s[idx.last()], End::Right);
    assert(idx[idx.len() - 1] == idx.last());
    assert(0 <= idx.last() < s.len());
    assert(wf_cand(s[idx.last()]));
    lemma_bind_cand_wf(s[idx.last()], End::Right);
    lemma_bind_dominates(s, End::Right, idx.last(), 1);
    lemma_assembly_word_le(s, idx, idx.len() - 1);
    assert(rb.cost == s[idx.last()].cost && rb.length == s[idx.last()].length);
    assert(len_ok(rb, g));
    lemma_filter_dominates(bind_spec(s, End::Right), g, max, rb, 1);
    assert(rb.first is At);
    lemma_cross_dominates(mid, right, p, rb, (idx.len() - 1) as nat, 1);
    assert(full == concat_cand(p, rb));
    lemma_cross_acc_wf(Seq::empty(), mid, right, (idx.len() - 1) as nat, 1);
    assert(full.words.len() == idx.len());
    assert(len_ok(full, g));
    lemma_filter_dominates(cross_spec(mid, right), g, max, full, idx.len() as nat);
    let pl = pipeline_spec(s, g, max);
    assert(pl == filter_spec(cross_spec(mid, right), g, max));
    let e = choose|e: int| 0 <= e < pl.len() && sig(#[trigger] pl[e]) == sig(full) && pl[e].cost
        <= full.cost;
    assert(pl.len() >= 1);
}

/// Goal satisfaction for a one-word goal: a table word within the ceiling
/// and the window cannot be pruned away entirely.
pub proof fn lemma_search_adequate_single(s: Seq<Cand>, g: Goal, max: int, i: int)
    requires
        table_wf(s),
        all_wc(s, 1),
        0 <= i < s.len(),
        g.words_number == 1,
        s[i].cost <= max,
        g.min_length as int <= s[i].length <= g.max_length as int,
    ensures
        dominated(pipeline_spec(s, g, max), bind_cand(s[i], End::Left)),
        pipeline_spec(s, g, max).len() >= 1,
{
    let c = bind_cand(s[i], End::Left);
    assert(wf_cand(s[i]));
    lemma_bind_cand_wf(s[i], End::Left);
    lemma_bind_table_wf(s, End::Left);
    lemma_bind_wc(s, End::Left, 1);
    lemma_bind_dominates(s, End::Left, i, 1);
    assert(len_ok(c, g));
    lemma_filter_dominates(bind_spec(s, End::Left), g, max, c, 1);
    let pl = pipeline_spec(s, g, max);
    let e = choose|e: int| 0 <= e < pl.len() && sig(#[trigger] pl[e]) == sig(c) && pl[e].cost
        <= c.cost;
    assert(pl.len() >= 1);
}

/// The winner of a table beats every candidate the table dominates: with
/// the driver's own contract, the returned candidate costs no more than
/// any witnessed assembly.
pub proof fn lemma_first_min_beats_dominated(s: Seq<Cand>, b: Cand, c: Cand)
    requires
        is_first_min(s, b),
        dominated(s, c),
    ensures
        b.cost <= c.cost,
{
    let e = choose|e: int| 0 <= e < s.len() && sig(#[trigger] s[e]) == sig(c) && s[e].cost <= c.cost;
    assert(s[e].cost >= b.cost);
}

} // verus!
