use vstd::prelude::*;

use crate::tasks::{
    lemma_total_from_bounds, lemma_total_from_monotone, lemma_total_from_update, shuffles,
    shuffles_from, total_from, total_len, StmtView, Task,
};

verus! {

/// Law: replay — a task at the start of its sequence (freshly generated, or
/// rewound by `reset`, which keeps `elements` intact) has exactly its full
/// element sequence still to produce, so a reset task re-produces the
/// identical sequence that its first consumption produced.
pub proof fn lemma_replay_from_start(t: Task)
    requires
        t.cursor == 0,
    ensures
        t.remaining() == t.elements(),
{
    assert(t.remaining() =~= t.elements());
}

/// Every statement of script `i` names client `i`: the well-formedness that
/// ties a script's position to the pooled connection its statements use.
pub open spec fn tagged(rem: Seq<Seq<StmtView>>) -> bool {
    forall|i: int, j: int|
        0 <= i < rem.len() && 0 <= j < rem[i].len() ==> (#[trigger] rem[i][j]).client_id == i
}

/// Dropping the head of one script keeps every script tagged with its index.
proof fn lemma_tagged_drop(rem: Seq<Seq<StmtView>>, i: int)
    requires
        tagged(rem),
        0 <= i < rem.len(),
        rem[i].len() > 0,
    ensures
        tagged(rem.update(i, rem[i].drop_first())),
{
    let rem_dec = rem.update(i, rem[i].drop_first());
    assert forall|k: int, j: int|
        0 <= k < rem_dec.len() && 0 <= j < rem_dec[k].len() implies (#[trigger] rem_dec[k][j]).client_id
        == k by {
        if k == i {
            assert(rem_dec[k][j] == rem[i][j + 1]);
        }
    }
}

/// Law: every interleaving has length N, the total number of statements over
/// all scripts.
pub proof fn lemma_shuffles_len(rem: Seq<Seq<StmtView>>)
    ensures
        forall|j: int|
            0 <= j < shuffles(rem).len() ==> (#[trigger] shuffles(rem)[j]).len() == total_len(rem),
    decreases total_len(rem), rem.len() + 1,
{
    if total_len(rem) == 0 {
        assert(shuffles(rem) == seq![Seq::<StmtView>::empty()]);
    } else {
        lemma_shuffles_from_len(rem, 0);
        assert(shuffles(rem) == shuffles_from(rem, 0));
    }
}

proof fn lemma_shuffles_from_len(rem: Seq<Seq<StmtView>>, i: int)
    requires
        0 <= i,
    ensures
        forall|j: int|
            0 <= j < shuffles_from(rem, i).len() ==> (#[trigger] shuffles_from(rem, i)[j]).len()
                == total_len(rem),
    decreases total_len(rem), rem.len() - i,
{
    if i >= rem.len() {
        assert(shuffles_from(rem, i) == Seq::<Seq<StmtView>>::empty());
    } else if rem[i].len() == 0 {
        lemma_shuffles_from_len(rem, i + 1);
        assert(shuffles_from(rem, i) == shuffles_from(rem, i + 1));
    } else {
        let rem_dec = rem.update(i, rem[i].drop_first());
        lemma_total_from_update(rem, i, rem[i].drop_first(), 0);
        lemma_shuffles_len(rem_dec);
        lemma_shuffles_from_len(rem, i + 1);
        let nb = shuffles(rem_dec).len();
        assert forall|j: int| 0 <= j < shuffles_from(rem, i).len() implies (#[trigger] shuffles_from(
            rem,
            i,
        )[j]).len() == total_len(rem) by {
            if j < nb {
                assert(shuffles_from(rem, i)[j] == seq![rem[i][0]] + shuffles(rem_dec)[j]);
                assert(shuffles(rem_dec)[j].len() == total_len(rem_dec));
            } else {
                assert(shuffles_from(rem, i)[j] == shuffles_from(rem, i + 1)[j - nb]);
            }
        }
    }
}

/// Law: every statement of every interleaving names one of the scripts'
/// clients, so a pool with one connection per script always suffices and the
/// executor's defensive bounds check is logically unreachable.
pub proof fn lemma_shuffles_clients(rem: Seq<Seq<StmtView>>)
    requires
        tagged(rem),
    ensures
        forall|j: int, p: int|
            0 <= j < shuffles(rem).len() && 0 <= p < shuffles(rem)[j].len() ==> 0 <= (
            #[trigger] shuffles(rem)[j][p]).client_id < rem.len(),
    decreases total_len(rem), rem.len() + 1,
{
    if total_len(rem) == 0 {
        assert(shuffles(rem) == seq![Seq::<StmtView>::empty()]);
    } else {
        lemma_shuffles_from_clients(rem, 0);
        assert(shuffles(rem) == shuffles_from(rem, 0));
    }
}

proof fn lemma_shuffles_from_clients(rem: Seq<Seq<StmtView>>, i: int)
    requires
        tagged(rem),
        0 <= i,
    ensures
        forall|j: int, p: int|
            0 <= j < shuffles_from(rem, i).len() && 0 <= p < shuffles_from(rem, i)[j].len() ==> 0
                <= (#[trigger] shuffles_from(rem, i)[j][p]).client_id < rem.len(),
    decreases total_len(rem), rem.len() - i,
{
    if i >= rem.len() {
        assert(shuffles_from(rem, i) == Seq::<Seq<StmtView>>::empty());
    } else if rem[i].len() == 0 {
        lemma_shuffles_from_clients(rem, i + 1);
        assert(shuffles_from(rem, i) == shuffles_from(rem, i + 1));
    } else {
        let rem_dec = rem.update(i, rem[i].drop_first());
        lemma_total_from_update(rem, i, rem[i].drop_first(), 0);
        lemma_tagged_drop(rem, i);
        lemma_shuffles_clients(rem_dec);
        lemma_shuffles_from_clients(rem, i + 1);
        let nb = shuffles(rem_dec).len();
        assert forall|j: int, p: int|
            0 <= j < shuffles_from(rem, i).len() && 0 <= p < shuffles_from(rem, i)[j].len() implies 0
            <= (#[trigger] shuffles_from(rem, i)[j][p]).client_id < rem.len() by {
            if j < nb {
                let s = shuffles(rem_dec)[j];
                assert(shuffles_from(rem, i)[j] == seq![rem[i][0]] + s);
                if p == 0 {
                    assert(shuffles_from(rem, i)[j][0] == rem[i][0]);
                } else {
                    assert(shuffles_from(rem, i)[j][p] == s[p - 1]);
                }
            } else {
                assert(shuffles_from(rem, i)[j] == shuffles_from(rem, i + 1)[j - nb]);
            }
        }
    }
}

/// Law: a task whose elements are one of the interleavings of tagged scripts,
/// and whose declared client count is the script count, is well-formed: every
/// statement it carries names a pooled client index.
pub proof fn lemma_generated_task_wf(t: Task, rem: Seq<Seq<StmtView>>, j: int)
    requires
        tagged(rem),
        0 <= j < shuffles(rem).len(),
        t.elements() == shuffles(rem)[j],
        t.nb_clients == rem.len(),
    ensures
        t.wf(),
{
    lemma_shuffles_clients(rem);
}

/// Law: no duplicate interleavings — as full ordered statement sequences, the
/// generated interleavings are pairwise distinct.
pub proof fn lemma_shuffles_distinct(rem: Seq<Seq<StmtView>>)
    requires
        tagged(rem),
    ensures
        forall|p: int, q: int|
            0 <= p < q < shuffles(rem).len() ==> #[trigger] shuffles(rem)[p]
                != #[trigger] shuffles(rem)[q],
    decreases total_len(rem), rem.len() + 1,
{
    if total_len(rem) == 0 {
        assert(shuffles(rem) == seq![Seq::<StmtView>::empty()]);
    } else {
        lemma_shuffles_from_distinct(rem, 0);
        assert(shuffles(rem) == shuffles_from(rem, 0));
    }
}

proof fn lemma_shuffles_from_distinct(rem: Seq<Seq<StmtView>>, i: int)
    requires
        tagged(rem),
        0 <= i,
    ensures
        forall|p: int, q: int|
            0 <= p < q < shuffles_from(rem, i).len() ==> #[trigger] shuffles_from(rem, i)[p]
                != #[trigger] shuffles_from(rem, i)[q],
        forall|p: int|
            0 <= p < shuffles_from(rem, i).len() ==> {
                let s = #[trigger] shuffles_from(rem, i)[p];
                s.len() > 0 && s[0].client_id >= i
            },
    decreases total_len(rem), rem.len() - i,
{
    if i >= rem.len() {
        assert(shuffles_from(rem, i) == Seq::<Seq<StmtView>>::empty());
    } else if rem[i].len() == 0 {
        lemma_shuffles_from_distinct(rem, i + 1);
        assert(shuffles_from(rem, i) == shuffles_from(rem, i + 1));
    } else {
        let rem_dec = rem.update(i, rem[i].drop_first());
        lemma_total_from_update(rem, i, rem[i].drop_first(), 0);
        lemma_tagged_drop(rem, i);
        lemma_shuffles_distinct(rem_dec);
        lemma_shuffles_from_distinct(rem, i + 1);
        let nb = shuffles(rem_dec).len();
        assert forall|p: int| 0 <= p < shuffles_from(rem, i).len() implies {
            let s = #[trigger] shuffles_from(rem, i)[p];
            s.len() > 0 && s[0].client_id >= i
        } by {
            if p < nb {
                assert(shuffles_from(rem, i)[p] == seq![rem[i][0]] + shuffles(rem_dec)[p]);
                assert(shuffles_from(rem, i)[p][0] == rem[i][0]);
            } else {
                assert(shuffles_from(rem, i)[p] == shuffles_from(rem, i + 1)[p - nb]);
            }
        }
        assert forall|p: int, q: int|
            0 <= p < q < shuffles_from(rem, i).len() implies #[trigger] shuffles_from(rem, i)[p]
            != #[trigger] shuffles_from(rem, i)[q] by {
            let sp = shuffles_from(rem, i)[p];
            let sq = shuffles_from(rem, i)[q];
            if q < nb {
                assert(sp == seq![rem[i][0]] + shuffles(rem_dec)[p]);
                assert(sq == seq![rem[i][0]] + shuffles(rem_dec)[q]);
                if sp == sq {
                    assert(sp.drop_first() =~= shuffles(rem_dec)[p]);
                    assert(sq.drop_first() =~= shuffles(rem_dec)[q]);
                    assert(shuffles(rem_dec)[p] == shuffles(rem_dec)[q]);
                    assert(false);
                }
            } else if p < nb {
                assert(sp == seq![rem[i][0]] + shuffles(rem_dec)[p]);
                assert(sp[0] == rem[i][0]);
                assert(sp[0].client_id == i);
                assert(sq == shuffles_from(rem, i + 1)[q - nb]);
                assert(sq[0].client_id >= i + 1);
            } else {
                assert(sp == shuffles_from(rem, i + 1)[p - nb]);
                assert(sq == shuffles_from(rem, i + 1)[q - nb]);
            }
        }
    }
}

/// Law: order preservation per client — in every interleaving, the statements
/// of client `c`, kept in interleaving order, are exactly script `c`,
/// unchanged in order and content.
pub proof fn lemma_shuffles_filter(rem: Seq<Seq<StmtView>>, c: int)
    requires
        tagged(rem),
        0 <= c < rem.len(),
    ensures
        forall|j: int|
            0 <= j < shuffles(rem).len() ==> (#[trigger] shuffles(rem)[j]).filter(
                |e: StmtView| e.client_id == c,
            ) == rem[c],
    decreases total_len(rem), rem.len() + 1,
{
    let pred = |e: StmtView| e.client_id == c;
    reveal(Seq::filter);
    if total_len(rem) == 0 {
        assert(shuffles(rem) == seq![Seq::<StmtView>::empty()]);
        lemma_total_from_monotone(rem, 0, c);
        lemma_total_from_bounds(rem, c);
        assert(rem[c] =~= Seq::<StmtView>::empty());
        assert(Seq::<StmtView>::empty().filter(pred) == Seq::<StmtView>::empty());
    } else {
        lemma_shuffles_from_filter(rem, c, 0);
        assert(shuffles(rem) == shuffles_from(rem, 0));
    }
}

proof fn lemma_shuffles_from_filter(rem: Seq<Seq<StmtView>>, c: int, i: int)
    requires
        tagged(rem),
        0 <= c < rem.len(),
        0 <= i,
    ensures
        forall|j: int|
            0 <= j < shuffles_from(rem, i).len() ==> (#[trigger] shuffles_from(rem, i)[j]).filter(
                |e: StmtView| e.client_id == c,
            ) == rem[c],
    decreases total_len(rem), rem.len() - i,
{
    let pred = |e: StmtView| e.client_id == c;
    if i >= rem.len() {
        assert(shuffles_from(rem, i) == Seq::<Seq<StmtView>>::empty());
    } else if rem[i].len() == 0 {
        lemma_shuffles_from_filter(rem, c, i + 1);
        assert(shuffles_from(rem, i) == shuffles_from(rem, i + 1));
    } else {
        let rem_dec = rem.update(i, rem[i].drop_first());
        let head = rem[i][0];
        lemma_total_from_update(rem, i, rem[i].drop_first(), 0);
        lemma_tagged_drop(rem, i);
        lemma_shuffles_filter(rem_dec, c);
        lemma_shuffles_from_filter(rem, c, i + 1);
        let nb = shuffles(rem_dec).len();
        assert forall|j: int| 0 <= j < shuffles_from(rem, i).len() implies (
        #[trigger] shuffles_from(rem, i)[j]).filter(pred) == rem[c] by {
            if j < nb {
                let s = shuffles(rem_dec)[j];
                assert(shuffles_from(rem, i)[j] == seq![head] + s);
                s.lemma_filter_prepend(head, pred);
                assert(s.filter(pred) == rem_dec[c]);
                assert(head.client_id == i);
                if c == i {
                    assert(pred(head));
                    assert(seq![head] + rem[c].drop_first() =~= rem[c]);
                } else {
                    assert(!pred(head));
                    assert(Seq::<StmtView>::empty() + rem[c] =~= rem[c]);
                }
            } else {
                assert(shuffles_from(rem, i)[j] == shuffles_from(rem, i + 1)[j - nb]);
            }
        }
    }
}

/// n factorial.
pub open spec fn fact(n: nat) -> nat
    decreases n,
{
    if n == 0 {
        1
    } else {
        n * fact((n - 1) as nat)
    }
}

/// Product of the factorials of the lengths of the scripts `rem[i..]`.
pub open spec fn prod_fact_from(rem: Seq<Seq<StmtView>>, i: int) -> nat
    decreases rem.len() - i,
{
    if i < 0 || i >= rem.len() {
        1
    } else {
        fact(rem[i].len()) * prod_fact_from(rem, i + 1)
    }
}

/// Product of the factorials of all the script lengths: n1! * n2! * ... * nk!.
pub open spec fn prod_fact(rem: Seq<Seq<StmtView>>) -> nat {
    prod_fact_from(rem, 0)
}

proof fn lemma_fact_pos(n: nat)
    ensures
        fact(n) >= 1,
    decreases n,
{
    if n > 0 {
        lemma_fact_pos((n - 1) as nat);
        assert(n * fact((n - 1) as nat) >= n * 1) by (nonlinear_arith)
            requires
                fact((n - 1) as nat) >= 1,
                n >= 1,
        ;
    }
}

proof fn lemma_prod_fact_pos(rem: Seq<Seq<StmtView>>, j: int)
    requires
        0 <= j,
    ensures
        prod_fact_from(rem, j) >= 1,
    decreases rem.len() - j,
{
    if j < rem.len() {
        lemma_fact_pos(rem[j].len());
        lemma_prod_fact_pos(rem, j + 1);
        assert(fact(rem[j].len()) * prod_fact_from(rem, j + 1) >= 1) by (nonlinear_arith)
            requires
                fact(rem[j].len()) >= 1,
                prod_fact_from(rem, j + 1) >= 1,
        ;
    }
}

proof fn lemma_prod_fact_all_empty(rem: Seq<Seq<StmtView>>, j: int)
    requires
        0 <= j,
        total_from(rem, j) == 0,
    ensures
        prod_fact_from(rem, j) == 1,
    decreases rem.len() - j,
{
    if j < rem.len() {
        assert(rem[j].len() == 0);
        assert(fact(0) == 1);
        lemma_prod_fact_all_empty(rem, j + 1);
        assert(prod_fact_from(rem, j) == fact(rem[j].len()) * prod_fact_from(rem, j + 1));
    }
}

proof fn lemma_prod_fact_suffix_update(rem: Seq<Seq<StmtView>>, i: int, v: Seq<StmtView>, j: int)
    requires
        0 <= i < rem.len(),
        i < j,
    ensures
        prod_fact_from(rem.update(i, v), j) == prod_fact_from(rem, j),
    decreases rem.len() - j,
{
    if j < rem.len() {
        lemma_prod_fact_suffix_update(rem, i, v, j + 1);
        assert(rem.update(i, v)[j] == rem[j]);
    }
}

proof fn lemma_prod_fact_drop(rem: Seq<Seq<StmtView>>, i: int, j: int)
    requires
        0 <= j <= i < rem.len(),
        rem[i].len() > 0,
    ensures
        prod_fact_from(rem, j) == rem[i].len() * prod_fact_from(
            rem.update(i, rem[i].drop_first()),
            j,
        ),
    decreases i - j,
{
    let upd = rem.update(i, rem[i].drop_first());
    let ni = rem[i].len();
    if j == i {
        lemma_prod_fact_suffix_update(rem, i, rem[i].drop_first(), i + 1);
        let p = prod_fact_from(rem, i + 1);
        assert(upd[i].len() == ni - 1);
        assert(fact(ni) == ni * fact((ni - 1) as nat));
        assert((ni * fact((ni - 1) as nat)) * p == ni * (fact((ni - 1) as nat) * p))
            by (nonlinear_arith);
    } else {
        lemma_prod_fact_drop(rem, i, j + 1);
        let a = fact(rem[j].len());
        let b = prod_fact_from(upd, j + 1);
        assert(upd[j] == rem[j]);
        assert(a * (ni * b) == ni * (a * b)) by (nonlinear_arith);
    }
}

/// Law: the count of interleavings is the multinomial coefficient
/// N! / (n1! * ... * nk!), stated multiplicatively so that no division is
/// involved: count * n1! * ... * nk! == N!.
pub proof fn lemma_shuffles_count(rem: Seq<Seq<StmtView>>)
    ensures
        shuffles(rem).len() * prod_fact(rem) == fact(total_len(rem)),
    decreases total_len(rem), rem.len() + 1,
{
    if total_len(rem) == 0 {
        assert(shuffles(rem) == seq![Seq::<StmtView>::empty()]);
        lemma_prod_fact_all_empty(rem, 0);
    } else {
        lemma_shuffles_from_count(rem, 0);
        assert(shuffles(rem) == shuffles_from(rem, 0));
        let t = total_len(rem);
        let t1 = (t - 1) as nat;
        assert(fact(t) == t * fact(t1));
        assert(fact(t1) * t == t * fact(t1)) by (nonlinear_arith);
    }
}

proof fn lemma_shuffles_from_count(rem: Seq<Seq<StmtView>>, i: int)
    requires
        0 <= i,
        total_len(rem) > 0,
    ensures
        shuffles_from(rem, i).len() * prod_fact(rem) == fact((total_len(rem) - 1) as nat)
            * total_from(rem, i),
    decreases total_len(rem), rem.len() - i,
{
    let t1 = (total_len(rem) - 1) as nat;
    if i >= rem.len() {
        assert(shuffles_from(rem, i) == Seq::<Seq<StmtView>>::empty());
        assert(total_from(rem, i) == 0);
        assert(fact(t1) * 0 == 0) by (nonlinear_arith);
    } else if rem[i].len() == 0 {
        lemma_shuffles_from_count(rem, i + 1);
        assert(shuffles_from(rem, i) == shuffles_from(rem, i + 1));
        assert(total_from(rem, i) == total_from(rem, i + 1));
    } else {
        let rem_dec = rem.update(i, rem[i].drop_first());
        let ni = rem[i].len();
        lemma_total_from_update(rem, i, rem[i].drop_first(), 0);
        assert(total_len(rem_dec) == total_len(rem) - 1);
        lemma_shuffles_count(rem_dec);
        lemma_shuffles_from_count(rem, i + 1);
        lemma_prod_fact_drop(rem, i, 0);
        let cd = shuffles(rem_dec).len();
        let cs = shuffles_from(rem, i + 1).len();
        let pd = prod_fact(rem_dec);
        let prod = prod_fact(rem);
        let rest = total_from(rem, i + 1);
        assert(shuffles_from(rem, i).len() == cd + cs);
        assert((cd + cs) * prod == cd * prod + cs * prod) by (nonlinear_arith);
        assert(cd * (ni * pd) == ni * (cd * pd)) by (nonlinear_arith);
        assert(fact(t1) * (ni + rest) == ni * fact(t1) + fact(t1) * rest) by (nonlinear_arith);
        assert(total_from(rem, i) == ni + rest);
    }
}

/// Law: the count of interleavings, in quotient form: count == N! divided by
/// n1! * ... * nk! (the division is exact).
pub proof fn lemma_shuffles_count_div(rem: Seq<Seq<StmtView>>)
    ensures
        prod_fact(rem) >= 1,
        shuffles(rem).len() == fact(total_len(rem)) / prod_fact(rem),
{
    lemma_shuffles_count(rem);
    lemma_prod_fact_pos(rem, 0);
    vstd::arithmetic::div_mod::lemma_div_by_multiple(
        shuffles(rem).len() as int,
        prod_fact(rem) as int,
    );
}

} // verus!
