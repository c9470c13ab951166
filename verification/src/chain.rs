//! The mathematics of the chain: what a corpus says about which token
//! follows which, and how a draw selects from a weighted distribution.
//!
//! Everything here is ghost code: definitions, and proofs of what follows
//! from them. A context is `None` at the start of a sequence and `Some(t)`
//! behind the token `t`. A distribution is a sequence of tokens with their
//! weights, in the order in which the tokens were first seen.

use vstd::prelude::*;

verus! {

/// The context in which the token at position `i` of `corpus` stands: the
/// start of the sequence for the first token, the token before it for every
/// other.
pub open spec fn context_at<V>(corpus: Seq<V>, i: int) -> Option<V> {
    if i == 0 {
        None
    } else {
        Some(corpus[i - 1])
    }
}

/// The tokens of `corpus` that stand in the context `ctx`, in corpus order.
/// Its length is the number of times that `ctx` was followed by a token.
pub open spec fn successors<V>(corpus: Seq<V>, ctx: Option<V>) -> Seq<V>
    decreases corpus.len(),
{
    if corpus.len() == 0 {
        Seq::empty()
    } else if context_at(corpus, corpus.len() - 1) == ctx {
        successors(corpus.drop_last(), ctx).push(corpus.last())
    } else {
        successors(corpus.drop_last(), ctx)
    }
}

/// The different items of `q`, each once, in the order of their first
/// appearance.
pub open spec fn distinct<V>(q: Seq<V>) -> Seq<V>
    decreases q.len(),
{
    if q.len() == 0 {
        Seq::empty()
    } else if distinct(q.drop_last()).contains(q.last()) {
        distinct(q.drop_last())
    } else {
        distinct(q.drop_last()).push(q.last())
    }
}

/// How often `t` occurs in `q`.
pub open spec fn occurrences<V>(q: Seq<V>, t: V) -> nat
    decreases q.len(),
{
    if q.len() == 0 {
        0
    } else if q.last() == t {
        occurrences(q.drop_last(), t) + 1
    } else {
        occurrences(q.drop_last(), t)
    }
}

/// The distribution that the observations `q` amount to: every different
/// item in order of first appearance, weighted by how often it occurs.
pub open spec fn tally<V>(q: Seq<V>) -> Seq<(V, nat)> {
    distinct(q).map_values(|t: V| (t, occurrences(q, t)))
}

/// The place of the entry of `d` that holds `t`, if there is one.
pub open spec fn position<V>(d: Seq<(V, nat)>, t: V) -> Option<int> {
    if exists|k: int| 0 <= k < d.len() && d[k].0 == t {
        Some(choose|k: int| 0 <= k < d.len() && d[k].0 == t)
    } else {
        None
    }
}

/// The distribution `d` after one more sighting of `t`: the weight of its
/// entry goes up by one, or a new entry of weight one is added at the end.
pub open spec fn observe<V>(d: Seq<(V, nat)>, t: V) -> Seq<(V, nat)> {
    match position(d, t) {
        Some(k) => d.update(k, (t, d[k].1 + 1)),
        None => d.push((t, 1)),
    }
}

/// The transition table of `corpus`: every context that some token follows,
/// with the distribution of the tokens that follow it.
pub open spec fn transitions<V>(corpus: Seq<V>) -> Map<Option<V>, Seq<(V, nat)>> {
    Map::new(
        |ctx: Option<V>| successors(corpus, ctx).len() > 0,
        |ctx: Option<V>| tally(successors(corpus, ctx)),
    )
}

/// The distribution that `table` holds for `ctx`: empty where it holds none.
pub open spec fn distribution<V>(table: Map<Option<V>, Seq<(V, nat)>>, ctx: Option<V>) -> Seq<
    (V, nat),
> {
    if table.dom().contains(ctx) {
        table[ctx]
    } else {
        Seq::empty()
    }
}

/// The sum of the weights of `d`.
pub open spec fn total_weight<V>(d: Seq<(V, nat)>) -> nat
    decreases d.len(),
{
    if d.len() == 0 {
        0
    } else {
        total_weight(d.drop_last()) + d.last().1
    }
}

/// The entry of `d` that `draw` selects: the first one at which the running
/// sum of the weights exceeds `draw`. None where `draw` is not below the
/// total weight.
pub open spec fn selected<V>(d: Seq<(V, nat)>, draw: nat) -> Option<int>
    decreases d.len(),
{
    if d.len() == 0 || draw >= total_weight(d) {
        None
    } else if draw >= total_weight(d.drop_last()) {
        Some(d.len() - 1)
    } else {
        selected(d.drop_last(), draw)
    }
}

/// Where generation goes on from `ctx`: from `ctx` itself where the table has
/// a distribution for it, from the start of a sequence where it has none.
pub open spec fn settle<V>(table: Map<Option<V>, Seq<(V, nat)>>, ctx: Option<V>) -> Option<V> {
    if table.dom().contains(ctx) {
        ctx
    } else {
        None
    }
}

/// One step of generation from `ctx` with the draw `draw`: the token that
/// comes out, if any, and the context after the step.
pub open spec fn step<V>(table: Map<Option<V>, Seq<(V, nat)>>, ctx: Option<V>, draw: nat) -> (
    Option<V>,
    Option<V>,
) {
    let from = settle(table, ctx);
    let d = distribution(table, from);
    match selected(d, draw) {
        Some(i) => (Some(d[i].0), Some(d[i].0)),
        None => (None, from),
    }
}

/// The tokens that come out of stepping from `ctx` with each of `draws` in
/// turn, up to the first step that yields none.
pub open spec fn walk<V>(table: Map<Option<V>, Seq<(V, nat)>>, ctx: Option<V>, draws: Seq<nat>) -> Seq<
    V,
>
    decreases draws.len(),
{
    if draws.len() == 0 {
        Seq::empty()
    } else {
        match step(table, ctx, draws[0]) {
            (Some(t), next) => seq![t] + walk(table, next, draws.drop_first()),
            (None, _) => Seq::empty(),
        }
    }
}

/// The context after stepping from `ctx` with each of `draws` in turn, up to
/// and including the first step that yields no token.
pub open spec fn walk_end<V>(
    table: Map<Option<V>, Seq<(V, nat)>>,
    ctx: Option<V>,
    draws: Seq<nat>,
) -> Option<V>
    decreases draws.len(),
{
    if draws.len() == 0 {
        ctx
    } else {
        match step(table, ctx, draws[0]) {
            (Some(_), next) => walk_end(table, next, draws.drop_first()),
            (None, next) => next,
        }
    }
}

/// Every item of `q` is in `distinct(q)`, nothing else is, and nothing is in
/// it twice.
pub proof fn lemma_distinct<V>(q: Seq<V>)
    ensures
        distinct(q).no_duplicates(),
        forall|t: V| distinct(q).contains(t) <==> q.contains(t),
    decreases q.len(),
{
    if q.len() > 0 {
        let front = q.drop_last();
        let last = q.last();
        lemma_distinct(front);
        assert(q == front.push(last));
        assert forall|t: V| distinct(q).contains(t) <==> q.contains(t) by {
            lemma_contains_push(front, last, t);
            if !distinct(front).contains(last) {
                lemma_contains_push(distinct(front), last, t);
            }
        }
    }
}

/// What `s.push(a)` holds: what `s` holds, and `a`.
proof fn lemma_contains_push<V>(s: Seq<V>, a: V, t: V)
    ensures
        s.push(a).contains(t) <==> s.contains(t) || t == a,
{
    let p = s.push(a);
    if s.contains(t) {
        let i = s.index_of(t);
        assert(p[i] == t);
    }
    if t == a {
        assert(p[s.len() as int] == t);
    }
    if p.contains(t) {
        let i = p.index_of(t);
        if i < s.len() {
            assert(s[i] == t);
        }
    }
}

/// An item occurs in `q` at least once exactly where `q` holds it.
pub proof fn lemma_occurrences<V>(q: Seq<V>, t: V)
    ensures
        occurrences(q, t) > 0 <==> q.contains(t),
        occurrences(q, t) <= q.len(),
    decreases q.len(),
{
    if q.len() > 0 {
        lemma_occurrences(q.drop_last(), t);
        assert(q == q.drop_last().push(q.last()));
        lemma_contains_push(q.drop_last(), q.last(), t);
    }
}

/// The entries of a tally hold different tokens, each with the number of its
/// occurrences, which is at least one.
pub proof fn lemma_tally_entries<V>(q: Seq<V>)
    ensures
        tally(q).len() == distinct(q).len(),
        forall|k: int|
            0 <= k < tally(q).len() ==> {
                let e = #[trigger] tally(q)[k];
                e.0 == distinct(q)[k] && e.1 == occurrences(q, e.0) && e.1 >= 1
            },
        forall|j: int, k: int|
            0 <= j < k < tally(q).len() ==> (#[trigger] tally(q)[j]).0 != (#[trigger] tally(q)[k]).0,
        tally(q).len() > 0 <==> q.len() > 0,
{
    lemma_distinct(q);
    assert forall|k: int| 0 <= k < tally(q).len() implies {
        let e = #[trigger] tally(q)[k];
        e.0 == distinct(q)[k] && e.1 == occurrences(q, e.0) && e.1 >= 1
    } by {
        assert(distinct(q).contains(distinct(q)[k]));
        lemma_occurrences(q, distinct(q)[k]);
    }
    if q.len() > 0 {
        assert(q.contains(q[0]));
        assert(distinct(q).contains(q[0]));
    }
}

/// Seeing one more token changes the tally as `observe` says.
pub proof fn lemma_tally_push<V>(q: Seq<V>, t: V)
    ensures
        tally(q.push(t)) == observe(tally(q), t),
{
    let p = q.push(t);
    let d = distinct(q);
    assert(p.drop_last() == q);
    lemma_distinct(q);
    lemma_tally_entries(q);
    lemma_occurrences(q, t);
    if d.contains(t) {
        let i = d.index_of(t);
        assert(tally(q)[i].0 == t);
        let k = position(tally(q), t)->0;
        assert(d[k] == t);
        assert(k == i);
        assert(tally(p) =~= tally(q).update(k, (t, tally(q)[k].1 + 1)));
    } else {
        assert(!q.contains(t));
        if position(tally(q), t) is Some {
            let k = position(tally(q), t)->0;
            assert(d[k] == t);
        }
        assert(tally(p) =~= tally(q).push((t, 1)));
    }
}

/// The total weight of a distribution with one entry replaced.
proof fn lemma_total_update<V>(d: Seq<(V, nat)>, k: int, e: (V, nat))
    requires
        0 <= k < d.len(),
    ensures
        total_weight(d.update(k, e)) == total_weight(d) - d[k].1 + e.1,
    decreases d.len(),
{
    let u = d.update(k, e);
    if k == d.len() - 1 {
        assert(u.drop_last() == d.drop_last());
    } else {
        lemma_total_update(d.drop_last(), k, e);
        assert(u.drop_last() == d.drop_last().update(k, e));
    }
}

/// No entry weighs more than all entries together.
pub proof fn lemma_weight_bounded<V>(d: Seq<(V, nat)>, k: int)
    requires
        0 <= k < d.len(),
    ensures
        d[k].1 <= total_weight(d),
    decreases d.len(),
{
    if k < d.len() - 1 {
        lemma_weight_bounded(d.drop_last(), k);
    }
}

/// One more sighting adds one to the total weight.
pub proof fn lemma_total_observe<V>(d: Seq<(V, nat)>, t: V)
    ensures
        total_weight(observe(d, t)) == total_weight(d) + 1,
{
    match position(d, t) {
        Some(k) => {
            lemma_total_update(d, k, (t, d[k].1 + 1));
        },
        None => {
            assert(d.push((t, 1nat)).drop_last() == d);
        },
    }
}

/// The weights of a tally add up to the number of observations.
pub proof fn lemma_total_tally<V>(q: Seq<V>)
    ensures
        total_weight(tally(q)) == q.len(),
    decreases q.len(),
{
    if q.len() == 0 {
        assert(distinct(q).len() == 0);
    } else {
        lemma_total_tally(q.drop_last());
        assert(q == q.drop_last().push(q.last()));
        lemma_tally_push(q.drop_last(), q.last());
        lemma_total_observe(tally(q.drop_last()), q.last());
    }
}

/// What one more token at the end of a corpus adds to the successors of a
/// context: itself, in the context of the token that was last, and nothing
/// in any other.
pub proof fn lemma_successors_push<V>(corpus: Seq<V>, t: V, ctx: Option<V>)
    ensures
        successors(corpus.push(t), ctx) == if ctx == context_at(corpus.push(t), corpus.len() as int) {
            successors(corpus, ctx).push(t)
        } else {
            successors(corpus, ctx)
        },
        context_at(corpus.push(t), corpus.len() as int) == if corpus.len() == 0 {
            None
        } else {
            Some(corpus.last())
        },
{
    assert(corpus.push(t).drop_last() == corpus);
}

/// A context is followed at most as often as the corpus is long, and only a
/// token of the corpus is followed at all.
pub proof fn lemma_successors_bounded<V>(corpus: Seq<V>, ctx: Option<V>)
    ensures
        successors(corpus, ctx).len() <= corpus.len(),
        ctx matches Some(v) ==> successors(corpus, ctx).len() > 0 ==> corpus.contains(v),
    decreases corpus.len(),
{
    if corpus.len() > 0 {
        lemma_successors_bounded(corpus.drop_last(), ctx);
        if let Some(v) = ctx {
            if corpus.drop_last().contains(v) {
                let i = corpus.drop_last().index_of(v);
                assert(corpus[i] == v);
            }
            if context_at(corpus, corpus.len() - 1) == ctx {
                assert(corpus[corpus.len() - 2] == v);
            }
        }
    }
}

/// At the start of a sequence stands the first token of the corpus, once.
pub proof fn lemma_successors_start<V>(corpus: Seq<V>)
    ensures
        successors(corpus, None) == if corpus.len() > 0 {
            seq![corpus[0]]
        } else {
            Seq::empty()
        },
    decreases corpus.len(),
{
    if corpus.len() > 0 {
        lemma_successors_start(corpus.drop_last());
    }
}

/// Weight conservation: the weights that the table of a corpus holds for a
/// context add up to the number of times that the context was followed by a
/// token in the corpus.
pub proof fn lemma_weight_conservation<V>(corpus: Seq<V>, ctx: Option<V>)
    ensures
        total_weight(distribution(transitions(corpus), ctx)) == successors(corpus, ctx).len(),
        transitions(corpus).dom().contains(ctx) <==> successors(corpus, ctx).len() > 0,
{
    lemma_total_tally(successors(corpus, ctx));
}

/// The running sums of the weights do not go down.
pub proof fn lemma_total_monotonic<V>(d: Seq<(V, nat)>, i: int, j: int)
    requires
        0 <= i <= j <= d.len(),
    ensures
        total_weight(d.take(i)) <= total_weight(d.take(j)),
        total_weight(d.take(d.len() as int)) == total_weight(d),
        j < d.len() ==> total_weight(d.take(j + 1)) == total_weight(d.take(j)) + d[j].1,
    decreases j - i,
{
    assert(d.take(d.len() as int) == d);
    if j < d.len() {
        assert(d.take(j + 1).drop_last() == d.take(j));
    }
    if i < j {
        lemma_total_monotonic(d, i, j - 1);
        assert(d.take(j).drop_last() == d.take(j - 1));
    }
}

/// A draw selects the entry within whose share of the running sums it falls,
/// and no entry where it is not below the total weight. The draws that select
/// an entry are therefore as many as its weight: selection is proportional.
pub proof fn lemma_selected<V>(d: Seq<(V, nat)>, draw: nat)
    ensures
        match selected(d, draw) {
            Some(i) => 0 <= i < d.len() && total_weight(d.take(i)) <= draw < total_weight(d.take(i))
                + d[i].1,
            None => draw >= total_weight(d),
        },
    decreases d.len(),
{
    if d.len() > 0 && draw < total_weight(d) {
        if draw >= total_weight(d.drop_last()) {
            assert(d.take(d.len() - 1) == d.drop_last());
        } else {
            lemma_selected(d.drop_last(), draw);
            let i = selected(d.drop_last(), draw)->0;
            assert(d.drop_last().take(i) == d.take(i));
        }
    }
}

/// The entry within whose share a draw falls is the one that it selects.
pub proof fn lemma_selected_unique<V>(d: Seq<(V, nat)>, draw: nat, i: int)
    requires
        0 <= i < d.len(),
        total_weight(d.take(i)) <= draw < total_weight(d.take(i)) + d[i].1,
    ensures
        selected(d, draw) == Some(i),
{
    lemma_selected(d, draw);
    lemma_total_monotonic(d, i, i);
    lemma_total_monotonic(d, i + 1, d.len() as int);
    match selected(d, draw) {
        Some(j) => {
            if j < i {
                lemma_total_monotonic(d, j, j);
                lemma_total_monotonic(d, j + 1, i);
            } else if i < j {
                lemma_total_monotonic(d, i + 1, j);
            }
        },
        None => {},
    }
}

/// Generation from a non-empty corpus never runs dry: wherever it stands,
/// the distribution that the next step draws from has weight, and every draw
/// below that weight hands out a token. From an empty corpus no step hands
/// out anything.
pub proof fn lemma_dead_end_recovery<V>(corpus: Seq<V>, ctx: Option<V>)
    ensures
        corpus.len() > 0 ==> total_weight(
            distribution(transitions(corpus), settle(transitions(corpus), ctx)),
        ) > 0,
        forall|draw: nat|
            (#[trigger] step(transitions(corpus), ctx, draw)).0 is Some <==> draw < total_weight(
                distribution(transitions(corpus), settle(transitions(corpus), ctx)),
            ),
        corpus.len() == 0 ==> forall|draw: nat| (#[trigger] step(transitions(corpus), ctx, draw)).0 is None,
{
    let table = transitions(corpus);
    let d = distribution(table, settle(table, ctx));
    lemma_successors_start(corpus);
    lemma_weight_conservation(corpus, settle(table, ctx));
    assert forall|draw: nat| (#[trigger] step(table, ctx, draw)).0 is Some <==> draw < total_weight(
        d,
    ) by {
        lemma_selected(d, draw);
        if draw < total_weight(d) && selected(d, draw) is None {
        } else if let Some(i) = selected(d, draw) {
            lemma_total_monotonic(d, i, i);
            lemma_total_monotonic(d, i + 1, d.len() as int);
        }
    }
    if corpus.len() == 0 {
        lemma_successors_bounded(corpus, ctx);
    }
}

/// A walk in which every step gave a token goes on by one more step.
pub proof fn lemma_walk_extend<V>(
    table: Map<Option<V>, Seq<(V, nat)>>,
    ctx: Option<V>,
    draws: Seq<nat>,
    draw: nat,
)
    requires
        walk(table, ctx, draws).len() == draws.len(),
    ensures
        ({
            let (token, next) = step(table, walk_end(table, ctx, draws), draw);
            &&& walk_end(table, ctx, draws.push(draw)) == next
            &&& walk(table, ctx, draws.push(draw)) == match token {
                Some(t) => walk(table, ctx, draws).push(t),
                None => walk(table, ctx, draws),
            }
        }),
    decreases draws.len(),
{
    let more = draws.push(draw);
    if draws.len() == 0 {
        let (token, next) = step(table, ctx, draw);
        assert(more[0] == draw);
        assert(more.drop_first() =~= Seq::empty());
        assert(walk(table, next, more.drop_first()) =~= Seq::empty());
        assert(walk_end(table, next, more.drop_first()) == next);
        if let Some(t) = token {
            assert(walk(table, ctx, more) =~= walk(table, ctx, draws).push(t));
        }
    } else {
        let (token, next) = step(table, ctx, draws[0]);
        assert(more[0] == draws[0]);
        assert(more.drop_first() =~= draws.drop_first().push(draw));
        assert(token is Some);
        lemma_walk_extend(table, next, draws.drop_first(), draw);
        let (last, end) = step(table, walk_end(table, ctx, draws), draw);
        if let Some(t) = last {
            assert(walk(table, ctx, more) =~= walk(table, ctx, draws).push(t));
        }
    }
}

/// Generation is a function of the corpus, the context and the draws: two
/// runs that replay the same draws over the same corpus give the same tokens.
pub proof fn lemma_replay_deterministic<V>(
    corpus: Seq<V>,
    ctx: Option<V>,
    draws: Seq<nat>,
    first: Seq<V>,
    second: Seq<V>,
)
    requires
        first == walk(transitions(corpus), ctx, draws),
        second == walk(transitions(corpus), ctx, draws),
    ensures
        first == second,
{
}

} // verus!
