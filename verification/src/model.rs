//! The model: the transition table of a corpus, held ready for sampling.

use crate::chain::{
    distribution, lemma_selected, lemma_selected_unique, lemma_successors_bounded,
    lemma_successors_push, lemma_successors_start, lemma_tally_entries, lemma_tally_push,
    lemma_total_monotonic, lemma_total_tally, lemma_walk_extend, lemma_weight_bounded,
    lemma_weight_conservation, observe,
    position, selected, settle, step, successors, tally, total_weight, transitions, walk,
    walk_end,
};
use crate::random::RandomSource;
use vstd::prelude::*;

verus! {

/// What a model asks of its tokens: that two of them can be told apart. The
/// view of a token is the value that it is compared by.
pub trait Token: View + Sized {
    /// Whether `self` and `other` are the same token.
    fn same(&self, other: &Self) -> (b: bool)
        ensures
            b == (self@ == other@),
    ;
}

impl Token for String {
    fn same(&self, other: &Self) -> (b: bool) {
        *self == *other
    }
}

impl Token for char {
    fn same(&self, other: &Self) -> (b: bool) {
        *self == *other
    }
}

impl Token for u64 {
    fn same(&self, other: &Self) -> (b: bool) {
        *self == *other
    }
}

/// The views of a sequence of tokens.
pub open spec fn views<T: Token>(tokens: Seq<T>) -> Seq<T::V> {
    tokens.map_values(|t: T| t@)
}

/// The view of a token that was handed out, if one was.
pub open spec fn view_of<T: Token>(token: Option<&T>) -> Option<T::V> {
    match token {
        Some(t) => Some(t@),
        None => None,
    }
}

/// The views of the tokens that were handed out.
pub open spec fn views_of<T: Token>(tokens: Seq<&T>) -> Seq<T::V> {
    tokens.map_values(|t: &T| t@)
}

/// The distribution that a list of tokens with their weights stands for.
pub open spec fn weighted<T: Token>(entries: Seq<(&T, u64)>) -> Seq<(T::V, nat)> {
    entries.map_values(|e: (&T, u64)| (e.0@, e.1 as nat))
}

/// A sequence of draws as numbers.
pub open spec fn draws_of(draws: Seq<u64>) -> Seq<nat> {
    draws.map_values(|d: u64| d as nat)
}

/// The context that stands for a place among the tokens.
spec fn context_of<T: Token>(tokens: Seq<T>, place: Option<usize>) -> Option<T::V> {
    match place {
        Some(i) => Some(tokens[i as int]@),
        None => None,
    }
}

/// One entry of a stored distribution: a token, by its place among the
/// model's tokens, and the number of times it was seen.
#[derive(Clone, Copy)]
struct Entry {
    token: usize,
    weight: u64,
}

/// The distribution that a stored row stands for.
spec fn reading<T: Token>(tokens: Seq<T>, row: Seq<Entry>) -> Seq<(T::V, nat)> {
    row.map_values(|e: Entry| (tokens[e.token as int]@, e.weight as nat))
}

/// A stored row is in order: its entries name tokens of the model, no token
/// twice, each with a weight of at least one, and the weights add up to a
/// number that fits.
spec fn row_ok<T: Token>(tokens: Seq<T>, row: Seq<Entry>) -> bool {
    &&& forall|k: int| 0 <= k < row.len() ==> (#[trigger] row[k]).token < tokens.len() && row[k].weight >= 1
    &&& forall|j: int, k: int|
        0 <= j < k < row.len() ==> (#[trigger] row[j]).token != (#[trigger] row[k]).token
    &&& total_weight(reading(tokens, row)) <= usize::MAX
}

/// The place of the token with the view `v` among `tokens`, if it is there.
spec fn lookup<T: Token>(tokens: Seq<T>, v: T::V) -> Option<int> {
    if exists|i: int| 0 <= i < tokens.len() && tokens[i]@ == v {
        Some(choose|i: int| 0 <= i < tokens.len() && tokens[i]@ == v)
    } else {
        None
    }
}

/// The distribution stored for the context `ctx`: empty for a token that
/// the model does not know.
spec fn stored<T: Token>(
    tokens: Seq<T>,
    first: Seq<Entry>,
    rows: Seq<Vec<Entry>>,
    ctx: Option<T::V>,
) -> Seq<(T::V, nat)> {
    match ctx {
        None => reading(tokens, first),
        Some(v) => match lookup(tokens, v) {
            Some(i) => reading(tokens, rows[i]@),
            None => Seq::empty(),
        },
    }
}

/// The table that the stored parts hold: every context for which something
/// is stored, with its distribution.
spec fn model_table<T: Token>(tokens: Seq<T>, first: Seq<Entry>, rows: Seq<Vec<Entry>>) -> Map<
    Option<T::V>,
    Seq<(T::V, nat)>,
> {
    Map::new(
        |ctx: Option<T::V>| stored(tokens, first, rows, ctx).len() > 0,
        |ctx: Option<T::V>| stored(tokens, first, rows, ctx),
    )
}

/// The stored parts fit together: one row for each token, no token twice,
/// every row in order.
spec fn fitting<T: Token>(tokens: Seq<T>, first: Seq<Entry>, rows: Seq<Vec<Entry>>) -> bool {
    &&& rows.len() == tokens.len()
    &&& forall|i: int, j: int|
        0 <= i < j < tokens.len() ==> (#[trigger] tokens[i])@ != (#[trigger] tokens[j])@
    &&& row_ok(tokens, first)
    &&& forall|i: int| 0 <= i < rows.len() ==> row_ok(tokens, (#[trigger] rows[i])@)
}

/// The parts of a model fit together, and a model that holds any token
/// holds one that follows the start of a sequence.
spec fn well_formed<T: Token>(tokens: Seq<T>, first: Seq<Entry>, rows: Seq<Vec<Entry>>) -> bool {
    &&& fitting(tokens, first, rows)
    &&& first.len() == 0 ==> tokens.len() == 0
}

/// A Markov model of order one over tokens of type `T`: for the start of a
/// sequence and for every token, the tokens that were seen to follow, with
/// the number of times each was seen. It is built once and never changes.
pub struct Model<T: Token> {
    /// The different tokens of the corpus, in order of first appearance.
    tokens: Vec<T>,
    /// What follows the start of a sequence.
    first: Vec<Entry>,
    /// What follows each token: `rows[i]` belongs to `tokens[i]`.
    rows: Vec<Vec<Entry>>,
}

impl<T: Token> View for Model<T> {
    type V = Map<Option<T::V>, Seq<(T::V, nat)>>;

    /// The transition table: each context that has successors, with their
    /// distribution in order of first sighting.
    closed spec fn view(&self) -> Map<Option<T::V>, Seq<(T::V, nat)>> {
        model_table(self.tokens@, self.first@, self.rows@)
    }
}

/// The place of `token` among `tokens`.
fn find<T: Token>(tokens: &Vec<T>, token: &T) -> (place: Option<usize>)
    ensures
        match place {
            Some(i) => i < tokens@.len() && tokens@[i as int]@ == token@,
            None => forall|i: int| 0 <= i < tokens@.len() ==> (#[trigger] tokens@[i])@ != token@,
        },
{
    let mut i: usize = 0;
    while i < tokens.len()
        invariant
            i <= tokens@.len(),
            forall|j: int| 0 <= j < i ==> (#[trigger] tokens@[j])@ != token@,
        decreases tokens@.len() - i,
    {
        if tokens[i].same(token) {
            return Some(i);
        }
        i = i + 1;
    }
    None
}

/// `after` is `row` with one more sighting of the token at place `id`.
spec fn recorded(row: Seq<Entry>, id: usize, after: Seq<Entry>) -> bool {
    ||| exists|k: int|
        0 <= k < row.len() && (#[trigger] row[k]).token == id && row[k].weight < u64::MAX && after
            == row.update(k, (Entry { token: id, weight: (row[k].weight + 1) as u64 }))
    ||| (forall|k: int| 0 <= k < row.len() ==> (#[trigger] row[k]).token != id) && after
        == row.push((Entry { token: id, weight: 1 }))
}

/// Records one more sighting of the token at place `id` in `row`.
fn record(row: &mut Vec<Entry>, id: usize)
    requires
        forall|k: int| 0 <= k < old(row)@.len() ==> (#[trigger] old(row)@[k]).weight < u64::MAX,
    ensures
        recorded(old(row)@, id, final(row)@),
{
    let mut k: usize = 0;
    while k < row.len()
        invariant
            k <= row@.len(),
            row@ == old(row)@,
            forall|j: int| 0 <= j < row@.len() ==> (#[trigger] row@[j]).weight < u64::MAX,
            forall|j: int| 0 <= j < k ==> (#[trigger] row@[j]).token != id,
        decreases row@.len() - k,
    {
        let entry = row[k];
        if entry.token == id {
            row.set(k, Entry { token: id, weight: entry.weight + 1 });
            return ;
        }
        k = k + 1;
    }
    row.push(Entry { token: id, weight: 1 });
}

/// Where no token is held twice, a token is looked up at its own place.
proof fn lemma_lookup<T: Token>(tokens: Seq<T>, i: int)
    requires
        0 <= i < tokens.len(),
        forall|i: int, j: int|
            0 <= i < j < tokens.len() ==> (#[trigger] tokens[i])@ != (#[trigger] tokens[j])@,
    ensures
        lookup(tokens, tokens[i]@) == Some(i),
{
    let j = lookup(tokens, tokens[i]@)->0;
    assert(tokens[j]@ == tokens[i]@);
    if j < i {
        assert(tokens[j]@ != tokens[i]@);
    } else if i < j {
        assert(tokens[i]@ != tokens[j]@);
    }
}

/// A row reads the same after a token was added to the model.
proof fn lemma_reading_push<T: Token>(tokens: Seq<T>, t: T, row: Seq<Entry>)
    requires
        forall|k: int| 0 <= k < row.len() ==> (#[trigger] row[k]).token < tokens.len(),
    ensures
        reading(tokens.push(t), row) == reading(tokens, row),
{
    assert(reading(tokens.push(t), row) =~= reading(tokens, row));
}

/// The stored parts hold the table of `corpus`: they fit together, every
/// token of the corpus is among the tokens, and what is stored for a context
/// is the tally of what follows it in the corpus.
spec fn holds<T: Token>(
    tokens: Seq<T>,
    first: Seq<Entry>,
    rows: Seq<Vec<Entry>>,
    corpus: Seq<T::V>,
) -> bool {
    &&& fitting(tokens, first, rows)
    &&& forall|ctx: Option<T::V>| #[trigger]
        stored(tokens, first, rows, ctx) == tally(successors(corpus, ctx))
    &&& forall|j: int| 0 <= j < corpus.len() ==> lookup(tokens, #[trigger] corpus[j]) is Some
}

/// The row in which the token behind the corpus is recorded: that of the
/// start of a sequence for an empty corpus, that of its last token else.
spec fn open_row(first: Seq<Entry>, rows: Seq<Vec<Entry>>, last: Option<usize>) -> Seq<Entry> {
    match last {
        None => first,
        Some(p) => rows[p as int]@,
    }
}

/// `last` is the place of the last token of `corpus`, if it has one.
spec fn ends_at<T: Token>(tokens: Seq<T>, corpus: Seq<T::V>, last: Option<usize>) -> bool {
    match last {
        None => corpus.len() == 0,
        Some(p) => corpus.len() > 0 && p < tokens.len() && tokens[p as int]@ == corpus.last(),
    }
}

/// No parts hold the table of the empty corpus.
proof fn lemma_holds_nothing<T: Token>(tokens: Seq<T>, first: Seq<Entry>, rows: Seq<Vec<Entry>>)
    requires
        tokens.len() == 0,
        first.len() == 0,
        rows.len() == 0,
    ensures
        holds(tokens, first, rows, Seq::<T::V>::empty()),
{
    assert(reading(tokens, first) =~= Seq::empty());
    assert forall|ctx: Option<T::V>| #[trigger]
        stored(tokens, first, rows, ctx) == tally(successors(Seq::<T::V>::empty(), ctx)) by {
        assert(tally(successors(Seq::<T::V>::empty(), ctx)) =~= Seq::empty());
    }
}

/// A token that the model does not hold yet is added with an empty row, and
/// the parts hold the same table as before.
proof fn lemma_intern<T: Token>(
    tokens: Seq<T>,
    first: Seq<Entry>,
    rows: Seq<Vec<Entry>>,
    corpus: Seq<T::V>,
    t: T,
    row: Vec<Entry>,
)
    requires
        holds(tokens, first, rows, corpus),
        forall|i: int| 0 <= i < tokens.len() ==> (#[trigger] tokens[i])@ != t@,
        row@.len() == 0,
    ensures
        holds(tokens.push(t), first, rows.push(row), corpus),
{
    let tokens2 = tokens.push(t);
    let rows2 = rows.push(row);
    lemma_reading_push(tokens, t, first);
    assert forall|i: int, j: int| 0 <= i < j < tokens2.len() implies (#[trigger] tokens2[i])@
        != (#[trigger] tokens2[j])@ by {
        if j < tokens.len() {
            assert(tokens[i]@ != tokens[j]@);
        } else {
            assert(tokens[i]@ != t@);
        }
    }
    assert forall|i: int| 0 <= i < rows2.len() implies row_ok(tokens2, (#[trigger] rows2[i])@) by {
        if i < rows.len() {
            assert(row_ok(tokens, rows[i]@));
            lemma_reading_push(tokens, t, rows[i]@);
        } else {
            assert(reading(tokens2, rows2[i]@) =~= Seq::empty());
        }
    }
    assert(lookup(tokens, t@) is None);
    assert forall|ctx: Option<T::V>| #[trigger]
        stored(tokens2, first, rows2, ctx) == tally(successors(corpus, ctx)) by {
        assert(stored(tokens, first, rows, ctx) == tally(successors(corpus, ctx)));
        if let Some(v) = ctx {
            if v == t@ {
                lemma_lookup(tokens2, tokens.len() as int);
                assert(reading(tokens2, rows2[tokens.len() as int]@) =~= Seq::empty());
            } else if let Some(i) = lookup(tokens, v) {
                assert(tokens2[i]@ == v);
                lemma_lookup(tokens2, i);
                assert(row_ok(tokens, rows[i]@));
                lemma_reading_push(tokens, t, rows[i]@);
            } else if let Some(i) = lookup(tokens2, v) {
                assert(tokens[i]@ == v);
            }
        }
    }
    assert forall|j: int| 0 <= j < corpus.len() implies lookup(tokens2, #[trigger] corpus[j]) is Some by {
        let i = lookup(tokens, corpus[j])->0;
        assert(tokens2[i]@ == corpus[j]);
    }
}

/// The row in which the next token is recorded is the one stored for the
/// context behind the corpus, and each of its weights is at most the length
/// of the corpus.
proof fn lemma_open_row<T: Token>(
    tokens: Seq<T>,
    first: Seq<Entry>,
    rows: Seq<Vec<Entry>>,
    corpus: Seq<T::V>,
    last: Option<usize>,
)
    requires
        holds(tokens, first, rows, corpus),
        ends_at(tokens, corpus, last),
    ensures
        reading(tokens, open_row(first, rows, last)) == tally(
            successors(corpus, context_of(tokens, last)),
        ),
        row_ok(tokens, open_row(first, rows, last)),
        forall|k: int|
            0 <= k < open_row(first, rows, last).len() ==> (#[trigger] open_row(
                first,
                rows,
                last,
            )[k]).weight <= corpus.len(),
{
    let here = context_of(tokens, last);
    let row = open_row(first, rows, last);
    if let Some(p) = last {
        lemma_lookup(tokens, p as int);
        assert(row_ok(tokens, rows[p as int]@));
    }
    assert(stored(tokens, first, rows, here) == reading(tokens, row));
    lemma_total_tally(successors(corpus, here));
    lemma_successors_bounded(corpus, here);
    assert forall|k: int| 0 <= k < row.len() implies (#[trigger] row[k]).weight <= corpus.len() by {
        lemma_weight_bounded(reading(tokens, row), k);
    }
}

/// A row with one more sighting of a token reads as the distribution with
/// one more sighting of it, and is in order but for its total.
proof fn lemma_recorded<T: Token>(tokens: Seq<T>, row: Seq<Entry>, id: usize, after: Seq<Entry>)
    requires
        forall|i: int, j: int|
            0 <= i < j < tokens.len() ==> (#[trigger] tokens[i])@ != (#[trigger] tokens[j])@,
        forall|k: int| 0 <= k < row.len() ==> (#[trigger] row[k]).token < tokens.len() && row[k].weight >= 1,
        forall|j: int, k: int|
            0 <= j < k < row.len() ==> (#[trigger] row[j]).token != (#[trigger] row[k]).token,
        id < tokens.len(),
        recorded(row, id, after),
    ensures
        reading(tokens, after) == observe(reading(tokens, row), tokens[id as int]@),
        forall|k: int|
            0 <= k < after.len() ==> (#[trigger] after[k]).token < tokens.len() && after[k].weight >= 1,
        forall|j: int, k: int|
            0 <= j < k < after.len() ==> (#[trigger] after[j]).token != (#[trigger] after[k]).token,
{
    let d = reading(tokens, row);
    let v = tokens[id as int]@;
    assert forall|k: int| 0 <= k < row.len() && d[k].0 == v implies (#[trigger] row[k]).token == id by {
        let other = row[k].token as int;
        if other < id {
            assert(tokens[other]@ != tokens[id as int]@);
        } else if id < other {
            assert(tokens[id as int]@ != tokens[other]@);
        }
    }
    if exists|k: int| 0 <= k < row.len() && (#[trigger] row[k]).token == id {
        let k = choose|k: int| 0 <= k < row.len() && (#[trigger] row[k]).token == id;
        assert(d[k].0 == v);
        let found = position(d, v)->0;
        assert(row[found].token == id);
        assert(found == k);
        assert(reading(tokens, after) =~= d.update(k, (v, d[k].1 + 1)));
    } else {
        if let Some(found) = position(d, v) {
            assert(row[found].token == id);
        }
        assert(reading(tokens, after) =~= d.push((v, 1nat)));
    }
}

/// The step of building: parts that hold the table of a corpus, with the
/// next token recorded in the row of the token before it, hold the table of
/// the corpus with that token added.
proof fn lemma_record<T: Token>(
    tokens: Seq<T>,
    first: Seq<Entry>,
    rows: Seq<Vec<Entry>>,
    corpus: Seq<T::V>,
    last: Option<usize>,
    id: usize,
    first2: Seq<Entry>,
    rows2: Seq<Vec<Entry>>,
)
    requires
        holds(tokens, first, rows, corpus),
        ends_at(tokens, corpus, last),
        corpus.len() < usize::MAX,
        id < tokens.len(),
        rows2.len() == rows.len(),
        recorded(open_row(first, rows, last), id, open_row(first2, rows2, last)),
        last is Some ==> first2 == first,
        forall|i: int| 0 <= i < rows.len() && !(last matches Some(p) && p == i) ==> rows2[i] == rows[i],
    ensures
        holds(tokens, first2, rows2, corpus.push(tokens[id as int]@)),
        first2.len() > 0,
{
    let v = tokens[id as int]@;
    let corpus2 = corpus.push(v);
    let here = context_of(tokens, last);
    let row = open_row(first, rows, last);
    let after = open_row(first2, rows2, last);
    lemma_open_row(tokens, first, rows, corpus, last);
    lemma_recorded(tokens, row, id, after);
    lemma_tally_push(successors(corpus, here), v);
    if let Some(p) = last {
        lemma_lookup(tokens, p as int);
    }
    assert forall|ctx: Option<T::V>| #[trigger]
        stored(tokens, first2, rows2, ctx) == tally(successors(corpus2, ctx)) by {
        lemma_successors_push(corpus, v, ctx);
        assert(stored(tokens, first, rows, ctx) == tally(successors(corpus, ctx)));
        if ctx != here {
            if let Some(w) = ctx {
                if let Some(i) = lookup(tokens, w) {
                    assert(tokens[i]@ == w);
                }
            }
        }
    }
    assert(row_ok(tokens, after)) by {
        assert(stored(tokens, first2, rows2, here) == reading(tokens, after));
        lemma_total_tally(successors(corpus2, here));
        lemma_successors_bounded(corpus2, here);
    }
    assert forall|i: int| 0 <= i < rows2.len() implies row_ok(tokens, (#[trigger] rows2[i])@) by {
        if !(last matches Some(p) && p == i) {
            assert(row_ok(tokens, rows[i]@));
        }
    }
    assert forall|j: int| 0 <= j < corpus2.len() implies lookup(tokens, #[trigger] corpus2[j]) is Some by {
        if j < corpus.len() {
            assert(corpus2[j] == corpus[j]);
        } else {
            lemma_lookup(tokens, id as int);
        }
    }
    assert(first2.len() > 0) by {
        lemma_successors_start(corpus2);
        lemma_tally_entries(successors(corpus2, None::<T::V>));
        assert(stored(tokens, first2, rows2, None) == tally(successors(corpus2, None)));
    }
}

/// Parts that hold the table of a corpus make up its model.
proof fn lemma_holds_table<T: Token>(
    tokens: Seq<T>,
    first: Seq<Entry>,
    rows: Seq<Vec<Entry>>,
    corpus: Seq<T::V>,
)
    requires
        holds(tokens, first, rows, corpus),
    ensures
        model_table(tokens, first, rows) == transitions(corpus),
{
    assert forall|ctx: Option<T::V>|
        stored(tokens, first, rows, ctx).len() > 0 <==> successors(corpus, ctx).len() > 0 by {
        assert(stored(tokens, first, rows, ctx) == tally(successors(corpus, ctx)));
        lemma_tally_entries(successors(corpus, ctx));
    }
    assert(model_table(tokens, first, rows) =~= transitions(corpus));
}

impl<T: Token> Model<T> {
    #[verifier::type_invariant]
    spec fn inv(self) -> bool {
        well_formed(self.tokens@, self.first@, self.rows@)
    }

    /// Builds the model of `tokens`: one pass that records each token as a
    /// successor of the token before it, the first as a successor of the
    /// start of a sequence. Each token is compared with the different tokens
    /// before it, so the work grows with the length of the corpus times the
    /// number of different tokens.
    pub fn build(tokens: Vec<T>) -> (model: Model<T>)
        ensures
            model@ == transitions(views(tokens@)),
            forall|ctx: Option<T::V>|
                total_weight(distribution(model@, ctx)) == (#[trigger] successors(
                    views(tokens@),
                    ctx,
                )).len(),
    {
        let ghost input = views(tokens@);
        let length = tokens.len();
        let mut known: Vec<T> = Vec::new();
        let mut first: Vec<Entry> = Vec::new();
        let mut rows: Vec<Vec<Entry>> = Vec::new();
        let mut last: Option<usize> = None;
        proof {
            assert(input.take(0) =~= Seq::empty());
            lemma_holds_nothing(known@, first@, rows@);
        }
        for token in it: tokens
            invariant
                input == views(it.seq()),
                input.len() == length,
                holds(known@, first@, rows@, input.take(it.index())),
                ends_at(known@, input.take(it.index()), last),
                it.index() == 0 ==> known@.len() == 0,
                it.index() > 0 ==> first@.len() > 0,
        {
            let ghost corpus = input.take(it.index());
            proof {
                assert(input.take(it.index() + 1) =~= corpus.push(token@));
            }
            let id = match find(&known, &token) {
                Some(id) => id,
                None => {
                    let row: Vec<Entry> = Vec::new();
                    proof {
                        lemma_intern(known@, first@, rows@, corpus, token, row);
                    }
                    known.push(token);
                    rows.push(row);
                    known.len() - 1
                },
            };
            let ghost before_first = first@;
            let ghost before_rows = rows@;
            proof {
                lemma_open_row(known@, first@, rows@, corpus, last);
            }
            match last {
                None => {
                    record(&mut first, id);
                },
                Some(p) => {
                    record(&mut rows[p], id);
                },
            }
            proof {
                lemma_record(known@, before_first, before_rows, corpus, last, id, first@, rows@);
            }
            last = Some(id);
        }
        proof {
            assert(input.take(input.len() as int) =~= input);
            lemma_holds_table(known@, first@, rows@, input);
            assert forall|ctx: Option<T::V>|
                total_weight(distribution(transitions(input), ctx)) == (#[trigger] successors(
                    input,
                    ctx,
                )).len() by {
                lemma_weight_conservation(input, ctx);
            }
        }
        Model { tokens: known, first, rows }
    }
}

/// The sum of the weights of a stored row.
fn total<T: Token>(tokens: &Vec<T>, row: &Vec<Entry>) -> (sum: u64)
    requires
        row_ok(tokens@, row@),
    ensures
        sum == total_weight(reading(tokens@, row@)),
{
    let ghost d = reading(tokens@, row@);
    let mut sum: u64 = 0;
    let mut k: usize = 0;
    while k < row.len()
        invariant
            k <= row@.len(),
            d == reading(tokens@, row@),
            total_weight(d) <= usize::MAX,
            sum == total_weight(d.take(k as int)),
        decreases row@.len() - k,
    {
        proof {
            lemma_total_monotonic(d, k as int, k as int);
            lemma_total_monotonic(d, k + 1, d.len() as int);
        }
        sum = sum + row[k].weight;
        k = k + 1;
    }
    proof {
        lemma_total_monotonic(d, 0, d.len() as int);
    }
    sum
}

/// A row in order has weight exactly where it has entries.
proof fn lemma_row_weight<T: Token>(tokens: Seq<T>, row: Seq<Entry>)
    requires
        row_ok(tokens, row),
    ensures
        total_weight(reading(tokens, row)) > 0 <==> row.len() > 0,
{
    if row.len() > 0 {
        assert(row[0].weight >= 1);
        lemma_weight_bounded(reading(tokens, row), 0);
    }
}

/// The entry of a stored row that `draw` selects: walks the entries in
/// order, adding up their weights, to the first at which the sum exceeds
/// `draw`.
fn pick<T: Token>(tokens: &Vec<T>, row: &Vec<Entry>, draw: u64) -> (at: Option<usize>)
    requires
        row_ok(tokens@, row@),
    ensures
        match at {
            Some(k) => selected(reading(tokens@, row@), draw as nat) == Some(k as int),
            None => selected(reading(tokens@, row@), draw as nat) is None,
        },
{
    let ghost d = reading(tokens@, row@);
    let mut sum: u64 = 0;
    let mut k: usize = 0;
    while k < row.len()
        invariant
            k <= row@.len(),
            d == reading(tokens@, row@),
            total_weight(d) <= usize::MAX,
            sum == total_weight(d.take(k as int)),
            sum <= draw,
        decreases row@.len() - k,
    {
        proof {
            lemma_total_monotonic(d, k as int, k as int);
            lemma_total_monotonic(d, k + 1, d.len() as int);
        }
        sum = sum + row[k].weight;
        if draw < sum {
            proof {
                lemma_selected_unique(d, draw as nat, k as int);
            }
            return Some(k);
        }
        k = k + 1;
    }
    proof {
        lemma_total_monotonic(d, 0, d.len() as int);
        lemma_selected(d, draw as nat);
    }
    None
}

impl<T: Token> Model<T> {
    /// The row stored for the context at `place`.
    fn row(&self, place: Option<usize>) -> (row: &Vec<Entry>)
        requires
            place matches Some(i) ==> i < self.tokens@.len(),
        ensures
            row_ok(self.tokens@, row@),
            reading(self.tokens@, row@) == distribution(self@, context_of(self.tokens@, place)),
            place is Some ==> (row@.len() > 0 <==> self@.dom().contains(
                context_of(self.tokens@, place),
            )),
            place is None ==> (row@.len() > 0 <==> self.tokens@.len() > 0),
    {
        proof {
            use_type_invariant(self);
        }
        match place {
            None => {
                assert(reading(self.tokens@, self.first@) =~= distribution(self@, None));
                &self.first
            },
            Some(i) => {
                proof {
                    lemma_lookup(self.tokens@, i as int);
                    assert(reading(self.tokens@, self.rows@[i as int]@) =~= distribution(
                        self@,
                        Some(self.tokens@[i as int]@),
                    ));
                }
                &self.rows[i]
            },
        }
    }

    /// The distribution of the tokens that follow `context`, in the order
    /// in which they were first seen to: `None` asks for the start of a
    /// sequence. It is empty for a context that nothing follows.
    pub fn distribution_for<'a>(&'a self, context: Option<&T>) -> (entries: Vec<(&'a T, u64)>)
        ensures
            weighted(entries@) == distribution(self@, view_of(context)),
    {
        proof {
            use_type_invariant(self);
        }
        let place = match context {
            None => None,
            Some(token) => match find(&self.tokens, token) {
                Some(i) => Some(i),
                None => {
                    proof {
                        assert(lookup(self.tokens@, token@) is None);
                        assert(distribution(self@, Some(token@)) =~= Seq::empty());
                        assert(weighted(Seq::<(&T, u64)>::empty()) =~= Seq::empty());
                    }
                    return Vec::new();
                },
            },
        };
        let row = self.row(place);
        let mut entries: Vec<(&'a T, u64)> = Vec::new();
        let mut k: usize = 0;
        while k < row.len()
            invariant
                k <= row@.len(),
                row_ok(self.tokens@, row@),
                weighted(entries@) == reading(self.tokens@, row@).take(k as int),
            decreases row@.len() - k,
        {
            let entry = row[k];
            let ghost before = entries@;
            entries.push((&self.tokens[entry.token], entry.weight));
            proof {
                let d = reading(self.tokens@, row@);
                assert(weighted(before).len() == k);
                assert forall|j: int| 0 <= j < k + 1 implies weighted(entries@)[j] == d.take(
                    k + 1,
                )[j] by {
                    if j < k {
                        assert(weighted(before)[j] == d.take(k as int)[j]);
                    }
                }
                assert(weighted(entries@) =~= d.take(k + 1));
            }
            k = k + 1;
        }
        proof {
            assert(reading(self.tokens@, row@).take(k as int) =~= reading(self.tokens@, row@));
        }
        entries
    }
}

/// A place in a walk over a model. Each step takes a draw, hands out the
/// token that the draw selects among those that follow the token handed out
/// before, and moves on to it. Where nothing follows, the walk goes back to
/// the start of a sequence.
pub struct Walk<'a, T: Token> {
    model: &'a Model<T>,
    /// The place of the token that was handed out last, if any.
    last: Option<usize>,
}

impl<'a, T: Token> Walk<'a, T> {
    #[verifier::type_invariant]
    spec fn inv(self) -> bool {
        self.last matches Some(i) ==> i < self.model.tokens@.len()
    }

    /// The transition table that is walked.
    pub closed spec fn table(&self) -> Map<Option<T::V>, Seq<(T::V, nat)>> {
        self.model@
    }

    /// The context in which the next token will be drawn: the token handed
    /// out last, or the start of a sequence.
    pub closed spec fn context(&self) -> Option<T::V> {
        context_of(self.model.tokens@, self.last)
    }

    /// The distribution that the next step draws from: that of the context,
    /// or that of the start of a sequence where nothing follows the context.
    pub open spec fn pending(&self) -> Seq<(T::V, nat)> {
        distribution(self.table(), settle(self.table(), self.context()))
    }

    /// A walk over `model`, at the start of a sequence.
    pub fn new(model: &'a Model<T>) -> (walk: Walk<'a, T>)
        ensures
            walk.table() == model@,
            walk.context() == None::<T::V>,
    {
        Walk { model, last: None }
    }

    /// The place from which the next step draws: that of the context, or
    /// the start of a sequence where nothing follows the context.
    fn settled(&self) -> (place: Option<usize>)
        ensures
            place matches Some(i) ==> i < self.model.tokens@.len(),
            context_of(self.model.tokens@, place) == settle(self.table(), self.context()),
    {
        proof {
            use_type_invariant(self);
        }
        match self.last {
            Some(i) => {
                if self.model.row(Some(i)).len() > 0 {
                    Some(i)
                } else {
                    None
                }
            },
            None => None,
        }
    }

    /// The total weight of the distribution that the next step draws from.
    /// It is zero only where nothing follows the start of a sequence, which
    /// is so in the model of an empty corpus.
    pub fn weight(&self) -> (weight: u64)
        ensures
            weight == total_weight(self.pending()),
            weight > 0 <==> self.table().dom().contains(None::<T::V>),
    {
        let from = self.settled();
        let row = self.model.row(from);
        proof {
            use_type_invariant(self.model);
            lemma_row_weight(self.model.tokens@, row@);
            assert(reading(self.model.tokens@, self.model.first@).len() > 0
                <==> self.model.first@.len() > 0);
        }
        total(&self.model.tokens, row)
    }

    /// One step with the draw `draw`: hands out the token that `draw`
    /// selects from the pending distribution and moves on to it. Where `draw`
    /// selects none, because it is not below the total weight, no token is
    /// handed out and the walk stands where the draw was made from.
    pub fn advance(&mut self, draw: u64) -> (token: Option<&'a T>)
        ensures
            final(self).table() == old(self).table(),
            (view_of(token), final(self).context()) == step(
                old(self).table(),
                old(self).context(),
                draw as nat,
            ),
    {
        let model: &'a Model<T> = self.model;
        let from = self.settled();
        let row = model.row(from);
        match pick(&model.tokens, row, draw) {
            Some(k) => {
                proof {
                    lemma_selected(reading(model.tokens@, row@), draw as nat);
                }
                let id = row[k].token;
                self.last = Some(id);
                Some(&model.tokens[id])
            },
            None => {
                self.last = from;
                None
            },
        }
    }

    /// Steps with each of `draws` in turn, up to the first step that hands
    /// out no token, and returns the tokens handed out.
    pub fn replay(&mut self, draws: &[u64]) -> (tokens: Vec<&'a T>)
        ensures
            final(self).table() == old(self).table(),
            views_of(tokens@) == walk(old(self).table(), old(self).context(), draws_of(draws@)),
            final(self).context() == walk_end(
                old(self).table(),
                old(self).context(),
                draws_of(draws@),
            ),
    {
        let ghost table = self.table();
        let ghost all = draws_of(draws@);
        let mut tokens: Vec<&'a T> = Vec::new();
        let mut i: usize = 0;
        proof {
            assert(all.skip(0) =~= all);
            assert(views_of(tokens@) =~= Seq::empty());
        }
        while i < draws.len()
            invariant
                i <= draws@.len(),
                all == draws_of(draws@),
                self.table() == table,
                table == old(self).table(),
                walk(table, old(self).context(), all) == views_of(tokens@) + walk(
                    table,
                    self.context(),
                    all.skip(i as int),
                ),
                walk_end(table, old(self).context(), all) == walk_end(
                    table,
                    self.context(),
                    all.skip(i as int),
                ),
            ensures
                self.table() == table,
                walk(table, old(self).context(), all) == views_of(tokens@),
                walk_end(table, old(self).context(), all) == self.context(),
            decreases draws@.len() - i,
        {
            let ghost rest = all.skip(i as int);
            proof {
                assert(rest[0] == draws@[i as int] as nat);
                assert(rest.drop_first() =~= all.skip(i + 1));
            }
            match self.advance(draws[i]) {
                Some(token) => {
                    let ghost before = views_of(tokens@);
                    tokens.push(token);
                    proof {
                        assert(views_of(tokens@) =~= before.push(token@));
                        assert(before + (seq![token@] + walk(table, self.context(), all.skip(i + 1)))
                            =~= views_of(tokens@) + walk(table, self.context(), all.skip(i + 1)));
                    }
                },
                None => {
                    proof {
                        assert(views_of(tokens@) + Seq::<T::V>::empty() =~= views_of(tokens@));
                    }
                    break ;
                },
            }
            i = i + 1;
        }
        proof {
            assert(views_of(tokens@) + Seq::<T::V>::empty() =~= views_of(tokens@));
        }
        tokens
    }
}

/// A walk over a model that draws from a random source.
pub struct Generator<'a, T: Token, R: RandomSource> {
    walk: Walk<'a, T>,
    rng: &'a mut R,
}

impl<'a, T: Token, R: RandomSource> Generator<'a, T, R> {
    /// The transition table that the generator walks.
    pub closed spec fn table(&self) -> Map<Option<T::V>, Seq<(T::V, nat)>> {
        self.walk.table()
    }

    /// The context in which the next token will be drawn: the token handed
    /// out last, or the start of a sequence.
    pub closed spec fn context(&self) -> Option<T::V> {
        self.walk.context()
    }

    /// The distribution that the next step draws from: that of the context,
    /// or that of the start of a sequence where nothing follows the context.
    pub open spec fn pending(&self) -> Seq<(T::V, nat)> {
        distribution(self.table(), settle(self.table(), self.context()))
    }

    /// A generator over `model` that stands at the start of a sequence and
    /// draws from `rng`.
    pub fn new(model: &'a Model<T>, rng: &'a mut R) -> (generator: Generator<'a, T, R>)
        ensures
            generator.table() == model@,
            generator.context() == None::<T::V>,
    {
        Generator { walk: Walk::new(model), rng }
    }

    /// The next token: one step with a draw from the random source, below
    /// the total weight of the pending distribution. No token is handed out
    /// only where that distribution is empty, and then nothing is drawn.
    pub fn next(&mut self) -> (token: Option<&'a T>)
        ensures
            final(self).table() == old(self).table(),
            token is Some <==> old(self).table().dom().contains(None::<T::V>),
            exists|draw: nat|
                (draw < total_weight(old(self).pending()) || total_weight(old(self).pending()) == 0)
                    && (view_of(token), final(self).context()) == #[trigger] step(
                    old(self).table(),
                    old(self).context(),
                    draw,
                ),
    {
        let weight = self.walk.weight();
        let draw = if weight == 0 {
            0
        } else {
            self.rng.below(weight)
        };
        proof {
            lemma_selected(self.pending(), draw as nat);
        }
        let token = self.walk.advance(draw);
        assert((view_of(token), self.context()) == step(
            old(self).table(),
            old(self).context(),
            draw as nat,
        ));
        token
    }

    /// Hands out `count` tokens, one step after the other; none where
    /// nothing follows the start of a sequence, which is so in the model of
    /// an empty corpus. The tokens are those of a walk with some draws, one
    /// draw for each token.
    pub fn generate(&mut self, count: usize) -> (tokens: Vec<&'a T>)
        ensures
            final(self).table() == old(self).table(),
            tokens@.len() == if old(self).table().dom().contains(None::<T::V>) {
                count
            } else {
                0
            },
            exists|draws: Seq<nat>|
                views_of(tokens@) == #[trigger] walk(old(self).table(), old(self).context(), draws)
                    && final(self).context() == walk_end(
                    old(self).table(),
                    old(self).context(),
                    draws,
                ),
    {
        let ghost table = self.table();
        let ghost start = self.context();
        let ghost draws: Seq<nat> = Seq::empty();
        let mut tokens: Vec<&'a T> = Vec::new();
        proof {
            assert(views_of(tokens@) =~= walk(table, start, draws));
        }
        while tokens.len() < count
            invariant_except_break
                draws.len() == tokens@.len(),
            invariant
                tokens@.len() <= count,
                self.table() == table,
                tokens@.len() > 0 ==> table.dom().contains(None::<T::V>),
                views_of(tokens@) == walk(table, start, draws),
                self.context() == walk_end(table, start, draws),
            ensures
                self.table() == table,
                views_of(tokens@) == walk(table, start, draws),
                self.context() == walk_end(table, start, draws),
                tokens@.len() == if table.dom().contains(None::<T::V>) {
                    count
                } else {
                    0
                },
            decreases count - tokens@.len(),
        {
            let ghost here = self.context();
            let ghost pending = self.pending();
            match self.next() {
                Some(token) => {
                    let ghost before = views_of(tokens@);
                    tokens.push(token);
                    proof {
                        let draw = choose|draw: nat|
                            (draw < total_weight(pending) || total_weight(pending) == 0) && (
                                Some(token@),
                                self.context(),
                            ) == #[trigger] step(table, here, draw);
                        lemma_walk_extend(table, start, draws, draw);
                        draws = draws.push(draw);
                        assert(views_of(tokens@) =~= before.push(token@));
                    }
                },
                None => {
                    proof {
                        let draw = choose|draw: nat|
                            (draw < total_weight(pending) || total_weight(pending) == 0) && (
                                None::<T::V>,
                                self.context(),
                            ) == #[trigger] step(table, here, draw);
                        lemma_walk_extend(table, start, draws, draw);
                        draws = draws.push(draw);
                    }
                    break ;
                },
            }
        }
        tokens
    }
}

} // verus!
