use markov_text::model::{Generator, Model, Token, Walk};
use markov_text::random::RandomSource;
use rand::rngs::{OsRng, StdRng};
use rand::{Rng, SeedableRng};

/// A random source that gives the same draws again for the same seed.
struct Seeded(StdRng);

impl Seeded {
    fn new(seed: u64) -> Seeded {
        Seeded(StdRng::seed_from_u64(seed))
    }
}

impl RandomSource for Seeded {
    fn below(&mut self, bound: u64) -> u64 {
        self.0.gen_range(0, bound)
    }
}

fn strings(words: &[&str]) -> Vec<String> {
    words.iter().map(|w| w.to_string()).collect()
}

fn owned(entries: Vec<(&String, u64)>) -> Vec<(String, u64)> {
    entries.into_iter().map(|(t, w)| (t.clone(), w)).collect()
}

fn entries(pairs: &[(&str, u64)]) -> Vec<(String, u64)> {
    pairs.iter().map(|(t, w)| (t.to_string(), *w)).collect()
}

/// Nine times `c a`, then `c b`: `a` follows `c` nine times, `b` once.
fn nine_to_one() -> Vec<String> {
    let mut corpus = Vec::new();
    for _ in 0..9 {
        corpus.push("c".to_string());
        corpus.push("a".to_string());
    }
    corpus.push("c".to_string());
    corpus.push("b".to_string());
    corpus
}

#[test]
fn build_counts_what_follows_what() {
    let model = Model::build(strings(&["a", "b", "a", "c", "a", "b", "b", "c"]));
    let (a, b, c) = ("a".to_string(), "b".to_string(), "c".to_string());
    assert_eq!(owned(model.distribution_for(None)), entries(&[("a", 1)]));
    assert_eq!(
        owned(model.distribution_for(Some(&a))),
        entries(&[("b", 2), ("c", 1)])
    );
    assert_eq!(
        owned(model.distribution_for(Some(&b))),
        entries(&[("a", 1), ("b", 1), ("c", 1)])
    );
    assert_eq!(owned(model.distribution_for(Some(&c))), entries(&[("a", 1)]));
}

#[test]
fn build_keeps_the_order_of_first_sighting() {
    let model = Model::build(strings(&["x", "z", "x", "y", "x", "z", "x", "w"]));
    let x = "x".to_string();
    assert_eq!(
        owned(model.distribution_for(Some(&x))),
        entries(&[("z", 2), ("y", 1), ("w", 1)])
    );
}

#[test]
fn unknown_context_has_an_empty_distribution() {
    let model = Model::build(strings(&["a", "b"]));
    let (b, q) = ("b".to_string(), "q".to_string());
    assert_eq!(model.distribution_for(Some(&q)), vec![]);
    assert_eq!(model.distribution_for(Some(&b)), vec![]);
}

#[test]
fn weights_add_up_to_the_number_of_sightings() {
    let corpus = strings(&["the", "cat", "and", "the", "dog", "and", "the", "cat"]);
    let model = Model::build(corpus.clone());
    let mut contexts: Vec<Option<&String>> = vec![None];
    for token in &corpus {
        contexts.push(Some(token));
    }
    for context in contexts {
        let followed = match context {
            None => 1,
            Some(token) => corpus.windows(2).filter(|pair| &pair[0] == token).count(),
        };
        let total: u64 = model.distribution_for(context).iter().map(|e| e.1).sum();
        assert_eq!(total, followed as u64);
        for entry in model.distribution_for(context) {
            assert!(entry.1 >= 1);
        }
    }
}

#[test]
fn models_take_other_tokens_than_strings() {
    let numbers: Model<u64> = Model::build(vec![7, 8, 7, 9, 7, 8]);
    assert_eq!(numbers.distribution_for(None), vec![(&7, 1)]);
    assert_eq!(numbers.distribution_for(Some(&7)), vec![(&8, 2), (&9, 1)]);
    assert_eq!(numbers.distribution_for(Some(&9)), vec![(&7, 1)]);

    let letters: Model<char> = Model::build("abab".chars().collect());
    assert_eq!(letters.distribution_for(Some(&'a')), vec![(&'b', 2)]);
    assert_eq!(letters.distribution_for(Some(&'b')), vec![(&'a', 1)]);
}

#[test]
fn tokens_are_told_apart_by_value() {
    assert!("same".to_string().same(&"same".to_string()));
    assert!(!"same".to_string().same(&"other".to_string()));
    assert!(3u64.same(&3));
    assert!(!3u64.same(&4));
    assert!('x'.same(&'x'));
    assert!(!'x'.same(&'y'));
}

#[test]
fn single_token_corpus_recovers_from_dead_end() {
    let model = Model::build(strings(&["hello"]));
    let hello = "hello".to_string();
    assert_eq!(model.distribution_for(None), vec![(&hello, 1)]);
    assert_eq!(model.distribution_for(Some(&hello)), vec![]);

    let mut rng = OsRng;
    let mut generator = Generator::new(&model, &mut rng);
    assert_eq!(generator.next(), Some(&hello));
    assert_eq!(generator.next(), Some(&hello));
    assert_eq!(generator.next(), Some(&hello));

    let mut walk = Walk::new(&model);
    assert_eq!(walk.weight(), 1);
    assert_eq!(walk.advance(0), Some(&hello));
    assert_eq!(walk.weight(), 1);
    assert_eq!(walk.advance(0), Some(&hello));
}

#[test]
fn empty_corpus_generates_nothing() {
    let model: Model<String> = Model::build(Vec::new());
    assert_eq!(model.distribution_for(None), vec![]);
    let mut rng = OsRng;
    let mut generator = Generator::new(&model, &mut rng);
    assert_eq!(generator.next(), None);
    assert_eq!(generator.next(), None);
    assert_eq!(generator.generate(5), Vec::<&String>::new());

    let mut walk = Walk::new(&model);
    assert_eq!(walk.weight(), 0);
    assert_eq!(walk.advance(0), None);
    assert_eq!(walk.replay(&vec![0, 0, 0]), Vec::<&String>::new());
}

#[test]
fn a_draw_selects_in_proportion_to_the_weights() {
    let model = Model::build(nine_to_one());
    let (a, b, c) = ("a".to_string(), "b".to_string(), "c".to_string());
    assert_eq!(
        owned(model.distribution_for(Some(&c))),
        entries(&[("a", 9), ("b", 1)])
    );
    let mut chosen = Vec::new();
    for draw in 0..10 {
        let mut walk = Walk::new(&model);
        assert_eq!(walk.advance(0), Some(&c));
        assert_eq!(walk.weight(), 10);
        chosen.push(walk.advance(draw));
    }
    let mut expected = vec![Some(&a); 9];
    expected.push(Some(&b));
    assert_eq!(chosen, expected);
}

#[test]
fn a_draw_beyond_the_weights_selects_nothing() {
    let model = Model::build(nine_to_one());
    let c = "c".to_string();
    let mut walk = Walk::new(&model);
    assert_eq!(walk.advance(1), None);
    assert_eq!(walk.advance(0), Some(&c));
    assert_eq!(walk.advance(10), None);
    assert_eq!(walk.advance(u64::MAX), None);
    assert_eq!(walk.weight(), 10);
}

/// How often `a` and how often `b` was drawn behind `c`.
fn drawn_behind_c(tokens: &[&String]) -> (u64, u64) {
    let mut a = 0;
    let mut b = 0;
    for pair in tokens.windows(2) {
        if pair[0] == "c" {
            match pair[1].as_str() {
                "a" => a += 1,
                "b" => b += 1,
                other => panic!("{} cannot follow c", other),
            }
        }
    }
    (a, b)
}

#[test]
fn random_generation_follows_the_weights() {
    let model = Model::build(nine_to_one());
    let mut rng = Seeded::new(2024);
    let mut generator = Generator::new(&model, &mut rng);
    let tokens = generator.generate(20_000);
    assert_eq!(tokens.len(), 20_000);
    let (a, b) = drawn_behind_c(&tokens);
    let drawn = a + b;
    assert!(drawn >= 9_999);
    assert!(a * 100 > drawn * 88, "a was drawn {} times in {}", a, drawn);
    assert!(a * 100 < drawn * 92, "a was drawn {} times in {}", a, drawn);
}

#[test]
fn generation_from_the_system_source_follows_the_weights() {
    let model = Model::build(nine_to_one());
    let mut rng = OsRng;
    let mut generator = Generator::new(&model, &mut rng);
    let tokens = generator.generate(20_000);
    assert_eq!(tokens.len(), 20_000);
    let (a, b) = drawn_behind_c(&tokens);
    let drawn = a + b;
    assert!(drawn >= 9_999);
    assert!(a * 100 > drawn * 87, "a was drawn {} times in {}", a, drawn);
    assert!(a * 100 < drawn * 93, "a was drawn {} times in {}", a, drawn);
    assert!(b > 0);
}

#[test]
fn the_system_source_draws_below_the_bound() {
    let mut rng = OsRng;
    for bound in [1u64, 2, 3, 10, 1 << 40, u64::MAX] {
        for _ in 0..200 {
            assert!(rng.below(bound) < bound);
        }
    }
    let mut seen = [false; 4];
    for _ in 0..400 {
        seen[rng.below(4) as usize] = true;
    }
    assert_eq!(seen, [true; 4]);
}

#[test]
fn the_same_seed_gives_the_same_tokens() {
    let corpus = strings(&["a", "b", "a", "c", "b", "c", "a", "a", "c", "c", "b", "b"]);
    let model = Model::build(corpus.clone());
    let rebuilt = Model::build(corpus);
    let mut first_rng = Seeded::new(7);
    let mut second_rng = Seeded::new(7);
    let mut other_rng = Seeded::new(8);
    let first = Generator::new(&model, &mut first_rng).generate(200);
    let second = Generator::new(&rebuilt, &mut second_rng).generate(200);
    let other = Generator::new(&model, &mut other_rng).generate(200);
    assert_eq!(first, second);
    assert_ne!(first, other);
}

#[test]
fn generate_hands_out_as_many_tokens_as_asked() {
    let model = Model::build(strings(&["a", "b", "c"]));
    let mut rng = OsRng;
    let mut generator = Generator::new(&model, &mut rng);
    assert_eq!(generator.generate(0), Vec::<&String>::new());
    assert_eq!(generator.generate(7), ["a", "b", "c", "a", "b", "c", "a"]);
    assert_eq!(generator.generate(2), ["b", "c"]);
}

#[test]
fn every_generated_token_follows_the_one_before() {
    let corpus = strings(&["a", "b", "a", "c", "b", "c", "a", "a"]);
    let model = Model::build(corpus.clone());
    let mut rng = OsRng;
    let mut generator = Generator::new(&model, &mut rng);
    let tokens = generator.generate(500);
    assert_eq!(tokens[0], "a");
    for pair in tokens.windows(2) {
        assert!(corpus.windows(2).any(|seen| &seen[0] == pair[0] && &seen[1] == pair[1]));
    }
}

#[test]
fn replay_is_deterministic() {
    let model = Model::build(strings(&["a", "b", "a", "c", "a", "b", "b", "c"]));
    let draws: Vec<u64> = vec![0, 0, 0, 1, 0, 2, 0, 1, 2, 0];
    let first = Walk::new(&model).replay(&draws);
    let second = Walk::new(&model).replay(&draws);
    assert_eq!(first, second);
    assert_eq!(first, ["a", "b", "a", "b", "a", "c", "a", "b", "c", "a"]);

    let rebuilt = Model::build(strings(&["a", "b", "a", "c", "a", "b", "b", "c"]));
    assert_eq!(Walk::new(&rebuilt).replay(&draws), first);
}

#[test]
fn replay_stops_at_a_draw_that_selects_nothing() {
    let model = Model::build(strings(&["a", "b", "a", "c", "a", "b", "b", "c"]));
    let mut walk = Walk::new(&model);
    assert_eq!(walk.replay(&vec![0, 0, 0, 5, 0]), ["a", "b", "a"]);
    assert_eq!(walk.replay(&vec![2, 0]), ["c", "a"]);
}

#[test]
fn replay_goes_on_where_the_walk_stands() {
    let model = Model::build(strings(&["a", "b", "c"]));
    let mut walk = Walk::new(&model);
    assert_eq!(walk.replay(&vec![0, 0]), ["a", "b"]);
    assert_eq!(walk.replay(&vec![0, 0]), ["c", "a"]);
}
