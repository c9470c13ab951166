//! Replies: a number of generated tokens, set out as one line of text.

use crate::chain::walk;
use crate::model::{views_of, Generator, Model};
use crate::random::RandomSource;
use crate::words::{alphanumeric, is_alphanumeric};
use vstd::prelude::*;
use vstd::std_specs::iter::IteratorSpec;

verus! {

/// The number of tokens in a reply.
pub const REPLY_TOKENS: usize = 10;

/// Whether `word` holds an alphanumeric character.
pub open spec fn wordlike(word: Seq<char>) -> bool {
    exists|i: int| 0 <= i < word.len() && alphanumeric(#[trigger] word[i])
}

/// How a token stands in a reply: behind a space where it holds an
/// alphanumeric character, as it is where it holds none.
pub open spec fn spaced(word: Seq<char>) -> Seq<char> {
    if wordlike(word) {
        seq![' '] + word
    } else {
        word
    }
}

/// The text of a reply made of `words`: each as it stands in a reply, one
/// behind the other.
pub open spec fn rendered(words: Seq<Seq<char>>) -> Seq<char>
    decreases words.len(),
{
    if words.len() == 0 {
        Seq::empty()
    } else {
        rendered(words.drop_last()) + spaced(words.last())
    }
}

/// Whether `word` holds an alphanumeric character.
pub fn is_wordlike(word: &str) -> (b: bool)
    ensures
        b == wordlike(word@),
{
    let mut source = word.chars();
    let ghost seen: Seq<char> = Seq::empty();
    loop
        invariant
            source.obeys_prophetic_iter_laws(),
            seen + source.remaining() == word@,
            forall|i: int| 0 <= i < seen.len() ==> !alphanumeric(#[trigger] seen[i]),
        ensures
            !wordlike(word@),
        decreases word@.len() - seen.len(),
    {
        match source.next() {
            Some(c) => {
                proof {
                    assert(word@[seen.len() as int] == c);
                    seen = seen.push(c);
                }
                if is_alphanumeric(c) {
                    return true;
                }
            },
            None => {
                proof {
                    assert(seen =~= word@);
                }
                break ;
            },
        }
    }
    false
}

/// Appends `word` to `line` as it stands in a reply.
pub fn append_spaced(line: &mut String, word: &str)
    ensures
        final(line)@ == old(line)@ + spaced(word@),
{
    if is_wordlike(word) {
        line.push(' ');
        line.append(word);
        assert(line@ =~= old(line)@ + spaced(word@));
    } else {
        line.append(word);
    }
}

/// The text of a reply made of `tokens`.
pub fn render(tokens: &[&String]) -> (line: String)
    ensures
        line@ == rendered(views_of(tokens@)),
{
    let ghost words = views_of(tokens@);
    let mut line = String::new();
    let mut i: usize = 0;
    proof {
        assert(words.take(0) =~= Seq::empty());
    }
    while i < tokens.len()
        invariant
            i <= tokens@.len(),
            words == views_of(tokens@),
            line@ == rendered(words.take(i as int)),
        decreases tokens@.len() - i,
    {
        proof {
            assert(words.take(i + 1).drop_last() =~= words.take(i as int));
            assert(words.take(i + 1).last() == tokens@[i as int]@);
        }
        append_spaced(&mut line, tokens[i].as_str());
        i = i + 1;
    }
    proof {
        assert(words.take(i as int) =~= words);
    }
    line
}

/// A reply from `model`: the text of `REPLY_TOKENS` tokens generated from
/// the start of a sequence with draws from `rng`. It is empty for the model
/// of an empty corpus.
pub fn reply<R: RandomSource>(model: &Model<String>, rng: &mut R) -> (line: String)
    ensures
        exists|draws: Seq<nat>|
            line@ == rendered(#[trigger] walk(model@, None, draws)) && walk(model@, None, draws).len()
                == if model@.dom().contains(None::<Seq<char>>) {
                REPLY_TOKENS as nat
            } else {
                0
            },
{
    let mut generator = Generator::new(model, rng);
    let tokens = generator.generate(REPLY_TOKENS);
    render(&tokens)
}

} // verus!
