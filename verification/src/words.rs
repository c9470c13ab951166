//! Splitting text into words, symbols and line breaks.

use crate::model::views;
use vstd::prelude::*;
use vstd::std_specs::iter::IteratorSpec;

verus! {

/// Whether `c` is alphanumeric, as `char::is_alphanumeric` of the standard
/// library decides it from the Unicode tables.
pub uninterp spec fn alphanumeric(c: char) -> bool;

/// Calls `char::is_alphanumeric`. Nothing is proved of the answer: the
/// contract gives it the name [`alphanumeric`].
#[verifier::external_body]
pub(crate) fn is_alphanumeric(c: char) -> (b: bool)
    ensures
        b == alphanumeric(c),
{
    c.is_alphanumeric()
}

/// `String::push` appends one character to the end of the string.
pub assume_specification[ String::push ](s: &mut String, c: char)
    ensures
        final(s)@ == old(s)@.push(c),
;

/// One unit of text.
#[derive(Debug, PartialEq, Eq)]
pub enum Word {
    /// A longest possible run of alphanumeric characters.
    Text(String),
    /// A single character that is neither alphanumeric nor a line break.
    Symbol(char),
    /// A line break.
    Newline,
}

/// The number of alphanumeric characters at the front of `s`.
pub open spec fn run_length(s: Seq<char>) -> nat
    decreases s.len(),
{
    if s.len() > 0 && alphanumeric(s[0]) {
        1 + run_length(s.skip(1))
    } else {
        0
    }
}

/// The length of the first word of a non-empty `s`: its leading alphanumeric
/// run, or one character where it starts with none.
pub open spec fn first_length(s: Seq<char>) -> nat {
    if run_length(s) > 0 {
        run_length(s)
    } else {
        1
    }
}

/// The texts of the words of `s`, in order.
pub open spec fn pieces(s: Seq<char>) -> Seq<Seq<char>>
    decreases s.len(),
    via pieces_decreases
{
    if s.len() == 0 {
        Seq::empty()
    } else {
        seq![s.take(first_length(s) as int)] + pieces(s.skip(first_length(s) as int))
    }
}

#[via_fn]
proof fn pieces_decreases(s: Seq<char>) {
    lemma_run_length_bounded(s);
}

/// The leading alphanumeric run of `s` lies within `s`, every character of
/// it is alphanumeric, and the character behind it, if there is one, is not.
pub proof fn lemma_run_length_bounded(s: Seq<char>)
    ensures
        run_length(s) <= s.len(),
        forall|i: int| 0 <= i < run_length(s) ==> alphanumeric(#[trigger] s[i]),
        run_length(s) < s.len() ==> !alphanumeric(s[run_length(s) as int]),
    decreases s.len(),
{
    if s.len() > 0 && alphanumeric(s[0]) {
        lemma_run_length_bounded(s.skip(1));
        assert forall|i: int| 0 <= i < run_length(s) implies alphanumeric(#[trigger] s[i]) by {
            if i > 0 {
                assert(s[i] == s.skip(1)[i - 1]);
            }
        }
        if run_length(s) < s.len() {
            assert(s[run_length(s) as int] == s.skip(1)[run_length(s.skip(1)) as int]);
        }
    }
}

/// The texts of a sequence of words.
pub open spec fn texts(words: Seq<Word>) -> Seq<Seq<char>> {
    words.map_values(|w: Word| w.text())
}

/// Laid end to end, the words of a text give the text back.
pub proof fn lemma_pieces_cover(s: Seq<char>)
    ensures
        pieces(s).flatten() == s,
    decreases s.len(),
{
    if s.len() > 0 {
        lemma_run_length_bounded(s);
        let n = first_length(s) as int;
        lemma_pieces_cover(s.skip(n));
        assert(pieces(s).first() == s.take(n));
        assert(pieces(s).drop_first() == pieces(s.skip(n)));
        assert(s.take(n) + s.skip(n) == s);
    }
}

/// Every word of a text is non-empty, and is either a run of alphanumeric
/// characters or one character that is not alphanumeric.
pub proof fn lemma_pieces_shape(s: Seq<char>)
    ensures
        forall|i: int|
            0 <= i < pieces(s).len() ==> {
                let p = #[trigger] pieces(s)[i];
                &&& p.len() > 0
                &&& alphanumeric(p[0]) ==> forall|j: int| 0 <= j < p.len() ==> alphanumeric(p[j])
                &&& !alphanumeric(p[0]) ==> p.len() == 1
            },
    decreases s.len(),
{
    if s.len() > 0 {
        lemma_run_length_bounded(s);
        let n = first_length(s) as int;
        lemma_pieces_shape(s.skip(n));
        assert forall|i: int| 0 <= i < pieces(s).len() implies {
            let p = #[trigger] pieces(s)[i];
            &&& p.len() > 0
            &&& alphanumeric(p[0]) ==> forall|j: int| 0 <= j < p.len() ==> alphanumeric(p[j])
            &&& !alphanumeric(p[0]) ==> p.len() == 1
        } by {
            if i > 0 {
                assert(pieces(s)[i] == pieces(s.skip(n))[i - 1]);
            }
        }
    }
}

/// No two neighbouring words of a text are both alphanumeric runs: a run is
/// never cut in two.
pub proof fn lemma_pieces_maximal(s: Seq<char>)
    ensures
        forall|i: int|
            0 <= i < pieces(s).len() - 1 ==> !(alphanumeric(#[trigger] pieces(s)[i][0])
                && alphanumeric(pieces(s)[i + 1][0])),
    decreases s.len(),
{
    if s.len() > 0 {
        lemma_run_length_bounded(s);
        let n = first_length(s) as int;
        let tail = s.skip(n);
        lemma_pieces_maximal(tail);
        assert forall|i: int| 0 <= i < pieces(s).len() - 1 implies !(alphanumeric(
            #[trigger] pieces(s)[i][0],
        ) && alphanumeric(pieces(s)[i + 1][0])) by {
            assert(pieces(s)[i + 1] == pieces(tail)[i]);
            if i > 0 {
                assert(pieces(s)[i] == pieces(tail)[i - 1]);
            } else if alphanumeric(s[0]) {
                lemma_run_length_bounded(tail);
                assert(pieces(tail)[0] == tail.take(first_length(tail) as int));
                assert(pieces(tail)[0][0] == s[n]);
            }
        }
    }
}

/// Whether a word with the text `piece` is a line break.
pub open spec fn line_break(piece: Seq<char>) -> bool {
    !alphanumeric(piece[0]) && piece[0] == '\n'
}

impl Word {
    /// The characters that the word stands for in the text.
    pub open spec fn text(self) -> Seq<char> {
        match self {
            Word::Text(s) => s@,
            Word::Symbol(c) => seq![c],
            Word::Newline => seq!['\n'],
        }
    }

    /// Whether the word is the reading of `piece`: it has its characters, and
    /// the kind that the first of them decides.
    pub open spec fn spells(self, piece: Seq<char>) -> bool {
        &&& self.text() == piece
        &&& (self is Text <==> alphanumeric(piece[0]))
        &&& (self is Newline <==> line_break(piece))
    }

    /// Whether the word is a line break.
    pub fn is_newline(&self) -> (b: bool)
        ensures
            b == (self is Newline),
    {
        match self {
            Word::Newline => true,
            _ => false,
        }
    }

    /// The word as an owned string of its characters.
    pub fn into_string(self) -> (s: String)
        ensures
            s@ == self.text(),
    {
        match self {
            Word::Text(s) => s,
            Word::Symbol(c) => {
                let mut s = String::new();
                s.push(c);
                s
            },
            Word::Newline => {
                let mut s = String::new();
                s.push('\n');
                s
            },
        }
    }
}

/// A tokenizer over a text: hands out its words one at a time.
pub struct Words {
    chars: Vec<char>,
    at: usize,
}

impl Words {
    #[verifier::type_invariant]
    spec fn inv(self) -> bool {
        self.at <= self.chars@.len()
    }

    /// The part of the text that has not been handed out yet.
    pub closed spec fn rest(&self) -> Seq<char> {
        self.chars@.skip(self.at as int)
    }

    /// A tokenizer at the start of `text`.
    pub fn new(text: &str) -> (words: Words)
        ensures
            words.rest() == text@,
    {
        let mut chars: Vec<char> = Vec::new();
        let mut source = text.chars();
        loop
            invariant
                source.obeys_prophetic_iter_laws(),
                chars@ + source.remaining() == text@,
            ensures
                chars@ == text@,
            decreases text@.len() - chars@.len(),
        {
            match source.next() {
                Some(c) => {
                    chars.push(c);
                },
                None => {
                    break ;
                },
            }
        }
        Words { chars, at: 0 }
    }

    /// Hands out the next word: the first word of what is left of the text,
    /// or `None` once nothing is left.
    pub fn next_word(&mut self) -> (word: Option<Word>)
        ensures
            match word {
                None => old(self).rest().len() == 0 && final(self).rest().len() == 0,
                Some(w) => {
                    let s = old(self).rest();
                    &&& s.len() > 0
                    &&& w.spells(s.take(first_length(s) as int))
                    &&& final(self).rest() == s.skip(first_length(s) as int)
                },
            },
    {
        proof {
            use_type_invariant(&*self);
        }
        let len = self.chars.len();
        if self.at >= len {
            return None;
        }
        let ghost s = self.rest();
        let start = self.at;
        let c = self.chars[start];
        assert(s[0] == c);
        if !is_alphanumeric(c) {
            self.at = start + 1;
            assert(s.take(1) == seq![c]);
            return Some(if c == '\n' { Word::Newline } else { Word::Symbol(c) });
        }
        let mut text = String::new();
        while self.at < len
            invariant
                len == self.chars@.len(),
                self.chars == old(self).chars,
                start <= self.at <= len,
                s == self.chars@.skip(start as int),
                text@ == self.chars@.subrange(start as int, self.at as int),
                run_length(s) == (self.at - start) + run_length(self.chars@.skip(self.at as int)),
            ensures
                start <= self.at <= len,
                self.chars == old(self).chars,
                run_length(s) == self.at - start,
                text@ == self.chars@.subrange(start as int, self.at as int),
            decreases len - self.at,
        {
            let next = self.chars[self.at];
            assert(self.chars@.skip(self.at as int)[0] == next);
            if !is_alphanumeric(next) {
                break ;
            }
            assert(self.chars@.skip(self.at as int).skip(1) == self.chars@.skip(self.at + 1));
            text.push(next);
            self.at = self.at + 1;
        }
        assert(s.take(first_length(s) as int) == text@);
        Some(Word::Text(text))
    }
}

/// Splits `text` into its words: every alphanumeric run as one `Text`, every
/// other character as a word of its own, a line break as `Newline`.
pub fn tokenize(text: &str) -> (words: Vec<Word>)
    ensures
        words@.len() == pieces(text@).len(),
        forall|i: int| 0 <= i < words@.len() ==> (#[trigger] words@[i]).spells(pieces(text@)[i]),
        texts(words@).flatten() == text@,
        forall|i: int| 0 <= i < words@.len() ==> (#[trigger] words@[i]).text().len() > 0,
        forall|i: int|
            0 <= i < words@.len() - 1 ==> !(#[trigger] words@[i] is Text && words@[i + 1] is Text),
{
    let mut source = Words::new(text);
    let mut words: Vec<Word> = Vec::new();
    let ghost all = pieces(text@);
    loop
        invariant
            all == pieces(text@),
            words@.len() <= all.len(),
            all == all.take(words@.len() as int) + pieces(source.rest()),
            forall|i: int| 0 <= i < words@.len() ==> (#[trigger] words@[i]).spells(all[i]),
        ensures
            words@.len() == all.len(),
            forall|i: int| 0 <= i < words@.len() ==> (#[trigger] words@[i]).spells(all[i]),
        decreases source.rest().len(),
    {
        let ghost s = source.rest();
        let ghost k = words@.len() as int;
        match source.next_word() {
            Some(w) => {
                proof {
                    lemma_run_length_bounded(s);
                    let n = first_length(s) as int;
                    assert(pieces(s)[0] == s.take(n));
                    assert(all[k] == s.take(n));
                    assert(all =~= all.take(k + 1) + pieces(s.skip(n)));
                }
                words.push(w);
            },
            None => {
                break ;
            },
        }
    }
    proof {
        lemma_pieces_cover(text@);
        lemma_pieces_shape(text@);
        lemma_pieces_maximal(text@);
        assert(texts(words@) =~= all);
    }
    words
}

/// The tokens that a model is trained on: the texts of the words of `s`,
/// line breaks left out.
pub open spec fn corpus_of(s: Seq<char>) -> Seq<Seq<char>> {
    pieces(s).filter(|piece: Seq<char>| !line_break(piece))
}

/// Tokenizes `text` for training: drops the line breaks and hands out every
/// other word as a string of its own.
pub fn corpus(text: &str) -> (tokens: Vec<String>)
    ensures
        views(tokens@) == corpus_of(text@),
{
    let words = tokenize(text);
    let mut tokens: Vec<String> = Vec::new();
    let ghost all = pieces(text@);
    let ghost keep = |piece: Seq<char>| !line_break(piece);
    proof {
        reveal(Seq::filter);
        assert(all.take(0) =~= Seq::empty());
    }
    for word in it: words
        invariant
            all == pieces(text@),
            keep == |piece: Seq<char>| !line_break(piece),
            it.seq().len() == all.len(),
            forall|i: int| 0 <= i < all.len() ==> (#[trigger] it.seq()[i]).spells(all[i]),
            views(tokens@) == all.take(it.index()).filter(keep),
    {
        let ghost i = it.index();
        proof {
            reveal(Seq::filter);
            assert(all.take(i + 1).drop_last() =~= all.take(i));
            assert(all.take(i + 1).last() == all[i]);
        }
        if !word.is_newline() {
            let token = word.into_string();
            assert(views(tokens@.push(token)) =~= views(tokens@).push(token@));
            tokens.push(token);
        }
    }
    assert(all.take(all.len() as int) =~= all);
    tokens
}

} // verus!
