//! Words of a transcript.
use crate::text::{characters, trim, trim_text};
use vstd::prelude::*;
use vstd::string::*;

verus! {

/// The mark before a word's first piece.
pub const WORD_START: char = '\u{2581}';

/// A decoded token with the samples it spans; its log probability by its bits.
#[derive(Clone, Debug, PartialEq, Eq)]
pub struct SpeechToken {
    pub id: u32,
    pub piece: String,
    pub start: u64,
    pub end: u64,
    pub logprob: u32,
}

/// The mathematical model of a [`SpeechToken`].
#[verifier::ext_equal]
pub struct TokenModel {
    pub id: u32,
    pub piece: Seq<char>,
    pub start: u64,
    pub end: u64,
    pub logprob: u32,
}

impl View for SpeechToken {
    type V = TokenModel;

    open spec fn view(&self) -> TokenModel {
        TokenModel {
            id: self.id,
            piece: self.piece@,
            start: self.start,
            end: self.end,
            logprob: self.logprob,
        }
    }
}

/// The models of tokens.
pub open spec fn token_models(tokens: Seq<SpeechToken>) -> Seq<TokenModel> {
    Seq::new(tokens.len(), |i: int| tokens[i]@)
}

/// A word with the samples it spans and its tokens.
#[derive(Debug)]
pub struct Word {
    pub text: String,
    pub start: u64,
    pub end: u64,
    pub tokens: Vec<SpeechToken>,
}

/// The mathematical model of a [`Word`].
#[verifier::ext_equal]
pub struct WordModel {
    pub text: Seq<char>,
    pub start: u64,
    pub end: u64,
    pub tokens: Seq<TokenModel>,
}

impl View for Word {
    type V = WordModel;

    open spec fn view(&self) -> WordModel {
        WordModel {
            text: self.text@,
            start: self.start,
            end: self.end,
            tokens: token_models(self.tokens@),
        }
    }
}

/// The models of words.
pub open spec fn word_models(words: Seq<Word>) -> Seq<WordModel> {
    Seq::new(words.len(), |i: int| words[i]@)
}

/// The token starts a word.
pub open spec fn starts_word(token: TokenModel) -> bool {
    token.piece.len() > 0 && token.piece[0] == WORD_START
}

/// The text of a piece: marks are spaces.
pub open spec fn spaced(piece: Seq<char>) -> Seq<char> {
    Seq::new(
        piece.len(),
        |i: int|
            if piece[i] == WORD_START {
                ' '
            } else {
                piece[i]
            },
    )
}

/// A word of one token, with its spaces.
pub open spec fn begun(token: TokenModel) -> WordModel {
    WordModel {
        text: spaced(token.piece),
        start: token.start,
        end: token.end,
        tokens: seq![token],
    }
}

/// A word with one more token.
pub open spec fn continued(word: WordModel, token: TokenModel) -> WordModel {
    WordModel {
        text: word.text + spaced(token.piece),
        start: word.start,
        end: token.end,
        tokens: word.tokens.push(token),
    }
}

/// The first `n` tokens in groups: each starts at a word start, or with the first token.
pub open spec fn grouped(tokens: Seq<TokenModel>, n: nat) -> Seq<WordModel>
    decreases n,
{
    if n == 0 {
        Seq::empty()
    } else {
        let before = grouped(tokens, (n - 1) as nat);
        let token = tokens[n - 1];
        if before.len() > 0 && !starts_word(token) {
            before.drop_last().push(continued(before.last(), token))
        } else {
            before.push(begun(token))
        }
    }
}

/// The words among the first `n` groups: without the space around them, and none of space alone.
pub open spec fn trimmed_words(groups: Seq<WordModel>, n: nat) -> Seq<WordModel>
    decreases n,
{
    if n == 0 {
        Seq::empty()
    } else {
        let before = trimmed_words(groups, (n - 1) as nat);
        let text = trim(groups[n - 1].text);
        if text.len() == 0 {
            before
        } else {
            before.push(WordModel { text, ..groups[n - 1] })
        }
    }
}

/// The words of tokens.
pub open spec fn words_of(tokens: Seq<TokenModel>) -> Seq<WordModel> {
    let groups = grouped(tokens, tokens.len());
    trimmed_words(groups, groups.len())
}

impl SpeechToken {
    /// An equal token of its own.
    pub fn duplicate(&self) -> (r: Self)
        ensures
            r@ == self@,
    {
        SpeechToken {
            id: self.id,
            piece: self.piece.as_str().to_owned(),
            start: self.start,
            end: self.end,
            logprob: self.logprob,
        }
    }
}

impl Word {
    /// An equal word of its own.
    pub fn duplicate(&self) -> (r: Self)
        ensures
            r@ == self@,
    {
        let mut tokens: Vec<SpeechToken> = Vec::new();
        let mut i: usize = 0;
        while i < self.tokens.len()
            invariant
                i <= self.tokens@.len(),
                token_models(tokens@) == token_models(self.tokens@).take(i as int),
            decreases self.tokens@.len() - i,
        {
            let ghost before = tokens@;
            let token: SpeechToken = self.tokens[i].duplicate();
            let ghost model = token@;
            tokens.push(token);
            proof {
                let all = token_models(self.tokens@);
                assert(token_models(tokens@) =~= token_models(before).push(model));
                assert(all[i as int] == model);
                assert(all.take(i + 1) =~= all.take(i as int).push(all[i as int]));
            }
            i += 1;
        }
        assert(token_models(self.tokens@).take(i as int) =~= token_models(self.tokens@));
        Word {
            text: self.text.as_str().to_owned(),
            start: self.start,
            end: self.end,
            tokens,
        }
    }
}

fn space_piece(piece: &str) -> (r: String)
    ensures
        r@ == spaced(piece@),
{
    let chars: Vec<char> = characters(piece);
    let mut text: String = String::new();
    let mut i: usize = 0;
    assert(text@ =~= spaced(piece@).take(0));
    while i < chars.len()
        invariant
            i <= chars@.len(),
            chars@ == piece@,
            text@ == spaced(piece@).take(i as int),
        decreases chars@.len() - i,
    {
        let c: char = if chars[i] == WORD_START {
            ' '
        } else {
            chars[i]
        };
        text.push(c);
        assert(spaced(piece@).take(i + 1) =~= spaced(piece@).take(i as int).push(c));
        i += 1;
    }
    assert(spaced(piece@).take(i as int) =~= spaced(piece@));
    text
}

fn is_word_start(piece: &str) -> (r: bool)
    ensures
        r == (piece@.len() > 0 && piece@[0] == WORD_START),
{
    let chars: Vec<char> = characters(piece);
    chars.len() > 0 && chars[0] == WORD_START
}

/// Groups tokens into words at word starts. Leading tokens without one form a word.
pub fn words(tokens: &Vec<SpeechToken>) -> (r: Vec<Word>)
    ensures
        word_models(r@) == words_of(token_models(tokens@)),
{
    let ghost all = token_models(tokens@);
    let mut groups: Vec<Word> = Vec::new();
    let mut i: usize = 0;
    assert(word_models(groups@) =~= grouped(all, 0));
    while i < tokens.len()
        invariant
            i <= tokens@.len(),
            all == token_models(tokens@),
            word_models(groups@) == grouped(all, i as nat),
        decreases tokens@.len() - i,
    {
        let ghost before = word_models(groups@);
        let token: SpeechToken = tokens[i].duplicate();
        assert(token@ == all[i as int]);
        let fresh: bool = is_word_start(token.piece.as_str());
        let text: String = space_piece(token.piece.as_str());
        assert(before.len() == groups@.len());
        match groups.pop() {
            None => {
                push_begun(&mut groups, token, text);
            },
            Some(last) => {
                assert(last@ == before.last());
                assert(word_models(groups@) =~= before.drop_last());
                if fresh {
                    push_word(&mut groups, last);
                    assert(word_models(groups@) =~= before);
                    push_begun(&mut groups, token, text);
                } else {
                    let ghost (word, model) = (last@, token@);
                    let mut parts: Vec<SpeechToken> = last.tokens;
                    let ghost had = parts@;
                    let end: u64 = token.end;
                    parts.push(token);
                    assert(token_models(parts@) =~= token_models(had).push(model));
                    let longer: Word = Word {
                        text: last.text.as_str().to_owned().concat(text.as_str()),
                        start: last.start,
                        end,
                        tokens: parts,
                    };
                    assert(longer@ =~= continued(word, model));
                    push_word(&mut groups, longer);
                }
            },
        }
        i += 1;
    }
    trim_words(groups)
}

fn push_word(list: &mut Vec<Word>, word: Word)
    ensures
        word_models(final(list)@) == word_models(old(list)@).push(word@),
{
    let ghost before = list@;
    let ghost model = word@;
    list.push(word);
    assert(word_models(list@) =~= word_models(before).push(model));
}

fn push_begun(list: &mut Vec<Word>, token: SpeechToken, text: String)
    requires
        text@ == spaced(token@.piece),
    ensures
        word_models(final(list)@) == word_models(old(list)@).push(begun(token@)),
{
    let ghost model = token@;
    let (start, end): (u64, u64) = (token.start, token.end);
    let mut parts: Vec<SpeechToken> = Vec::new();
    parts.push(token);
    assert(token_models(parts@) =~= seq![model]);
    push_word(list, Word { text, start, end, tokens: parts });
}

fn trim_words(groups: Vec<Word>) -> (r: Vec<Word>)
    ensures
        word_models(r@) == trimmed_words(word_models(groups@), groups@.len()),
{
    let ghost all = word_models(groups@);
    let mut list: Vec<Word> = Vec::new();
    assert(word_models(list@) =~= trimmed_words(all, 0));
    for group in it: groups
        invariant
            all == word_models(it.seq()),
            word_models(list@) == trimmed_words(all, it.index() as nat),
    {
        assert(group@ == all[it.index() as int]);
        let text: String = trim_text(group.text.as_str());
        if text.as_str().unicode_len() > 0 {
            push_word(
                &mut list,
                Word { text, start: group.start, end: group.end, tokens: group.tokens },
            );
        }
    }
    list
}

// ---------------------------------------------------------------------------------------------
// Laws
// ---------------------------------------------------------------------------------------------

/// The tokens of groups, one group after another.
pub open spec fn tokens_in(groups: Seq<WordModel>) -> Seq<TokenModel>
    decreases groups.len(),
{
    if groups.len() == 0 {
        Seq::empty()
    } else {
        tokens_in(groups.drop_last()) + groups.last().tokens
    }
}

/// Grouping keeps every token once and in order.
pub proof fn law_grouping_keeps_tokens_in_order(tokens: Seq<TokenModel>, n: nat)
    requires
        n <= tokens.len(),
    ensures
        tokens_in(grouped(tokens, n)) == tokens.take(n as int),
    decreases n,
{
    if n > 0 {
        law_grouping_keeps_tokens_in_order(tokens, (n - 1) as nat);
        let before = grouped(tokens, (n - 1) as nat);
        let all = grouped(tokens, n);
        let token = tokens[n - 1];
        assert(tokens.take(n as int) =~= tokens.take(n - 1).push(token));
        if before.len() > 0 && !starts_word(token) {
            assert(all.drop_last() =~= before.drop_last());
            assert(tokens_in(all) =~= tokens_in(before).push(token));
        } else {
            assert(all.drop_last() =~= before);
            assert(tokens_in(all) =~= tokens_in(before).push(token));
        }
    } else {
        assert(tokens.take(0) =~= Seq::empty());
    }
}

} // verus!
