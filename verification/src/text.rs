//! Tokens of text and the n-grams made of them.

use crate::strings::{
    char_is_alphanumeric, char_is_whitespace, is_alphanumeric, is_whitespace, lowercase_of,
    push_char, to_lowercase,
};
use vstd::prelude::*;
use vstd::std_specs::cmp::PartialEqSpecImpl;

verus! {

/// One token, or two tokens that follow each other.
#[derive(Debug, Clone, Eq)]
pub enum NGram {
    Unigram(String),
    Bigram(String, String),
}

#[derive(Clone, Copy, Debug, PartialEq, Eq, Hash, Structural)]
pub enum NGramType {
    Unigram,
    Bigram,
}

impl NGram {
    /// Whether two n-grams are of one kind and made of the same tokens.
    pub open spec fn same_tokens(self, other: NGram) -> bool {
        match (self, other) {
            (NGram::Unigram(a), NGram::Unigram(b)) => a@ == b@,
            (NGram::Bigram(a, b), NGram::Bigram(c, d)) => a@ == c@ && b@ == d@,
            _ => false,
        }
    }

    /// The kind of the n-gram.
    pub fn ngram_type(&self) -> (r: NGramType)
        ensures
            r == (match *self {
                NGram::Unigram(_) => NGramType::Unigram,
                NGram::Bigram(_, _) => NGramType::Bigram,
            }),
    {
        match self {
            NGram::Unigram(_) => NGramType::Unigram,
            NGram::Bigram(_, _) => NGramType::Bigram,
        }
    }
}

impl PartialEq for NGram {
    fn eq(&self, other: &NGram) -> (r: bool) {
        match (self, other) {
            (NGram::Unigram(self_token), NGram::Unigram(other_token)) => *self_token == *other_token,
            (
                NGram::Bigram(self_token_a, self_token_b),
                NGram::Bigram(other_token_a, other_token_b),
            ) => *self_token_a == *other_token_a && *self_token_b == *other_token_b,
            _ => false,
        }
    }
}

impl PartialEqSpecImpl for NGram {
    open spec fn obeys_eq_spec() -> bool {
        true
    }

    open spec fn eq_spec(&self, other: &NGram) -> bool {
        self.same_tokens(*other)
    }
}

/// How text is cut into tokens.
#[derive(Clone, Copy, Debug, PartialEq, Eq, Structural)]
pub struct Tokenizer {
    pub lowercase: bool,
    pub alphanumeric: bool,
}

impl Default for Tokenizer {
    fn default() -> (r: Tokenizer)
        ensures
            r == (Tokenizer { lowercase: true, alphanumeric: true }),
    {
        Tokenizer { lowercase: true, alphanumeric: true }
    }
}

/// A place in a string.
#[derive(Clone, Copy, Debug)]
pub struct StrCursor<'a> {
    pub string: &'a str,
    pub index: usize,
}

impl<'a> StrCursor<'a> {
    /// The start of the string.
    pub fn new(string: &'a str) -> (r: StrCursor<'a>)
        ensures
            r.string@ == string@,
            r.index == 0,
    {
        StrCursor { string, index: 0 }
    }
}

/// The state of cutting one string into tokens.
#[derive(Clone, Copy, Debug)]
pub struct TokenizerIterator<'a> {
    pub cursor: StrCursor<'a>,
    pub tokenizer: &'a Tokenizer,
}

/// The texts of strings.
pub open spec fn texts_of(strings: Seq<String>) -> Seq<Seq<char>> {
    strings.map_values(|text: String| text@)
}

impl Tokenizer {
    /// Whether a character belongs to a token of more than one character:
    /// a letter or digit, or, where the tokenizer does not tell letters and
    /// digits from other characters, any character but white space.
    pub open spec fn joins(self, c: char) -> bool {
        !char_is_whitespace(c) && (!self.alphanumeric || char_is_alphanumeric(c))
    }

    /// The tokens of a text before they are put in lower case. White space
    /// separates tokens and belongs to none. Characters that join and
    /// follow each other make one token; every other character is a token
    /// by itself.
    pub open spec fn cut(self, text: Seq<char>) -> Seq<Seq<char>>
        decreases text.len(),
    {
        if text.len() == 0 {
            Seq::empty()
        } else {
            let before = self.cut(text.drop_last());
            let c = text.last();
            if char_is_whitespace(c) {
                before
            } else if self.joins(c) && text.len() >= 2 && self.joins(text[text.len() - 2]) {
                before.update(before.len() - 1, before.last().push(c))
            } else {
                before.push(seq![c])
            }
        }
    }

    /// A token as it is given out: in lower case where the tokenizer asks
    /// for it.
    pub open spec fn finished(self, token: Seq<char>) -> Seq<char> {
        if self.lowercase {
            lowercase_of(token)
        } else {
            token
        }
    }

    /// The tokens of a text.
    pub open spec fn tokens(self, text: Seq<char>) -> Seq<Seq<char>> {
        self.cut(text).map_values(|token: Seq<char>| self.finished(token))
    }

    /// Cuts a text into its tokens.
    #[verifier::rlimit(40)]
    pub fn tokenize(&self, text: &str) -> (r: Vec<String>)
        ensures
            texts_of(r@) == self.tokens(text@),
    {
        let mut tokens: Vec<String> = Vec::new();
        let mut current: String = String::new();
        let mut open: bool = false;
        for c in iter: text.chars()
            invariant
                iter.seq() == text@,
                open ==> iter.index() > 0 && self.joins(text@[iter.index() - 1]) && current@.len()
                    > 0,
                !open ==> (iter.index() == 0 || !self.joins(text@[iter.index() - 1])),
                open ==> self.cut(text@.take(iter.index())).len() == tokens@.len() + 1
                    && self.cut(text@.take(iter.index())).last() == current@,
                !open ==> self.cut(text@.take(iter.index())).len() == tokens@.len(),
                forall|k: int|
                    0 <= k < tokens@.len() ==> (#[trigger] tokens@[k])@ == self.finished(
                        self.cut(text@.take(iter.index()))[k],
                    ),
        {
            let ghost index = iter.index();
            let ghost seen = text@.take(index);
            let ghost next = text@.take(index + 1);
            let ghost before = self.cut(seen);
            proof {
                assert(next.drop_last() =~= seen);
                assert(next.last() == c);
                if index > 0 {
                    assert(next[next.len() - 2] == text@[index - 1]);
                }
            }
            let joins: bool = !is_whitespace(c) && (!self.alphanumeric || is_alphanumeric(c));
            if open && joins {
                push_char(&mut current, c);
                proof {
                    let after = self.cut(next);
                    assert(after == before.update(before.len() - 1, before.last().push(c)));
                    assert forall|k: int| 0 <= k < tokens@.len() implies (#[trigger] tokens@[k])@
                        == self.finished(after[k]) by {
                        assert(after[k] == before[k]);
                    }
                }
            } else {
                if open {
                    let finished: String = if self.lowercase {
                        to_lowercase(current.as_str())
                    } else {
                        current
                    };
                    tokens.push(finished);
                    open = false;
                }
                if is_whitespace(c) {
                    current = String::new();
                } else if joins {
                    current = String::new();
                    push_char(&mut current, c);
                    open = true;
                    proof {
                        assert(current@ =~= seq![c]);
                    }
                } else {
                    let mut single: String = String::new();
                    push_char(&mut single, c);
                    let finished: String = if self.lowercase {
                        to_lowercase(single.as_str())
                    } else {
                        single
                    };
                    proof {
                        assert(single@ =~= seq![c]);
                    }
                    tokens.push(finished);
                    current = String::new();
                }
                proof {
                    let after = self.cut(next);
                    if !char_is_whitespace(c) {
                        assert(after == before.push(seq![c]));
                    }
                    assert forall|k: int| 0 <= k < tokens@.len() implies (#[trigger] tokens@[k])@
                        == self.finished(after[k]) by {
                        if k < before.len() {
                            assert(after[k] == before[k]);
                        }
                    }
                }
            }
        }
        proof {
            assert(text@.take(text@.len() as int) =~= text@);
        }
        if open {
            let finished: String = if self.lowercase {
                to_lowercase(current.as_str())
            } else {
                current
            };
            tokens.push(finished);
        }
        proof {
            assert(texts_of(tokens@) =~= self.tokens(text@));
        }
        tokens
    }
}

} // verus!
