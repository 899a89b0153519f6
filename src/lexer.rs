//! A tokenizer driven by an ordered list of (class, pattern) rules.
//!
//! At each position the rules are tried in order against the rest of the
//! text; the first one whose pattern matches a non-empty prefix wins. Where no
//! rule matches, exactly one character is emitted as `Unmatched`.
use vstd::prelude::*;
use vstd::std_specs::iter::IteratorSpec;
use vstd::utf8::{encode_scalar, encode_utf8};

verus! {

/// `regex::Regex`, a compiled pattern, carried as an opaque value.
#[verifier::external_type_specification]
#[verifier::external_body]
pub struct ExRegex(regex::Regex);

/// `regex::Error`, why a pattern did not compile, carried as an opaque value.
#[verifier::external_type_specification]
#[verifier::external_body]
pub struct ExRegexError(regex::Error);

/// Whether `regex::Regex::new` accepts this pattern.
pub uninterp spec fn regex_compiles(pattern: Seq<char>) -> bool;

/// What `regex::Regex::find` reports for a pattern on a haystack: the byte
/// offset where the leftmost-first match starts, and the text it covers.
pub uninterp spec fn regex_find(pattern: Seq<char>, haystack: Seq<char>) -> Option<(nat, Seq<char>)>;

/// Relies on `regex::Regex::new`: it returns a regex exactly when it accepts
/// the pattern, which depends on the pattern alone.
#[verifier::external_body]
fn compile(pattern: &str) -> (r: Result<regex::Regex, regex::Error>)
    ensures
        r is Ok <==> regex_compiles(pattern@),
{
    regex::Regex::new(pattern)
}

/// The number of bytes of the UTF-8 encoding of `s`.
pub open spec fn utf8_len(s: Seq<char>) -> nat {
    encode_utf8(s).len()
}

/// Relies on `regex::Regex::find` on `source` from byte offset `byte_start`
/// on, which is where its first `char_start` characters end; `Match::start`
/// is the byte offset of the match and `Match::as_str` its text, so a match
/// that starts at offset 0 is a prefix of the haystack.
/// The rule's regex is the one compiled from its pattern (see `Lexer::define_token`).
#[verifier::external_body]
fn find_from<T>(rule: &Rule<T>, source: &String, char_start: usize, byte_start: usize) -> (r: Option<
    (usize, Vec<char>, usize),
>)
    requires
        char_start <= source@.len(),
        byte_start == utf8_len(source@.take(char_start as int)),
    ensures
        match r {
            None => regex_find(rule.pattern@, source@.skip(char_start as int)) is None,
            Some((b, m, w)) => {
                &&& regex_find(rule.pattern@, source@.skip(char_start as int)) == Some((b as nat, m@))
                &&& w == utf8_len(m@)
                &&& b == 0 ==> m@.len() <= source@.len() - char_start && m@ =~= source@.subrange(
                    char_start as int,
                    char_start + m@.len(),
                )
            },
        },
{
    let hay = &source[byte_start..];
    rule.regex.find(hay).map(|m| (m.start(), m.as_str().chars().collect(), m.as_str().len()))
}

/// Relies on `str::len`: the length of `s` in bytes, that is, of its UTF-8
/// encoding.
#[verifier::external_body]
fn byte_len(s: &str) -> (r: usize)
    ensures
        r == utf8_len(s@),
{
    s.len()
}

/// The number of bytes `c` takes in UTF-8.
fn char_width(c: char) -> (r: usize)
    ensures
        r == utf8_len(seq![c]),
{
    proof {
        vstd::utf8::char_is_scalar(c);
        assert(seq![c].drop_first() =~= Seq::<char>::empty());
        assert(encode_utf8(Seq::<char>::empty()) =~= Seq::<u8>::empty());
        assert(encode_utf8(seq![c]) == encode_scalar(c as u32) + encode_utf8(seq![c].drop_first()));
        assert(encode_utf8(seq![c]) =~= encode_scalar(c as u32));
    }
    let v = c as u32;
    if v <= 0x7F {
        1
    } else if v <= 0x7FF {
        2
    } else if v <= 0xFFFF {
        3
    } else {
        4
    }
}

/// Relies on `String`'s `FromIterator<&char>`: the string of these characters.
#[verifier::external_body]
pub(crate) fn string_of(chars: &Vec<char>) -> (r: String)
    ensures
        r@ == chars@,
{
    chars.iter().collect()
}

/// The class a token was given.
#[derive(PartialEq, Eq, Clone, Copy, Debug)]
pub enum Token<T> {
    /// A rule of this class matched the token's text.
    Matched(T),
    /// No rule matched; the token is a single character.
    Unmatched,
}

/// Why a rule could not be added.
#[derive(PartialEq, Eq, Clone, Copy, Debug)]
pub enum PatternError {
    /// The pattern is not a regular expression that can be compiled.
    Invalid,
}

/// One rule: a class and the compiled form of its pattern.
pub struct Rule<T> {
    class: T,
    pattern: String,
    regex: regex::Regex,
}

/// The length of a rule's hit on `text`: the match counts only where it
/// starts at the beginning of `text` and is non-empty.
pub open spec fn hit_len(pattern: Seq<char>, text: Seq<char>) -> Option<nat> {
    match regex_find(pattern, text) {
        Some((start, m)) => if start == 0 && 0 < m.len() <= text.len() && m =~= text.take(
            m.len() as int,
        ) {
            Some(m.len())
        } else {
            None
        },
        None => None,
    }
}

/// The index of the first rule, from `from` on, that hits `text`.
pub open spec fn first_hit<T>(rules: Seq<(T, Seq<char>)>, text: Seq<char>, from: int) -> Option<
    int,
>
    decreases rules.len() - from,
{
    if from < 0 || from >= rules.len() {
        None
    } else if hit_len(rules[from].1, text) is Some {
        Some(from)
    } else {
        first_hit(rules, text, from + 1)
    }
}

/// The token at the start of a non-empty `text`, and how many characters it
/// takes.
pub open spec fn first_token<T>(rules: Seq<(T, Seq<char>)>, text: Seq<char>) -> (Token<T>, nat) {
    match first_hit(rules, text, 0) {
        Some(i) => (Token::Matched(rules[i].0), hit_len(rules[i].1, text).unwrap()),
        None => (Token::Unmatched, 1),
    }
}

/// The whole token sequence of `text` under `rules`.
pub open spec fn lex_spec<T>(rules: Seq<(T, Seq<char>)>, text: Seq<char>) -> Seq<(Token<T>, Seq<char>)>
    decreases text.len(),
{
    if text.len() == 0 {
        seq![]
    } else {
        let n = first_token(rules, text).1;
        if 0 < n <= text.len() {
            seq![(first_token(rules, text).0, text.take(n as int))] + lex_spec(
                rules,
                text.skip(n as int),
            )
        } else {
            seq![]
        }
    }
}

/// The texts of a token sequence, one after the other.
pub open spec fn concat_texts<T>(toks: Seq<(Token<T>, Seq<char>)>) -> Seq<char>
    decreases toks.len(),
{
    if toks.len() == 0 {
        seq![]
    } else {
        toks[0].1 + concat_texts(toks.drop_first())
    }
}

proof fn lemma_first_hit_found<T>(rules: Seq<(T, Seq<char>)>, text: Seq<char>, from: int)
    ensures
        first_hit(rules, text, from) matches Some(i) ==> from <= i < rules.len() && hit_len(
            rules[i].1,
            text,
        ) is Some && (forall|k: int| from <= k < i ==> hit_len(#[trigger] rules[k].1, text) is None),
        first_hit(rules, text, from) is None ==> forall|k: int|
            0 <= from <= k < rules.len() ==> hit_len(#[trigger] rules[k].1, text) is None,
    decreases rules.len() - from,
{
    if from >= 0 && from < rules.len() && hit_len(rules[from].1, text) is None {
        lemma_first_hit_found(rules, text, from + 1);
    }
}

/// The first token of a non-empty text takes at least one and at most all of
/// its characters.
pub proof fn lemma_first_token_len<T>(rules: Seq<(T, Seq<char>)>, text: Seq<char>)
    requires
        text.len() > 0,
    ensures
        0 < first_token(rules, text).1 <= text.len(),
{
    lemma_first_hit_found(rules, text, 0);
}

/// The encoding of two texts one after the other is the two encodings one
/// after the other.
pub proof fn lemma_utf8_len_concat(a: Seq<char>, b: Seq<char>)
    ensures
        utf8_len(a + b) == utf8_len(a) + utf8_len(b),
        utf8_len(a) >= a.len(),
    decreases a.len(),
{
    if a.len() == 0 {
        assert(a + b =~= b);
    } else {
        lemma_utf8_len_concat(a.drop_first(), b);
        assert((a + b).drop_first() =~= a.drop_first() + b);
        assert((a + b)[0] == a[0]);
    }
}

/// There are never more tokens than characters.
pub proof fn lemma_lex_len<T>(rules: Seq<(T, Seq<char>)>, text: Seq<char>)
    ensures
        lex_spec(rules, text).len() <= text.len(),
    decreases text.len(),
{
    if text.len() > 0 {
        lemma_first_token_len(rules, text);
        lemma_lex_len(rules, text.skip(first_token(rules, text).1 as int));
    }
}

/// Tokenizing loses and adds nothing: the texts of all tokens, in order,
/// spell out the input exactly.
pub proof fn lemma_lex_covers_input<T>(rules: Seq<(T, Seq<char>)>, text: Seq<char>)
    ensures
        concat_texts(lex_spec(rules, text)) == text,
    decreases text.len(),
{
    if text.len() > 0 {
        lemma_first_token_len(rules, text);
        let n = first_token(rules, text).1;
        let toks = lex_spec(rules, text);
        lemma_lex_covers_input(rules, text.skip(n as int));
        assert(toks.drop_first() =~= lex_spec(rules, text.skip(n as int)));
        assert(text.take(n as int) + text.skip(n as int) =~= text);
    } else {
        assert(concat_texts(lex_spec(rules, text)) =~= text);
    }
}

/// Tokenizing is deterministic: two token lists that each agree, token by
/// token, with the tokens of the same text under the same rules (as
/// `Lexer::tokenize` promises of its result) are the same list.
pub proof fn lemma_lex_deterministic<T>(
    rules: Seq<(T, Seq<char>)>,
    text: Seq<char>,
    a: Seq<(Token<T>, Seq<char>)>,
    b: Seq<(Token<T>, Seq<char>)>,
)
    requires
        a.len() == lex_spec(rules, text).len(),
        b.len() == lex_spec(rules, text).len(),
        forall|k: int| 0 <= k < a.len() ==> #[trigger] a[k] == lex_spec(rules, text)[k],
        forall|k: int| 0 <= k < b.len() ==> #[trigger] b[k] == lex_spec(rules, text)[k],
    ensures
        a == b,
{
    assert(a =~= b);
}

proof fn lemma_first_hit_push<T>(rules: Seq<(T, Seq<char>)>, extra: (T, Seq<char>), text: Seq<char>, from: int)
    requires
        0 <= from,
        first_hit(rules, text, from) is Some,
    ensures
        first_hit(rules.push(extra), text, from) == first_hit(rules, text, from),
    decreases rules.len() - from,
{
    if from < rules.len() {
        assert(rules.push(extra)[from] == rules[from]);
        if hit_len(rules[from].1, text) is None {
            lemma_first_hit_push(rules, extra, text, from + 1);
        }
    }
}

/// A rule added after the others (as `Lexer::define_token` adds it) never
/// changes a token where one of the earlier rules matches: wherever an
/// earlier rule matches, the new rule's class is not the one emitted.
pub proof fn lemma_appended_rule_keeps_tokens<T>(
    rules: Seq<(T, Seq<char>)>,
    extra: (T, Seq<char>),
    text: Seq<char>,
    j: int,
)
    requires
        text.len() > 0,
        0 <= j < rules.len(),
        hit_len(rules[j].1, text) is Some,
    ensures
        first_token(rules.push(extra), text) == first_token(rules, text),
        lex_spec(rules.push(extra), text)[0] == lex_spec(rules, text)[0],
{
    lemma_first_hit_found(rules, text, 0);
    lemma_first_hit_push(rules, extra, text, 0);
    let i = first_hit(rules, text, 0)->0;
    assert(rules.push(extra)[i] == rules[i]);
    lemma_first_token_len(rules, text);
}

/// Where several rules match at the start of the text, the token takes the
/// class of the earliest of them: its rule index is never above that of any
/// rule that matches.
pub proof fn lemma_earlier_rule_wins<T>(rules: Seq<(T, Seq<char>)>, text: Seq<char>, j: int)
    requires
        text.len() > 0,
        0 <= j < rules.len(),
        hit_len(rules[j].1, text) is Some,
    ensures
        first_hit(rules, text, 0) matches Some(i) && i <= j && lex_spec(rules, text)[0] == (
            Token::Matched(rules[i].0),
            text.take(hit_len(rules[i].1, text).unwrap() as int),
        ),
{
    lemma_first_hit_found(rules, text, 0);
    lemma_first_token_len(rules, text);
}

/// A character that no rule matches becomes exactly one `Unmatched` token of
/// that single character; and every `Unmatched` token of any input holds
/// exactly one character.
pub proof fn lemma_unmatched_is_one_char<T>(rules: Seq<(T, Seq<char>)>, text: Seq<char>)
    ensures
        text.len() > 0 && (forall|k: int| 0 <= k < rules.len() ==> hit_len(#[trigger] rules[k].1, text) is None)
            ==> lex_spec(rules, text)[0] == (Token::<T>::Unmatched, seq![text[0]]),
        forall|k: int|
            0 <= k < lex_spec(rules, text).len() && (#[trigger] lex_spec(rules, text)[k]).0
                is Unmatched ==> lex_spec(rules, text)[k].1.len() == 1,
    decreases text.len(),
{
    if text.len() > 0 {
        lemma_first_hit_found(rules, text, 0);
        lemma_first_token_len(rules, text);
        let n = first_token(rules, text).1;
        lemma_unmatched_is_one_char(rules, text.skip(n as int));
        let toks = lex_spec(rules, text);
        let rest = lex_spec(rules, text.skip(n as int));
        assert(toks == seq![(first_token(rules, text).0, text.take(n as int))] + rest);
        assert forall|k: int| 0 <= k < toks.len() && (#[trigger] toks[k]).0 is Unmatched implies toks[k].1.len()
            == 1 by {
            if k > 0 {
                assert(toks[k] == rest[k - 1]);
            }
        }
        if forall|k: int| 0 <= k < rules.len() ==> hit_len(#[trigger] rules[k].1, text) is None {
            assert(text.take(1) =~= seq![text[0]]);
        }
    }
}


/// The characters of `s`, in order.
pub fn chars_of(s: &str) -> (r: Vec<char>)
    ensures
        r@ == s@,
{
    broadcast use vstd::string::axiom_spec_iter, vstd::string::next_postcondition;

    let mut it = s.chars();
    let mut v: Vec<char> = Vec::new();
    loop
        invariant
            v@ + it.remaining() == s@,
            it.decrease() is Some,
        decreases it.decrease()->0,
    {
        match it.next() {
            Some(c) => {
                v.push(c);
                assert(v@ + it.remaining() =~= s@);
            },
            None => {
                assert(v@ =~= s@);
                return v;
            },
        }
    }
}

impl<T> Rule<T> {
    /// The rule as a class and the characters of its pattern.
    pub closed spec fn view_pair(&self) -> (T, Seq<char>) {
        (self.class, self.pattern@)
    }
}

/// An ordered list of rules; earlier rules take priority.
pub struct Lexer<T> {
    rules: Vec<Rule<T>>,
}

impl<T: Copy> Lexer<T> {
    /// The rules, in order, as (class, pattern) pairs.
    pub closed spec fn rules_view(&self) -> Seq<(T, Seq<char>)> {
        self.rules@.map_values(|r: Rule<T>| r.view_pair())
    }

    /// A lexer with no rules.
    pub fn new() -> (r: Lexer<T>)
        ensures
            r.rules_view() == Seq::<(T, Seq<char>)>::empty(),
    {
        let r = Lexer { rules: Vec::new() };
        assert(r.rules_view() =~= Seq::<(T, Seq<char>)>::empty());
        r
    }

    /// Adds a rule after all the existing ones. A pattern that does not
    /// compile is refused and leaves the lexer as it was.
    pub fn define_token(&mut self, class: T, pattern: &str) -> (r: Result<(), PatternError>)
        ensures
            r is Ok <==> regex_compiles(pattern@),
            r is Ok ==> final(self).rules_view() == old(self).rules_view().push((class, pattern@)),
            r is Err ==> final(self).rules_view() == old(self).rules_view(),
    {
        match compile(pattern) {
            Ok(regex) => {
                let rule = Rule { class, pattern: pattern.to_owned(), regex };
                self.rules.push(rule);
                assert(self.rules_view() =~= old(self).rules_view().push((class, pattern@)));
                Ok(())
            },
            Err(_) => Err(PatternError::Invalid),
        }
    }

    /// A token stream over `text`, starting at its first character.
    pub fn lex(&self, text: &str) -> (r: TokenIterator<'_, T>)
        ensures
            r.wf(),
            r.remaining() == lex_spec(self.rules_view(), text@),
    {
        let chars = chars_of(text);
        // the byte length is a `usize`: reading it bounds the text's size
        let _bytes = byte_len(text);
        let r = TokenIterator { rules: &self.rules, source: text.to_owned(), text: chars, idx: 0, pos: 0 };
        assert(r.text@.skip(0) =~= text@);
        assert(r.text@.take(0) =~= Seq::<char>::empty());
        proof {
            lemma_utf8_len_concat(text@, Seq::empty());
            assert(text@ + Seq::<char>::empty() =~= text@);
        }
        r
    }

    /// All tokens of `text`, in order.
    pub fn tokenize(&self, text: &str) -> (r: Vec<(Token<T>, String)>)
        ensures
            r@.len() == lex_spec(self.rules_view(), text@).len(),
            forall|k: int|
                0 <= k < r@.len() ==> (#[trigger] r@[k]).0 == lex_spec(self.rules_view(), text@)[k].0
                    && r@[k].1@ == lex_spec(self.rules_view(), text@)[k].1,
    {
        let mut it = self.lex(text);
        let mut out: Vec<(Token<T>, String)> = Vec::new();
        let ghost all = lex_spec(self.rules_view(), text@);
        loop
            invariant
                all == lex_spec(self.rules_view(), text@),
                it.wf(),
                out@.len() + it.remaining().len() == all.len(),
                it.remaining() == all.skip(out@.len() as int),
                forall|k: int|
                    0 <= k < out@.len() ==> (#[trigger] out@[k]).0 == all[k].0 && out@[k].1@
                        == all[k].1,
            decreases it.remaining().len(),
        {
            match it.next() {
                Some(tok) => {
                    out.push(tok);
                    assert(it.remaining() =~= all.skip(out@.len() as int));
                },
                None => {
                    return out;
                },
            }
        }
    }
}

/// A lazy stream of the tokens of one text.
pub struct TokenIterator<'a, T> {
    rules: &'a Vec<Rule<T>>,
    source: String,
    text: Vec<char>,
    idx: usize,
    pos: usize,
}

impl<'a, T: Copy> TokenIterator<'a, T> {
    /// The rules the stream tokenizes with.
    pub closed spec fn rules_view(&self) -> Seq<(T, Seq<char>)> {
        self.rules@.map_values(|r: Rule<T>| r.view_pair())
    }

    /// The cursor stays within the text, whose length fits in `usize`; `pos`
    /// is the cursor's byte offset in `source`, the same text as a string.
    pub closed spec fn wf(&self) -> bool {
        &&& self.idx <= self.text@.len() <= usize::MAX
        &&& self.source@ == self.text@
        &&& self.pos == utf8_len(self.text@.take(self.idx as int))
        &&& utf8_len(self.text@) <= usize::MAX
    }

    /// There are never more tokens to come than `usize` can count.
    pub proof fn lemma_remaining_bounded(&self)
        requires
            self.wf(),
        ensures
            self.remaining().len() <= usize::MAX,
    {
        lemma_lex_len(self.rules_view(), self.rest());
    }

    /// The characters not consumed yet.
    pub closed spec fn rest(&self) -> Seq<char> {
        self.text@.skip(self.idx as int)
    }

    /// The tokens still to come.
    pub open spec fn remaining(&self) -> Seq<(Token<T>, Seq<char>)> {
        lex_spec(self.rules_view(), self.rest())
    }

    /// The next token and its characters; `None` once the text is used up.
    pub fn next_chars(&mut self) -> (r: Option<(Token<T>, Vec<char>)>)
        requires
            old(self).wf(),
        ensures
            final(self).wf(),
            final(self).rules_view() == old(self).rules_view(),
            r is None <==> old(self).remaining().len() == 0,
            r is None ==> final(self).remaining() == old(self).remaining(),
            r matches Some(t) ==> old(self).remaining()[0] == (t.0, t.1@) && final(self).remaining()
                == old(self).remaining().drop_first(),
    {
        let ghost rules = self.rules_view();
        let ghost s = self.rest();
        if self.idx >= self.text.len() {
            assert(s.len() == 0);
            return None;
        }
        let len = self.text.len();
        let mut i: usize = 0;
        while i < self.rules.len()
            invariant
                len == self.text@.len(),
                self.idx < len,
                self.rules == old(self).rules,
                self.source == old(self).source,
                self.text == old(self).text,
                self.pos == old(self).pos,
                self.idx == old(self).idx,
                old(self).wf(),
                s == self.rest(),
                s == old(self).rest(),
                rules == self.rules_view(),
                rules == old(self).rules_view(),
                i <= self.rules@.len(),
                forall|k: int| 0 <= k < i ==> hit_len(#[trigger] rules[k].1, s) is None,
            decreases self.rules@.len() - i,
        {
            let rule = &self.rules[i];
            assert(rules[i as int] == rule.view_pair());
            match find_from(rule, &self.source, self.idx, self.pos) {
                Some((b, m, w)) => {
                    if b == 0 && m.len() > 0 {
                        let n = m.len();
                        assert(m@ =~= s.take(n as int));
                        assert(hit_len(rules[i as int].1, s) == Some(n as nat));
                        proof {
                            lemma_first_hit_found(rules, s, 0);
                        }
                        assert(first_hit(rules, s, 0) == Some(i as int));
                        assert(first_token(rules, s) == (Token::Matched(rule.class), n as nat));
                        assert(lex_spec(rules, s) == seq![(Token::Matched(rule.class), s.take(n as int))]
                            + lex_spec(rules, s.skip(n as int)));
                        proof {
                            let t = self.text@;
                            assert(t.take(self.idx + n as int) =~= t.take(self.idx as int) + m@);
                            lemma_utf8_len_concat(t.take(self.idx as int), m@);
                            assert(t =~= t.take(self.idx + n as int) + t.skip(self.idx + n as int));
                            lemma_utf8_len_concat(t.take(self.idx + n as int), t.skip(self.idx + n as int));
                        }
                        self.idx = self.idx + n;
                        self.pos = self.pos + w;
                        assert(self.rest() =~= s.skip(n as int));
                        return Some((Token::Matched(rule.class), m));
                    }
                },
                None => {},
            }
            i = i + 1;
        }
        proof {
            lemma_first_hit_found(rules, s, 0);
        }
        let c = self.text[self.idx];
        let w = char_width(c);
        proof {
            let t = self.text@;
            assert(t.take(self.idx + 1 as int) =~= t.take(self.idx as int) + seq![c]);
            lemma_utf8_len_concat(t.take(self.idx as int), seq![c]);
            assert(t =~= t.take(self.idx + 1 as int) + t.skip(self.idx + 1 as int));
            lemma_utf8_len_concat(t.take(self.idx + 1 as int), t.skip(self.idx + 1 as int));
        }
        self.idx = self.idx + 1;
        self.pos = self.pos + w;
        let v = vec![c];
        assert(self.rest() =~= s.skip(1));
        assert(v@ =~= s.take(1));
        Some((Token::Unmatched, v))
    }

    /// Bounds on the number of tokens to come: at least none, at most one
    /// per character left.
    pub fn size_hint(&self) -> (r: (usize, Option<usize>))
        requires
            self.wf(),
        ensures
            r.0 == 0,
            r.1 == Some(self.rest().len() as usize),
            self.remaining().len() <= self.rest().len(),
    {
        proof {
            lemma_lex_len(self.rules_view(), self.rest());
        }
        (0, Some(self.text.len() - self.idx))
    }

    /// The next token and its text; `None` once the text is used up.
    pub fn next(&mut self) -> (r: Option<(Token<T>, String)>)
        requires
            old(self).wf(),
        ensures
            final(self).wf(),
            final(self).rules_view() == old(self).rules_view(),
            r is None <==> old(self).remaining().len() == 0,
            r is None ==> final(self).remaining() == old(self).remaining(),
            r matches Some(t) ==> old(self).remaining()[0] == (t.0, t.1@) && final(self).remaining()
                == old(self).remaining().drop_first(),
    {
        match self.next_chars() {
            Some((tok, cs)) => Some((tok, string_of(&cs))),
            None => None,
        }
    }
}

} // verus!
