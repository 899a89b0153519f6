//! Reference extraction for C#-like sources.
//!
//! The text is tokenized, then scanned for `class` / `struct` declarations.
//! For each, the identifiers and keywords between its braces are collected;
//! nested blocks are followed by depth and their contents collected too. The
//! declarations of all files are gathered into one name-to-set mapping in
//! which a later declaration of a name replaces an earlier one in place, so
//! names keep the order in which they were first declared.
use vstd::prelude::*;
use crate::backend::{GraphInfo, GraphType, LanguageBackend};
use crate::graph::Graph;
use crate::lexer::{lex_spec, Lexer, PatternError, Token, TokenIterator, regex_compiles};

verus! {

/// The token classes of the C# rules.
#[derive(PartialEq, Eq, Clone, Copy, Debug)]
pub enum TokenClass {
    /// A space separator, tab, vertical tab or form feed.
    Whitespace,
    /// A line break.
    Newline,
    /// A `//` line comment or a `/* */` block comment.
    Comment,
    /// A double-quoted string with its escapes.
    StringLiteral,
    /// `{`
    BlockBegin,
    /// `}`
    BlockEnd,
    /// A name or a keyword.
    IdentifierOrKeyword,
}

/// A token as the model sees it: its class and its characters.
pub type Tok = (Token<TokenClass>, Seq<char>);

/// Declarations as the model sees them: (name, referenced identifiers), in
/// the order names were first declared.
pub type DeclModel = Seq<(Seq<char>, Set<Seq<char>>)>;

/// Whitespace, newlines and comments carry no meaning for the scan.
pub open spec fn is_trivia(t: Token<TokenClass>) -> bool {
    t == Token::Matched(TokenClass::Whitespace) || t == Token::Matched(TokenClass::Newline) || t
        == Token::Matched(TokenClass::Comment)
}

/// The keywords that open a declaration.
pub open spec fn is_decl_keyword(text: Seq<char>) -> bool {
    text == "class"@ || text == "struct"@
}

/// How many trivia tokens `toks` starts with.
pub open spec fn lead_trivia(toks: Seq<Tok>) -> nat
    decreases toks.len(),
{
    if toks.len() > 0 && is_trivia(toks[0].0) {
        1 + lead_trivia(toks.drop_first())
    } else {
        0
    }
}

/// The body of a declaration, read after its opening brace at block depth
/// `depth`: the identifiers collected (added to `set`) and the number of
/// tokens taken up to and including the closing brace; `None` where the
/// tokens end first.
pub open spec fn body_spec(toks: Seq<Tok>, depth: int, set: Set<Seq<char>>) -> Option<
    (Set<Seq<char>>, nat),
>
    decreases toks.len(),
{
    if toks.len() == 0 {
        None
    } else {
        let t = toks[0].0;
        if t == Token::Matched(TokenClass::BlockEnd) && depth <= 1 {
            Some((set, 1))
        } else {
            let d = if t == Token::Matched(TokenClass::BlockBegin) {
                depth + 1
            } else if t == Token::Matched(TokenClass::BlockEnd) {
                depth - 1
            } else {
                depth
            };
            let s = if t == Token::Matched(TokenClass::IdentifierOrKeyword) {
                set.insert(toks[0].1)
            } else {
                set
            };
            match body_spec(toks.drop_first(), d, s) {
                Some((s2, n)) => Some((s2, n + 1)),
                None => None,
            }
        }
    }
}

/// A declaration after its keyword: the name (the next meaningful token,
/// an identifier), an opening brace (the meaningful token after it), then
/// the body. Gives the record, if the declaration is well formed, and the
/// number of tokens taken either way.
pub open spec fn decl_spec(toks: Seq<Tok>) -> (Option<(Seq<char>, Set<Seq<char>>)>, nat) {
    let a = lead_trivia(toks);
    if a >= toks.len() {
        (None, toks.len())
    } else if toks[a as int].0 != Token::Matched(TokenClass::IdentifierOrKeyword) {
        (None, a + 1)
    } else {
        let t2 = toks.skip(a + 1 as int);
        let b = lead_trivia(t2);
        if b >= t2.len() {
            (None, toks.len())
        } else if t2[b as int].0 != Token::Matched(TokenClass::BlockBegin) {
            (None, a + b + 2)
        } else {
            match body_spec(t2.skip(b + 1 as int), 1, Set::empty()) {
                Some((s, c)) => (Some((toks[a as int].1, s)), a + b + 2 + c),
                None => (None, toks.len()),
            }
        }
    }
}

/// The index of the first entry, from `from` on, named `name`.
pub open spec fn find_name(m: DeclModel, name: Seq<char>, from: int) -> Option<int>
    decreases m.len() - from,
{
    if from < 0 || from >= m.len() {
        None
    } else if m[from].0 == name {
        Some(from)
    } else {
        find_name(m, name, from + 1)
    }
}

/// Records a declaration: it replaces the entry of the same name where there
/// is one, and is appended otherwise.
pub open spec fn put(m: DeclModel, name: Seq<char>, set: Set<Seq<char>>) -> DeclModel {
    match find_name(m, name, 0) {
        Some(i) => m.update(i, (name, set)),
        None => m.push((name, set)),
    }
}

/// The scan of one file's tokens, adding its declarations to `m`.
pub open spec fn scan_spec(toks: Seq<Tok>, m: DeclModel) -> DeclModel
    decreases toks.len(),
{
    if toks.len() == 0 {
        m
    } else {
        let rest = toks.drop_first();
        if toks[0].0 == Token::Matched(TokenClass::IdentifierOrKeyword) && is_decl_keyword(
            toks[0].1,
        ) {
            let (rec, n) = decl_spec(rest);
            let m2 = match rec {
                Some((name, set)) => put(m, name, set),
                None => m,
            };
            if n <= rest.len() {
                scan_spec(rest.skip(n as int), m2)
            } else {
                m2
            }
        } else {
            scan_spec(rest, m)
        }
    }
}

/// The rules of the C# tokenizer, in priority order.
pub open spec fn csharp_rules() -> Seq<(TokenClass, Seq<char>)> {
    seq![
        (TokenClass::Whitespace, WHITESPACE@),
        (TokenClass::Newline, NEWLINE@),
        (TokenClass::Comment, COMMENT@),
        (TokenClass::StringLiteral, STRING_LITERAL@),
        (TokenClass::BlockBegin, BLOCK_BEGIN@),
        (TokenClass::BlockEnd, BLOCK_END@),
        (TokenClass::IdentifierOrKeyword, IDENTIFIER@),
    ]
}

/// The declarations of all `files`, scanned in order into one mapping.
pub open spec fn files_spec(files: Seq<Seq<char>>) -> DeclModel
    decreases files.len(),
{
    if files.len() == 0 {
        seq![]
    } else {
        scan_spec(lex_spec(csharp_rules(), files.last()), files_spec(files.drop_last()))
    }
}

/// The characters of each string.
pub open spec fn texts(v: Seq<String>) -> Seq<Seq<char>> {
    v.map_values(|s: String| s@)
}

/// The identifiers a list of strings holds.
pub open spec fn set_view(v: Seq<String>) -> Set<Seq<char>> {
    texts(v).to_set()
}

/// The model of an exec mapping.
pub open spec fn decls_view(v: Seq<(String, Vec<String>)>) -> DeclModel {
    v.map_values(|p: (String, Vec<String>)| (p.0@, set_view(p.1@)))
}

pub const WHITESPACE: &'static str = r"^(\p{Zs}|\x{0009}|\x{000B}|\x{000C})";

pub const NEWLINE: &'static str = r"^((\r\n)|\r|\n|\x{2028}|\x{2029})";

pub const COMMENT: &'static str = r"^((/\*([^*]|\*+[^*/])*\*+/)|(//[^\x{000D}\x{000A}\x{2028}\x{2029}]*))";

pub const STRING_LITERAL: &'static str = r##"^"([^"\r\n\x{2028}\x{2029}\\]|\\'|\\"|\\\\|\\0|\\a|\\b|\\f|\\n|\\r|\\t|\\v|(\\x[0-9A-Fa-f]{1,4})|(\\u[0-9A-Fa-f]{4})|(\\U[0-9A-Fa-f]{8}))*""##;

pub const BLOCK_BEGIN: &'static str = r"^\{";

pub const BLOCK_END: &'static str = r"^\}";

pub const IDENTIFIER: &'static str = r"^((_|\p{L}|\p{Nl})(\p{L}|\p{Nl}|\p{Nd}|\p{Pc}|\p{Mn}|\p{Mc}|\p{Cf})*)";

/// The C# tokenizer; it exists when all its patterns compile.
pub fn build_csharp_lexer() -> (r: Result<Lexer<TokenClass>, PatternError>)
    ensures
        r is Ok <==> csharp_patterns_compile(),
        r matches Ok(l) ==> l.rules_view() == csharp_rules(),
{
    let mut lexer = Lexer::new();
    let r1 = lexer.define_token(TokenClass::Whitespace, WHITESPACE);
    if r1.is_err() {
        return Err(PatternError::Invalid);
    }
    let r2 = lexer.define_token(TokenClass::Newline, NEWLINE);
    if r2.is_err() {
        return Err(PatternError::Invalid);
    }
    let r3 = lexer.define_token(TokenClass::Comment, COMMENT);
    if r3.is_err() {
        return Err(PatternError::Invalid);
    }
    let r4 = lexer.define_token(TokenClass::StringLiteral, STRING_LITERAL);
    if r4.is_err() {
        return Err(PatternError::Invalid);
    }
    let r5 = lexer.define_token(TokenClass::BlockBegin, BLOCK_BEGIN);
    if r5.is_err() {
        return Err(PatternError::Invalid);
    }
    let r6 = lexer.define_token(TokenClass::BlockEnd, BLOCK_END);
    if r6.is_err() {
        return Err(PatternError::Invalid);
    }
    let r7 = lexer.define_token(TokenClass::IdentifierOrKeyword, IDENTIFIER);
    if r7.is_err() {
        return Err(PatternError::Invalid);
    }
    assert(lexer.rules_view() =~= csharp_rules());
    Ok(lexer)
}


/// A body result moved on by `k` tokens taken before it.
pub open spec fn shift(o: Option<(Set<Seq<char>>, nat)>, k: nat) -> Option<(Set<Seq<char>>, nat)> {
    match o {
        Some((s, n)) => Some((s, n + k)),
        None => None,
    }
}

proof fn lemma_lead_trivia(toks: Seq<Tok>)
    ensures
        lead_trivia(toks) <= toks.len(),
    decreases toks.len(),
{
    if toks.len() > 0 && is_trivia(toks[0].0) {
        lemma_lead_trivia(toks.drop_first());
    }
}

proof fn lemma_body_len(toks: Seq<Tok>, depth: int, set: Set<Seq<char>>)
    ensures
        body_spec(toks, depth, set) matches Some((_, n)) ==> 1 <= n <= toks.len(),
    decreases toks.len(),
{
    if toks.len() > 0 {
        let t = toks[0].0;
        let d = if t == Token::Matched(TokenClass::BlockBegin) {
            depth + 1
        } else if t == Token::Matched(TokenClass::BlockEnd) {
            depth - 1
        } else {
            depth
        };
        let s = if t == Token::Matched(TokenClass::IdentifierOrKeyword) {
            set.insert(toks[0].1)
        } else {
            set
        };
        lemma_body_len(toks.drop_first(), d, s);
    }
}

proof fn lemma_decl_len(toks: Seq<Tok>)
    ensures
        decl_spec(toks).1 <= toks.len(),
{
    lemma_lead_trivia(toks);
    let a = lead_trivia(toks);
    if a < toks.len() {
        let t2 = toks.skip(a + 1 as int);
        lemma_lead_trivia(t2);
        let b = lead_trivia(t2);
        if b < t2.len() {
            lemma_body_len(t2.skip(b + 1 as int), 1, Set::empty());
        }
    }
}

/// Whether `text` is `class` or `struct`.
fn is_keyword(text: &String) -> (r: bool)
    ensures
        r == is_decl_keyword(text@),
{
    let class_kw = "class".to_owned();
    let struct_kw = "struct".to_owned();
    proof {
        reveal_strlit("class");
        reveal_strlit("struct");
    }
    *text == class_kw || *text == struct_kw
}

/// Whether `set` holds `x`.
fn contains_text(set: &Vec<String>, x: &String) -> (r: bool)
    ensures
        r == set_view(set@).contains(x@),
{
    let mut i: usize = 0;
    while i < set.len()
        invariant
            i <= set@.len(),
            forall|k: int| 0 <= k < i ==> (#[trigger] set@[k])@ != x@,
        decreases set@.len() - i,
    {
        if set[i] == *x {
            assert(texts(set@)[i as int] == x@);
            return true;
        }
        i = i + 1;
    }
    assert forall|k: int| 0 <= k < set@.len() implies #[trigger] texts(set@)[k]
        != x@ by {
        assert(set@[k]@ != x@);
    }
    false
}

/// Adds `x` to `set` unless it is there already.
fn insert_text(set: &mut Vec<String>, x: String)
    requires
        texts(old(set)@).no_duplicates(),
    ensures
        set_view(final(set)@) == set_view(old(set)@).insert(x@),
        texts(final(set)@).no_duplicates(),
{
    if contains_text(set, &x) {
        assert(set_view(set@) =~= set_view(set@).insert(x@));
    } else {
        let ghost xv = x@;
        set.push(x);
        assert(texts(set@) =~= texts(old(set)@).push(xv));
        assert(!texts(old(set)@).contains(xv));
        assert forall|i: int, j: int| 0 <= i < texts(set@).len() && 0 <= j < texts(set@).len() && i != j
            implies texts(set@)[i] != texts(set@)[j] by {
            if i == old(set)@.len() {
                assert(texts(old(set)@)[j] == texts(set@)[j]);
            } else if j == old(set)@.len() {
                assert(texts(old(set)@)[i] == texts(set@)[i]);
            } else {
                assert(texts(old(set)@)[i] == texts(set@)[i]);
                assert(texts(old(set)@)[j] == texts(set@)[j]);
            }
        }
        assert(set_view(set@) =~= set_view(old(set)@).insert(xv)) by {
            assert forall|t: Seq<char>| set_view(set@).contains(t) implies set_view(old(set)@).insert(
                xv,
            ).contains(t) by {
                let k = choose|k: int| 0 <= k < set@.len() && texts(set@)[k] == t;
                if k < old(set)@.len() {
                    assert(texts(old(set)@)[k] == t);
                }
            }
            assert forall|t: Seq<char>| set_view(old(set)@).insert(xv).contains(t) implies set_view(
                set@,
            ).contains(t) by {
                if t == xv {
                    assert(texts(set@)[old(set)@.len() as int] == t);
                } else {
                    let k = choose|k: int|
                        0 <= k < old(set)@.len() && texts(old(set)@)[k] == t;
                    assert(texts(set@)[k] == t);
                }
            }
        }
    }
}

/// The next token that is not whitespace, a newline or a comment.
pub fn next_meaningful(tokens: &mut TokenIterator<TokenClass>) -> (r: Option<(Token<TokenClass>, String)>)
    requires
        old(tokens).wf(),
    ensures
        final(tokens).wf(),
        final(tokens).rules_view() == old(tokens).rules_view(),
        r is None <==> lead_trivia(old(tokens).remaining()) >= old(tokens).remaining().len(),
        r is None ==> final(tokens).remaining().len() == 0,
        r matches Some(t) ==> (t.0, t.1@) == old(tokens).remaining()[lead_trivia(
            old(tokens).remaining(),
        ) as int] && final(tokens).remaining() == old(tokens).remaining().skip(
            lead_trivia(old(tokens).remaining()) + 1 as int,
        ),
{
    let ghost rem = tokens.remaining();
    let ghost mut c: int = 0;
    proof {
        lemma_lead_trivia(rem);
        assert(rem.skip(0) =~= rem);
    }
    loop
        invariant
            tokens.wf(),
            tokens.rules_view() == old(tokens).rules_view(),
            rem == old(tokens).remaining(),
            0 <= c <= rem.len(),
            tokens.remaining() == rem.skip(c),
            lead_trivia(rem) == c + lead_trivia(rem.skip(c)),
        decreases rem.len() - c,
    {
        let ghost cur = tokens.remaining();
        match tokens.next() {
            None => {
                return None;
            },
            Some(tok) => {
                assert(cur.drop_first() =~= rem.skip(c + 1));
                match tok.0 {
                    Token::Matched(TokenClass::Whitespace) | Token::Matched(TokenClass::Newline)
                    | Token::Matched(TokenClass::Comment) => {
                        proof {
                            c = c + 1;
                        }
                    },
                    _ => {
                        return Some(tok);
                    },
                }
            },
        }
    }
}

/// Reads a declaration after its `class` / `struct` keyword: the name, the
/// opening brace, then the body up to its closing brace. Gives the name and
/// the identifiers of the body; `None` where the declaration is malformed,
/// with the stream left wherever reading stopped.
pub fn class_x(tokens: &mut TokenIterator<TokenClass>) -> (r: Option<(String, Vec<String>)>)
    requires
        old(tokens).wf(),
        old(tokens).remaining().len() < usize::MAX,
    ensures
        final(tokens).wf(),
        final(tokens).rules_view() == old(tokens).rules_view(),
        final(tokens).remaining() == old(tokens).remaining().skip(
            decl_spec(old(tokens).remaining()).1 as int,
        ),
        r is None <==> decl_spec(old(tokens).remaining()).0 is None,
        r matches Some((name, set)) ==> decl_spec(old(tokens).remaining()).0 == Some(
            (name@, set_view(set@)),
        ) && texts(set@).no_duplicates(),
{
    let ghost rem = tokens.remaining();
    let ghost a = lead_trivia(rem);
    proof {
        lemma_lead_trivia(rem);
    }
    let name = match next_meaningful(tokens) {
        None => {
            assert(rem.skip(rem.len() as int) =~= tokens.remaining());
            return None;
        },
        Some((Token::Matched(TokenClass::IdentifierOrKeyword), txt)) => txt,
        Some(_) => {
            return None;
        },
    };
    let ghost t2 = rem.skip(a + 1 as int);
    let ghost b = lead_trivia(t2);
    proof {
        lemma_lead_trivia(t2);
    }
    match next_meaningful(tokens) {
        None => {
            assert(rem.skip(rem.len() as int) =~= tokens.remaining());
            return None;
        },
        Some((Token::Matched(TokenClass::BlockBegin), _)) => {},
        Some(_) => {
            assert(t2.skip(b + 1 as int) =~= rem.skip(a + b + 2 as int));
            return None;
        },
    }
    let ghost body0 = tokens.remaining();
    let ghost base: nat = a + b + 2;
    assert(body0 =~= rem.skip(base as int));
    assert(body0.skip(0) =~= body0);
    let mut set: Vec<String> = Vec::new();
    let mut depth: usize = 1;
    let ghost mut consumed: nat = 0;
    proof {
        assert(set_view(set@) =~= Set::<Seq<char>>::empty());
        assert(texts(set@) =~= Seq::<Seq<char>>::empty());
        tokens.lemma_remaining_bounded();
    }
    loop
        invariant
            tokens.wf(),
            tokens.rules_view() == old(tokens).rules_view(),
            rem == old(tokens).remaining(),
            body0 == rem.skip(base as int),
            base + consumed <= rem.len(),
            tokens.remaining() == body0.skip(consumed as int),
            1 <= depth,
            depth + tokens.remaining().len() < usize::MAX,
            texts(set@).no_duplicates(),
            decl_spec(rem).0 == match body_spec(body0, 1, Set::empty()) {
                Some((s, _)) => Some((name@, s)),
                None => None,
            },
            decl_spec(rem).1 == match body_spec(body0, 1, Set::empty()) {
                Some((_, c)) => base + c,
                None => rem.len(),
            },
            body_spec(body0, 1, Set::empty()) == shift(
                body_spec(tokens.remaining(), depth as int, set_view(set@)),
                consumed,
            ),
        decreases tokens.remaining().len(),
    {
        let ghost cur = tokens.remaining();
        match tokens.next() {
            None => {
                assert(rem.skip(rem.len() as int) =~= tokens.remaining());
                return None;
            },
            Some((cls, txt)) => {
                assert(cur.drop_first() =~= body0.skip(consumed + 1 as int));
                proof {
                    consumed = consumed + 1;
                }
                match cls {
                    Token::Matched(TokenClass::BlockBegin) => {
                        depth = depth + 1;
                    },
                    Token::Matched(TokenClass::BlockEnd) => {
                        if depth == 1 {
                            assert(rem.skip(base + consumed as int) =~= tokens.remaining());
                            return Some((name, set));
                        }
                        depth = depth - 1;
                    },
                    Token::Matched(TokenClass::IdentifierOrKeyword) => {
                        insert_text(&mut set, txt);
                    },
                    _ => {},
                }
            },
        }
    }
}


/// Each name appears at most once.
pub open spec fn names_unique(m: DeclModel) -> bool {
    forall|i: int, j: int| 0 <= i < j < m.len() ==> (#[trigger] m[i]).0 != (#[trigger] m[j]).0
}

proof fn lemma_find_name(m: DeclModel, name: Seq<char>, from: int)
    requires
        0 <= from,
    ensures
        find_name(m, name, from) matches Some(i) ==> from <= i < m.len() && m[i].0 == name,
        find_name(m, name, from) is None ==> forall|k: int| from <= k < m.len() ==> (#[trigger] m[k]).0 != name,
    decreases m.len() - from,
{
    if from < m.len() && m[from].0 != name {
        lemma_find_name(m, name, from + 1);
    }
}

/// Recording a declaration keeps names unique.
proof fn lemma_put_unique(m: DeclModel, name: Seq<char>, set: Set<Seq<char>>)
    requires
        names_unique(m),
    ensures
        names_unique(put(m, name, set)),
{
    lemma_find_name(m, name, 0);
    let r = put(m, name, set);
    assert forall|i: int, j: int| 0 <= i < j < r.len() implies (#[trigger] r[i]).0 != (#[trigger] r[j]).0 by {
        assert(m[i].0 != m[j].0 || j >= m.len());
    }
}

proof fn lemma_scan_unique(toks: Seq<Tok>, m: DeclModel)
    requires
        names_unique(m),
    ensures
        names_unique(scan_spec(toks, m)),
    decreases toks.len(),
{
    if toks.len() > 0 {
        let rest = toks.drop_first();
        if toks[0].0 == Token::Matched(TokenClass::IdentifierOrKeyword) && is_decl_keyword(toks[0].1) {
            let (rec, n) = decl_spec(rest);
            lemma_decl_len(rest);
            match rec {
                Some((name, set)) => {
                    lemma_put_unique(m, name, set);
                    lemma_scan_unique(rest.skip(n as int), put(m, name, set));
                },
                None => {
                    lemma_scan_unique(rest.skip(n as int), m);
                },
            }
        } else {
            lemma_scan_unique(rest, m);
        }
    }
}

/// The mapping of any set of files names each declared type once.
pub proof fn lemma_files_unique(files: Seq<Seq<char>>)
    ensures
        names_unique(files_spec(files)),
    decreases files.len(),
{
    if files.len() > 0 {
        lemma_files_unique(files.drop_last());
        lemma_scan_unique(lex_spec(csharp_rules(), files.last()), files_spec(files.drop_last()));
    }
}

/// Each record's identifier list holds each text once.
pub open spec fn lists_unique(v: Seq<(String, Vec<String>)>) -> bool {
    forall|i: int| 0 <= i < v.len() ==> texts((#[trigger] v[i]).1@).no_duplicates()
}

/// Records the declaration `name` with its identifiers `set`.
fn put_decl(map: &mut Vec<(String, Vec<String>)>, name: String, set: Vec<String>)
    requires
        lists_unique(old(map)@),
        texts(set@).no_duplicates(),
    ensures
        decls_view(final(map)@) == put(decls_view(old(map)@), name@, set_view(set@)),
        lists_unique(final(map)@),
{
    let ghost m = decls_view(map@);
    let ghost entry = (name@, set_view(set@));
    let mut i: usize = 0;
    while i < map.len()
        invariant
            map@ == old(map)@,
            m == decls_view(map@),
            entry == (name@, set_view(set@)),
            lists_unique(map@),
            texts(set@).no_duplicates(),
            i <= map@.len(),
            find_name(m, name@, 0) == find_name(m, name@, i as int),
        decreases map@.len() - i,
    {
        if map[i].0 == name {
            assert(m[i as int].0 == name@);
            let ghost pair = (name, set);
            map.set(i, (name, set));
            assert(map@ == old(map)@.update(i as int, pair));
            assert forall|k: int| 0 <= k < map@.len() implies #[trigger] decls_view(map@)[k] == m.update(
                i as int,
                entry,
            )[k] by {
                if k == i {
                    assert(map@[k] == pair);
                } else {
                    assert(map@[k] == old(map)@[k]);
                }
            }
            assert(decls_view(map@) =~= m.update(i as int, entry));
            assert forall|k: int| 0 <= k < map@.len() implies texts((#[trigger] map@[k]).1@).no_duplicates() by {
                if k != i {
                    assert(map@[k] == old(map)@[k]);
                }
            }
            return;
        }
        assert(m[i as int].0 != name@);
        i = i + 1;
    }
    let ghost pair = (name, set);
    map.push((name, set));
    assert(decls_view(map@) =~= m.push(entry));
    assert forall|k: int| 0 <= k < map@.len() implies texts((#[trigger] map@[k]).1@).no_duplicates() by {
        if k < old(map)@.len() {
            assert(map@[k] == old(map)@[k]);
        } else {
            assert(map@[k] == pair);
        }
    }
}

/// Scans the rest of one file's tokens and records its declarations.
fn scan_tokens(tokens: &mut TokenIterator<TokenClass>, map: &mut Vec<(String, Vec<String>)>)
    requires
        old(tokens).wf(),
        lists_unique(old(map)@),
    ensures
        decls_view(final(map)@) == scan_spec(old(tokens).remaining(), decls_view(old(map)@)),
        lists_unique(final(map)@),
{
    let ghost target = scan_spec(tokens.remaining(), decls_view(map@));
    loop
        invariant
            tokens.wf(),
            target == scan_spec(old(tokens).remaining(), decls_view(old(map)@)),
            target == scan_spec(tokens.remaining(), decls_view(map@)),
            lists_unique(map@),
        decreases tokens.remaining().len(),
    {
        let ghost cur = tokens.remaining();
        proof {
            tokens.lemma_remaining_bounded();
        }
        match tokens.next() {
            None => {
                return;
            },
            Some((cls, txt)) => {
                let ghost rest = cur.drop_first();
                assert(tokens.remaining() == rest);
                let is_ident = match cls {
                    Token::Matched(TokenClass::IdentifierOrKeyword) => true,
                    _ => false,
                };
                if is_ident && is_keyword(&txt) {
                    proof {
                        lemma_decl_len(rest);
                    }
                    match class_x(tokens) {
                        Some((name, set)) => {
                            put_decl(map, name, set);
                        },
                        None => {},
                    }
                }
            },
        }
    }
}

/// All files' declarations in one mapping; a later declaration of a name
/// replaces the earlier one. Fails only where the tokenizer cannot be built.
pub fn build_map(files: &Vec<String>) -> (r: Result<Vec<(String, Vec<String>)>, PatternError>)
    ensures
        r is Ok <==> csharp_patterns_compile(),
        r matches Ok(m) ==> decls_view(m@) == files_spec(texts(files@)) && lists_unique(m@),
{
    let lexer = match build_csharp_lexer() {
        Ok(l) => l,
        Err(e) => {
            return Err(e);
        },
    };
    let ghost fv = texts(files@);
    let mut map: Vec<(String, Vec<String>)> = Vec::new();
    let mut i: usize = 0;
    assert(fv.take(0) =~= Seq::<Seq<char>>::empty());
    assert(decls_view(map@) =~= files_spec(fv.take(0)));
    while i < files.len()
        invariant
            i <= files@.len(),
            fv == texts(files@),
            lexer.rules_view() == csharp_rules(),
            decls_view(map@) == files_spec(fv.take(i as int)),
            lists_unique(map@),
        decreases files@.len() - i,
    {
        let mut tokens = lexer.lex(files[i].as_str());
        scan_tokens(&mut tokens, &mut map);
        assert(fv.take(i + 1 as int).drop_last() =~= fv.take(i as int));
        assert(fv.take(i + 1 as int).last() == fv[i as int]);
        i = i + 1;
    }
    assert(fv.take(i as int) =~= fv);
    Ok(map)
}


/// Whether declaration `r`'s body mentions the name of declaration `x`.
pub open spec fn refers(m: DeclModel, r: int, x: int) -> bool {
    m[r].1.contains(m[x].0)
}

/// The edges into node `x` from the sources before `r`, by source.
pub open spec fn edges_into(m: DeclModel, x: int, r: int) -> Seq<(nat, nat)>
    decreases r,
{
    if r <= 0 {
        seq![]
    } else if refers(m, r - 1, x) {
        edges_into(m, x, r - 1).push(((r - 1) as nat, x as nat))
    } else {
        edges_into(m, x, r - 1)
    }
}

/// The edges into the targets before `x`, target by target.
pub open spec fn edges_before(m: DeclModel, x: int) -> Seq<(nat, nat)>
    decreases x,
{
    if x <= 0 {
        seq![]
    } else {
        edges_before(m, x - 1) + edges_into(m, x - 1, m.len() as int)
    }
}

/// All reference edges of `m`, grouped by target and, within a target,
/// ordered by source: one edge for each pair where the source's body
/// mentions the target's name.
pub open spec fn ref_edges(m: DeclModel) -> Seq<(nat, nat)> {
    edges_before(m, m.len() as int)
}

proof fn lemma_edges_into_shape(m: DeclModel, x: int, r: int)
    requires
        0 <= r,
        0 <= x,
    ensures
        edges_into(m, x, r).no_duplicates(),
        forall|e: int|
            0 <= e < edges_into(m, x, r).len() ==> (#[trigger] edges_into(m, x, r)[e]).1 == x
                && edges_into(m, x, r)[e].0 < r,
    decreases r,
{
    if r > 0 {
        lemma_edges_into_shape(m, x, r - 1);
    }
}

proof fn lemma_edges_before_shape(m: DeclModel, x: int)
    requires
        0 <= x,
    ensures
        edges_before(m, x).no_duplicates(),
        forall|e: int| 0 <= e < edges_before(m, x).len() ==> (#[trigger] edges_before(m, x)[e]).1 < x,
    decreases x,
{
    if x > 0 {
        lemma_edges_before_shape(m, x - 1);
        lemma_edges_into_shape(m, x - 1, m.len() as int);
        let a = edges_before(m, x - 1);
        let b = edges_into(m, x - 1, m.len() as int);
        assert forall|e: int| 0 <= e < (a + b).len() implies (#[trigger] (a + b)[e]).1 < x by {
            if e >= a.len() {
                assert((a + b)[e] == b[e - a.len()]);
            }
        }
        assert forall|i: int, j: int| 0 <= i < (a + b).len() && 0 <= j < (a + b).len() && i != j implies (a
            + b)[i] != (a + b)[j] by {
            if i < a.len() && j >= a.len() {
                assert((a + b)[j] == b[j - a.len()]);
            } else if i >= a.len() && j < a.len() {
                assert((a + b)[i] == b[i - a.len()]);
            } else if i >= a.len() && j >= a.len() {
                assert((a + b)[i] == b[i - a.len()]);
                assert((a + b)[j] == b[j - a.len()]);
            }
        }
    }
}

/// No two reference edges join the same pair of nodes.
pub proof fn lemma_ref_edges_distinct(m: DeclModel)
    ensures
        ref_edges(m).no_duplicates(),
{
    lemma_edges_before_shape(m, m.len() as int);
}

/// Whether some edge runs from node `s` to node `t`.
pub open spec fn has_edge(edges: Seq<(nat, nat)>, s: int, t: int) -> bool {
    exists|e: int| 0 <= e < edges.len() && #[trigger] edges[e] == (s as nat, t as nat)
}

/// The reference graph of a mapping: node `i` is named after entry `i`, and
/// there is one edge from `r` to `x` exactly where the body of `r` mentions
/// the name of `x`. Self-loops are kept.
pub fn build_graph(map: &Vec<(String, Vec<String>)>) -> (g: Graph<String, ()>)
    ensures
        g.wf(),
        g.node_view().len() == map@.len(),
        forall|i: int| 0 <= i < map@.len() ==> (#[trigger] g.node_view()[i])@ == map@[i].0@,
        forall|e: int|
            0 <= e < g.edge_view().len() ==> refers(
                decls_view(map@),
                (#[trigger] g.edge_view()[e]).0 as int,
                g.edge_view()[e].1 as int,
            ),
        forall|r: int, x: int|
            0 <= r < map@.len() && 0 <= x < map@.len() ==> (has_edge(g.edge_view(), r, x)
                <==> refers(decls_view(map@), r, x)),
        g.edge_view() == ref_edges(decls_view(map@)),
        g.edge_view().no_duplicates(),
{
    let ghost m = decls_view(map@);
    let n = map.len();
    let mut g: Graph<String, ()> = Graph::new();
    let mut i: usize = 0;
    while i < n
        invariant
            n == map@.len(),
            i <= n,
            g.wf(),
            g.node_view().len() == i,
            g.edge_view().len() == 0,
            forall|k: int| 0 <= k < i ==> (#[trigger] g.node_view()[k])@ == map@[k].0@,
        decreases n - i,
    {
        let name = map[i].0.clone();
        g.add_node(name);
        i = i + 1;
    }
    let mut x: usize = 0;
    while x < n
        invariant
            n == map@.len(),
            m == decls_view(map@),
            x <= n,
            g.wf(),
            g.edge_view() == edges_before(m, x as int),
            g.node_view().len() == n,
            forall|k: int| 0 <= k < n ==> (#[trigger] g.node_view()[k])@ == map@[k].0@,
            forall|e: int|
                0 <= e < g.edge_view().len() ==> (#[trigger] g.edge_view()[e]).1 < x && refers(
                    m,
                    g.edge_view()[e].0 as int,
                    g.edge_view()[e].1 as int,
                ),
            forall|r: int, t: int|
                0 <= r < n && 0 <= t < x && refers(m, r, t) ==> has_edge(g.edge_view(), r, t),
        decreases n - x,
    {
        let mut r: usize = 0;
        while r < n
            invariant
                n == map@.len(),
                m == decls_view(map@),
                x < n,
                r <= n,
                g.wf(),
                g.edge_view() == edges_before(m, x as int) + edges_into(m, x as int, r as int),
                g.node_view().len() == n,
                forall|k: int| 0 <= k < n ==> (#[trigger] g.node_view()[k])@ == map@[k].0@,
                forall|e: int|
                    0 <= e < g.edge_view().len() ==> (#[trigger] g.edge_view()[e]).1 <= x && refers(
                        m,
                        g.edge_view()[e].0 as int,
                        g.edge_view()[e].1 as int,
                    ) && (g.edge_view()[e].1 == x ==> g.edge_view()[e].0 < r),
                forall|s: int, t: int|
                    0 <= s < n && 0 <= t < n && (t < x || (t == x && s < r)) && refers(m, s, t)
                        ==> has_edge(g.edge_view(), s, t),
            decreases n - r,
        {
            if contains_text(&map[r].1, &map[x].0) {
                assert(refers(m, r as int, x as int));
                let ghost before = g.edge_view();
                g.add_edge(r, x, ());
                assert forall|s: int, t: int|
                    0 <= s < n && 0 <= t < n && (t < x || (t == x && s <= r)) && refers(m, s, t)
                        implies has_edge(g.edge_view(), s, t) by {
                    if s == r && t == x {
                        assert(g.edge_view()[before.len() as int] == (s as nat, t as nat));
                    } else {
                        let e = choose|e: int| 0 <= e < before.len() && #[trigger] before[e] == (s as nat, t as nat);
                        assert(g.edge_view()[e] == before[e]);
                    }
                }
            } else {
                assert(!refers(m, r as int, x as int));
            }
            r = r + 1;
            assert(edges_before(m, x as int) + edges_into(m, x as int, r as int) =~= g.edge_view());
        }
        assert(edges_before(m, x + 1 as int) =~= g.edge_view());
        x = x + 1;
    }
    proof {
        lemma_ref_edges_distinct(m);
    }
    assert forall|r: int, t: int|
        0 <= r < n && 0 <= t < n && has_edge(g.edge_view(), r, t) implies refers(m, r, t) by {
        let e = choose|e: int| 0 <= e < g.edge_view().len() && #[trigger] g.edge_view()[e] == (r as nat, t as nat);
    }
    g
}


/// Whether all the C# patterns compile.
pub open spec fn csharp_patterns_compile() -> bool {
    regex_compiles(WHITESPACE@) && regex_compiles(NEWLINE@) && regex_compiles(COMMENT@)
        && regex_compiles(STRING_LITERAL@) && regex_compiles(BLOCK_BEGIN@) && regex_compiles(
        BLOCK_END@,
    ) && regex_compiles(IDENTIFIER@)
}

/// The names a mapping declares.
pub open spec fn declared_names(m: DeclModel) -> Set<Seq<char>> {
    m.map_values(|p: (Seq<char>, Set<Seq<char>>)| p.0).to_set()
}

/// `g` is the reference graph of `m`: one node per entry, named after it, in
/// order; an edge from `r` to `x` exactly where the body of `r` mentions the
/// name of `x`, and no other edge.
pub open spec fn is_reference_graph(g: Graph<String, ()>, m: DeclModel) -> bool {
    &&& g.wf()
    &&& g.node_view().len() == m.len()
    &&& forall|i: int| 0 <= i < m.len() ==> (#[trigger] g.node_view()[i])@ == m[i].0
    &&& forall|e: int|
        0 <= e < g.edge_view().len() ==> refers(
            m,
            (#[trigger] g.edge_view()[e]).0 as int,
            g.edge_view()[e].1 as int,
        )
    &&& forall|r: int, x: int|
        0 <= r < m.len() && 0 <= x < m.len() ==> (has_edge(g.edge_view(), r, x) <==> refers(m, r, x))
    &&& g.edge_view() == ref_edges(m)
}

/// The graph of a mapping whose names are unique has one node per distinct
/// declared name.
pub proof fn lemma_one_node_per_name(g: Graph<String, ()>, m: DeclModel)
    requires
        names_unique(m),
        is_reference_graph(g, m),
    ensures
        g.node_view().len() == declared_names(m).len(),
{
    let names = m.map_values(|p: (Seq<char>, Set<Seq<char>>)| p.0);
    assert(names.no_duplicates()) by {
        assert forall|i: int, j: int| 0 <= i < names.len() && 0 <= j < names.len() && i != j implies names[i]
            != names[j] by {
            if i < j {
                assert(m[i].0 != m[j].0);
            } else {
                assert(m[j].0 != m[i].0);
            }
        }
    }
    names.unique_seq_to_set();
}

/// The reference extractor for C#-like sources (`.cs` files).
pub struct Csharp;

impl Csharp {
    /// The reference graph of a set of files, given by their contents, under
    /// the label `reference_graph`. Fails only where the tokenizer cannot be
    /// built.
    pub fn reference_graph(&self, files: &Vec<String>) -> (r: Result<GraphInfo, PatternError>)
        ensures
            r is Ok <==> csharp_patterns_compile(),
            r matches Ok(gi) ==> {
                &&& gi.name@ == "reference_graph"@
                &&& is_reference_graph(gi.graph, files_spec(texts(files@)))
                &&& gi.graph.edge_view().no_duplicates()
                &&& gi.graph.node_view().len() == declared_names(files_spec(texts(files@))).len()
                &&& files@.len() == 0 ==> gi.graph.node_view().len() == 0 && gi.graph.edge_view().len() == 0
            },
    {
        let map = match build_map(files) {
            Ok(m) => m,
            Err(e) => {
                return Err(e);
            },
        };
        let graph = build_graph(&map);
        proof {
            let m = files_spec(texts(files@));
            lemma_files_unique(texts(files@));
            lemma_one_node_per_name(graph, m);
            if files@.len() == 0 {
                assert(texts(files@).len() == 0);
                assert(graph.edge_view().len() == 0) by {
                    if graph.edge_view().len() > 0 {
                        assert(refers(m, graph.edge_view()[0].0 as int, graph.edge_view()[0].1 as int));
                    }
                }
            }
        }
        let name = "reference_graph".to_owned();
        Ok(GraphInfo { name, graph })
    }
}

impl LanguageBackend for Csharp {
    fn get_extensions(&self) -> (r: Vec<String>)
        ensures
            r@.len() == 1,
            r@[0]@ == "cs"@,
    {
        vec!["cs".to_owned()]
    }

    fn get_graph_types(&self) -> (r: Vec<GraphType>)
        ensures
            r@ == seq![GraphType::Reference],
    {
        let r = vec![GraphType::Reference];
        assert(r@ =~= seq![GraphType::Reference]);
        r
    }

    fn build_graphs(&self, files: &Vec<String>) -> (r: Result<Vec<GraphInfo>, PatternError>)
        ensures
            r is Ok <==> csharp_patterns_compile(),
            r matches Ok(gs) ==> gs@.len() == 1 && gs@[0].name@ == "reference_graph"@
                && is_reference_graph(gs@[0].graph, files_spec(texts(files@)))
                && gs@[0].graph.edge_view().no_duplicates(),
    {
        match self.reference_graph(files) {
            Ok(g) => Ok(vec![g]),
            Err(e) => Err(e),
        }
    }
}

} // verus!
