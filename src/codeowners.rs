//! The ownership-rule file: its lexer, its parser, and the resolution of a
//! file path to the owners of the last rule that matches it.
use vstd::prelude::*;
use crate::pattern::{pattern_matches, pattern_matches_chars};
use crate::text::{
    chars_eq, chars_lt, chars_of, lemma_seq_lt_total,
    lemma_seq_lt_transitive, chars_range, copy_strings, seq_lt, string_of, string_of_range,
    strings_view,
};
use vstd::utf8::{char_is_scalar, encode_scalar, encode_utf8};

verus! {

/// The kinds of token of a rule file.
#[derive(Clone, Copy, Debug, PartialEq, Eq, Structural)]
pub enum TokenKind {
    /// `#` up to the end of the line.
    Comment,
    /// A line break.
    NewLine,
    /// `@` followed by owner characters.
    Owner,
    /// A run of pattern characters.
    Path,
    /// A character that starts no token.
    Error,
}

/// A token: its kind and its character range `start..end` in the text.
#[derive(Clone, Copy, Debug, PartialEq, Eq)]
pub struct Token {
    pub kind: TokenKind,
    pub start: usize,
    pub end: usize,
}

impl View for Token {
    type V = (TokenKind, int, int);

    open spec fn view(&self) -> (TokenKind, int, int) {
        (self.kind, self.start as int, self.end as int)
    }
}

/// Characters that may appear in a path pattern.
pub open spec fn is_path_char(c: char) -> bool {
    ||| ('a' <= c <= 'z')
    ||| ('A' <= c <= 'Z')
    ||| ('0' <= c <= '9')
    ||| c == '.' || c == '*' || c == '!' || c == '@' || c == '$' || c == '%'
    ||| c == '^' || c == '&' || c == '(' || c == ')' || c == '{' || c == '}'
    ||| c == '[' || c == ']' || c == '/' || c == '_' || c == '-'
}

/// Characters that may follow the `@` of an owner.
pub open spec fn is_owner_char(c: char) -> bool {
    ||| ('a' <= c <= 'z')
    ||| ('A' <= c <= 'Z')
    ||| ('0' <= c <= '9')
    ||| c == '/' || c == '-' || c == '_'
}

/// Blanks between tokens, which are skipped.
pub open spec fn is_blank(c: char) -> bool {
    c == ' ' || c == '\t' || c == '\x0c'
}

/// The classes of character over which a token extends.
#[derive(Clone, Copy, PartialEq, Eq, Structural)]
pub enum CharClass {
    PathChars,
    OwnerChars,
    NotNewLine,
}

pub open spec fn in_class(c: char, k: CharClass) -> bool {
    match k {
        CharClass::PathChars => is_path_char(c),
        CharClass::OwnerChars => is_owner_char(c),
        CharClass::NotNewLine => c != '\n',
    }
}

/// The length of the longest run of characters of class `k` starting at `i`.
pub open spec fn run_len(s: Seq<char>, i: int, k: CharClass) -> nat
    decreases s.len() - i,
{
    if 0 <= i < s.len() && in_class(s[i], k) {
        1 + run_len(s, i + 1, k)
    } else {
        0
    }
}

/// The kind and end of the token that starts at `i`, which holds no blank.
/// The longest match wins; an owner wins over a path of the same length.
pub open spec fn token_at(s: Seq<char>, i: int) -> (TokenKind, int) {
    if s[i] == '#' {
        (TokenKind::Comment, i + 1 + run_len(s, i + 1, CharClass::NotNewLine))
    } else if s[i] == '\n' {
        (TokenKind::NewLine, i + 1)
    } else if is_path_char(s[i]) {
        let lp = run_len(s, i, CharClass::PathChars);
        let lo = run_len(s, i + 1, CharClass::OwnerChars);
        if s[i] == '@' && lo > 0 && lo + 1 == lp {
            (TokenKind::Owner, i + lp)
        } else {
            (TokenKind::Path, i + lp)
        }
    } else {
        (TokenKind::Error, i + 1)
    }
}

/// The tokens of `s` from position `i` on, blanks skipped.
pub open spec fn lex_from(s: Seq<char>, i: int) -> Seq<(TokenKind, int, int)>
    decreases s.len() - i,
{
    if i < 0 || i >= s.len() {
        Seq::empty()
    } else if is_blank(s[i]) {
        lex_from(s, i + 1)
    } else {
        let (k, e) = token_at(s, i);
        if e <= i || e > s.len() {
            Seq::empty()
        } else {
            seq![(k, i, e)] + lex_from(s, e)
        }
    }
}

/// The tokens of a whole text.
pub open spec fn lex(s: Seq<char>) -> Seq<(TokenKind, int, int)> {
    lex_from(s, 0)
}

fn is_path_char_exec(c: char) -> (r: bool)
    ensures
        r == is_path_char(c),
{
    ('a' <= c && c <= 'z') || ('A' <= c && c <= 'Z') || ('0' <= c && c <= '9') || c == '.' || c
        == '*' || c == '!' || c == '@' || c == '$' || c == '%' || c == '^' || c == '&' || c == '('
        || c == ')' || c == '{' || c == '}' || c == '[' || c == ']' || c == '/' || c == '_' || c
        == '-'
}

fn is_owner_char_exec(c: char) -> (r: bool)
    ensures
        r == is_owner_char(c),
{
    ('a' <= c && c <= 'z') || ('A' <= c && c <= 'Z') || ('0' <= c && c <= '9') || c == '/' || c
        == '-' || c == '_'
}

fn in_class_exec(c: char, k: CharClass) -> (r: bool)
    ensures
        r == in_class(c, k),
{
    match k {
        CharClass::PathChars => is_path_char_exec(c),
        CharClass::OwnerChars => is_owner_char_exec(c),
        CharClass::NotNewLine => c != '\n',
    }
}

/// The end of the run of class `k` that starts at `i`.
fn run_end(s: &Vec<char>, i: usize, k: CharClass) -> (r: usize)
    requires
        i <= s@.len(),
    ensures
        r == i + run_len(s@, i as int, k),
        r <= s@.len(),
{
    let mut j: usize = i;
    while j < s.len() && in_class_exec(s[j], k)
        invariant
            i <= j <= s@.len(),
            i + run_len(s@, i as int, k) == j + run_len(s@, j as int, k),
        decreases s@.len() - j,
    {
        j = j + 1;
    }
    j
}

/// Splits the text into tokens; blanks are skipped, comments kept.
pub fn lex_codeowners(s: &Vec<char>) -> (r: Vec<Token>)
    ensures
        r@.map_values(|t: Token| t@) == lex(s@),
{
    let mut toks: Vec<Token> = Vec::new();
    let mut i: usize = 0;
    while i < s.len()
        invariant
            i <= s@.len(),
            toks@.map_values(|t: Token| t@) + lex_from(s@, i as int) == lex(s@),
        decreases s@.len() - i,
    {
        let c = s[i];
        if c == ' ' || c == '\t' || c == '\x0c' {
            i = i + 1;
        } else {
            let kind: TokenKind;
            let end: usize;
            if c == '#' {
                kind = TokenKind::Comment;
                end = run_end(s, i + 1, CharClass::NotNewLine);
            } else if c == '\n' {
                kind = TokenKind::NewLine;
                end = i + 1;
            } else if is_path_char_exec(c) {
                let pe = run_end(s, i, CharClass::PathChars);
                let oe = run_end(s, i + 1, CharClass::OwnerChars);
                if c == '@' && oe > i + 1 && oe == pe {
                    kind = TokenKind::Owner;
                } else {
                    kind = TokenKind::Path;
                }
                end = pe;
            } else {
                kind = TokenKind::Error;
                end = i + 1;
            }
            let t = Token { kind, start: i, end };
            let ghost before = toks@.map_values(|t: Token| t@);
            assert(token_at(s@, i as int) == (kind, end as int));
            assert(lex_from(s@, i as int) == seq![t@] + lex_from(s@, end as int));
            toks.push(t);
            assert(toks@.map_values(|t: Token| t@) == before.push(t@));
            assert(before.push(t@) + lex_from(s@, end as int) == before + (seq![t@] + lex_from(
                s@,
                end as int,
            )));
            i = end;
        }
    }
    proof {
        assert(lex_from(s@, i as int) == Seq::<(TokenKind, int, int)>::empty());
        assert(toks@.map_values(|t: Token| t@) + Seq::<(TokenKind, int, int)>::empty()
            == toks@.map_values(|t: Token| t@));
    }
    toks
}


/// A rule as the contracts see it: its pattern, and its owners in ascending
/// order without repeats.
pub type RuleModel = (Seq<char>, Seq<Seq<char>>);

/// Adds `x` to an ascending list of owners, unless it is there already.
pub open spec fn insert_sorted(s: Seq<Seq<char>>, x: Seq<char>) -> Seq<Seq<char>>
    decreases s.len(),
{
    if s.len() == 0 {
        seq![x]
    } else if s[0] == x {
        s
    } else if seq_lt(s[0], x) {
        seq![s[0]] + insert_sorted(s.drop_first(), x)
    } else {
        seq![x] + s
    }
}

/// Each element comes strictly before the next, so none repeats.
pub open spec fn strictly_ascending(s: Seq<Seq<char>>) -> bool {
    forall|i: int, j: int| 0 <= i < j < s.len() ==> seq_lt(#[trigger] s[i], #[trigger] s[j])
}

/// Inserting keeps the elements and adds `x`.
pub proof fn lemma_insert_sorted_elements(s: Seq<Seq<char>>, x: Seq<char>)
    ensures
        forall|y: Seq<char>| #[trigger] insert_sorted(s, x).contains(y) <==> s.contains(y) || y == x,
    decreases s.len(),
{
    let r = insert_sorted(s, x);
    if s.len() > 0 && s[0] != x && seq_lt(s[0], x) {
        let rest = s.drop_first();
        lemma_insert_sorted_elements(rest, x);
        let t = insert_sorted(rest, x);
        assert(r == seq![s[0]] + t);
        assert forall|y: Seq<char>| r.contains(y) implies s.contains(y) || y == x by {
            let k = choose|k: int| 0 <= k < r.len() && r[k] == y;
            if k > 0 {
                assert(t[k - 1] == y);
                assert(t.contains(y));
                if y != x {
                    assert(rest.contains(y));
                    let m = choose|m: int| 0 <= m < rest.len() && rest[m] == y;
                    assert(s[m + 1] == y);
                    assert(s.contains(y));
                }
            } else {
                assert(s[0] == y);
                assert(s.contains(y));
            }
        }
        assert forall|y: Seq<char>| s.contains(y) || y == x implies r.contains(y) by {
            if y == x {
                assert(t.contains(y));
                let k = choose|k: int| 0 <= k < t.len() && t[k] == y;
                assert(r[k + 1] == y);
            } else {
                let m = choose|m: int| 0 <= m < s.len() && s[m] == y;
                if m > 0 {
                    assert(rest[m - 1] == y);
                    assert(rest.contains(y));
                    assert(t.contains(y));
                    let k = choose|k: int| 0 <= k < t.len() && t[k] == y;
                    assert(r[k + 1] == y);
                } else {
                    assert(r[0] == y);
                }
            }
        }
    } else if s.len() > 0 && s[0] == x {
        assert(s.contains(x)) by {
            assert(s[0] == x);
        }
    } else {
        assert(r == seq![x] + s);
        assert forall|y: Seq<char>| r.contains(y) implies s.contains(y) || y == x by {
            let k = choose|k: int| 0 <= k < r.len() && r[k] == y;
            if k > 0 {
                assert(s[k - 1] == y);
            }
        }
        assert forall|y: Seq<char>| s.contains(y) || y == x implies r.contains(y) by {
            if y == x {
                assert(r[0] == y);
            } else {
                let m = choose|m: int| 0 <= m < s.len() && s[m] == y;
                assert(r[m + 1] == y);
            }
        }
    }
}

/// Inserting into an ascending list without repeats keeps it so.
pub proof fn lemma_insert_sorted_ascending(s: Seq<Seq<char>>, x: Seq<char>)
    requires
        strictly_ascending(s),
    ensures
        strictly_ascending(insert_sorted(s, x)),
    decreases s.len(),
{
    let r = insert_sorted(s, x);
    if s.len() == 0 {
    } else if s[0] == x {
    } else if seq_lt(s[0], x) {
        let rest = s.drop_first();
        assert(strictly_ascending(rest)) by {
            assert forall|i: int, j: int| 0 <= i < j < rest.len() implies seq_lt(
                #[trigger] rest[i],
                #[trigger] rest[j],
            ) by {
                assert(rest[i] == s[i + 1] && rest[j] == s[j + 1]);
            }
        }
        lemma_insert_sorted_ascending(rest, x);
        lemma_insert_sorted_elements(rest, x);
        let t = insert_sorted(rest, x);
        assert(r == seq![s[0]] + t);
        assert forall|i: int, j: int| 0 <= i < j < r.len() implies seq_lt(
            #[trigger] r[i],
            #[trigger] r[j],
        ) by {
            if i == 0 {
                assert(r[j] == t[j - 1]);
                assert(t.contains(t[j - 1]));
                if rest.contains(t[j - 1]) {
                    let m = choose|m: int| 0 <= m < rest.len() && rest[m] == t[j - 1];
                    assert(s[m + 1] == t[j - 1]);
                    assert(seq_lt(s[0], s[m + 1]));
                }
            } else {
                assert(r[i] == t[i - 1] && r[j] == t[j - 1]);
            }
        }
    } else {
        lemma_seq_lt_total(s[0], x);
        assert(r == seq![x] + s);
        assert forall|i: int, j: int| 0 <= i < j < r.len() implies seq_lt(
            #[trigger] r[i],
            #[trigger] r[j],
        ) by {
            if i == 0 {
                assert(r[j] == s[j - 1]);
                if j > 1 {
                    assert(seq_lt(s[0], s[j - 1]));
                    lemma_seq_lt_transitive(x, s[0], s[j - 1]);
                }
            } else {
                assert(r[i] == s[i - 1] && r[j] == s[j - 1]);
            }
        }
    }
}

/// The state of the parser between two tokens.
pub enum LineState {
    /// At the start of a logical line.
    NoRule,
    /// A path has been read on this line.
    HasPath(Seq<char>),
    /// A path and at least one owner have been read on this line.
    PathWithOwners(Seq<char>, Seq<Seq<char>>),
}

/// A parse failure as the contracts see it: a byte offset and a text.
pub enum ParseFailure {
    OwnerStartLine(nat, Seq<char>),
    DoublePath(nat, Seq<char>),
    PathAfterOwner(nat, Seq<char>),
    LexFailure(nat, Seq<char>),
}

/// The byte offset, in UTF-8, of the character at position `i`.
pub open spec fn byte_offset(s: Seq<char>, i: int) -> nat {
    encode_utf8(s.take(i)).len()
}

/// One step of the parser on a token of the text `s`: the next state and the
/// rules it completes, or the failure.
pub open spec fn parse_step(s: Seq<char>, st: LineState, t: (TokenKind, int, int)) -> Result<
    (LineState, Seq<RuleModel>),
    ParseFailure,
> {
    let text = s.subrange(t.1, t.2);
    let at = byte_offset(s, t.1);
    match t.0 {
        TokenKind::Comment => Ok((st, Seq::empty())),
        TokenKind::Error => Err(ParseFailure::LexFailure(at, text)),
        TokenKind::NewLine => match st {
            LineState::NoRule => Ok((LineState::NoRule, Seq::empty())),
            LineState::HasPath(p) => Ok((LineState::NoRule, seq![(p, Seq::empty())])),
            LineState::PathWithOwners(p, os) => Ok((LineState::NoRule, seq![(p, os)])),
        },
        TokenKind::Owner => match st {
            LineState::NoRule => Err(ParseFailure::OwnerStartLine(at, text)),
            LineState::HasPath(p) => Ok((LineState::PathWithOwners(p, seq![text]), Seq::empty())),
            LineState::PathWithOwners(p, os) => Ok(
                (LineState::PathWithOwners(p, insert_sorted(os, text)), Seq::empty()),
            ),
        },
        TokenKind::Path => match st {
            LineState::NoRule => Ok((LineState::HasPath(text), Seq::empty())),
            LineState::HasPath(p) => Err(ParseFailure::DoublePath(at, text)),
            LineState::PathWithOwners(p, os) => Err(ParseFailure::PathAfterOwner(at, p)),
        },
    }
}

/// The rule still pending when the input ends.
pub open spec fn flush(st: LineState) -> Seq<RuleModel> {
    match st {
        LineState::NoRule => Seq::empty(),
        LineState::HasPath(p) => seq![(p, Seq::empty())],
        LineState::PathWithOwners(p, os) => seq![(p, os)],
    }
}

/// Runs the parser over `toks[i..]` from state `st`, after `rules` were read.
pub open spec fn parse_tokens(
    s: Seq<char>,
    toks: Seq<(TokenKind, int, int)>,
    i: int,
    st: LineState,
    rules: Seq<RuleModel>,
) -> Result<Seq<RuleModel>, ParseFailure>
    decreases toks.len() - i,
{
    if i < 0 || i >= toks.len() {
        Ok(rules + flush(st))
    } else {
        match parse_step(s, st, toks[i]) {
            Err(e) => Err(e),
            Ok((next, done)) => parse_tokens(s, toks, i + 1, next, rules + done),
        }
    }
}

/// The rules of a rule-file text, in the order of the file, or the first failure.
pub open spec fn parse_text(s: Seq<char>) -> Result<Seq<RuleModel>, ParseFailure> {
    parse_tokens(s, lex(s), 0, LineState::NoRule, Seq::empty())
}

proof fn lemma_lex_bounds(s: Seq<char>, i: int)
    requires
        0 <= i,
    ensures
        forall|k: int|
            0 <= k < lex_from(s, i).len() ==> i <= (#[trigger] lex_from(s, i)[k]).1 < lex_from(
                s,
                i,
            )[k].2 <= s.len(),
    decreases s.len() - i,
{
    if i < 0 || i >= s.len() {
    } else if is_blank(s[i]) {
        lemma_lex_bounds(s, i + 1);
        assert(lex_from(s, i) == lex_from(s, i + 1));
    } else {
        let (k, e) = token_at(s, i);
        if e <= i || e > s.len() {
        } else {
            lemma_lex_bounds(s, e);
            let rest = lex_from(s, e);
            assert(lex_from(s, i) == seq![(k, i, e)] + rest);
            assert forall|m: int| 0 <= m < lex_from(s, i).len() implies i <= (#[trigger] lex_from(
                s,
                i,
            )[m]).1 < lex_from(s, i)[m].2 <= s.len() by {
                if m > 0 {
                    assert(lex_from(s, i)[m] == rest[m - 1]);
                }
            }
        }
    }
}

proof fn lemma_encode_concat(a: Seq<char>, b: Seq<char>)
    ensures
        encode_utf8(a + b) == encode_utf8(a) + encode_utf8(b),
    decreases a.len(),
{
    if a.len() == 0 {
        assert(a + b == b);
    } else {
        assert((a + b).drop_first() == a.drop_first() + b);
        lemma_encode_concat(a.drop_first(), b);
    }
}

/// The number of bytes of `c` in UTF-8.
fn char_width(c: char) -> (r: usize)
    ensures
        r == encode_scalar(c as u32).len(),
        1 <= r <= 4,
{
    proof {
        char_is_scalar(c);
    }
    let u = c as u32;
    if u <= 0x7f {
        1
    } else if u <= 0x7ff {
        2
    } else if u <= 0xffff {
        3
    } else {
        4
    }
}

/// The byte offset of the character at position `i`, where the whole text
/// takes `total` bytes.
fn byte_offset_of(s: &Vec<char>, i: usize, total: usize) -> (r: usize)
    requires
        i <= s@.len(),
        encode_utf8(s@).len() == total,
    ensures
        r == byte_offset(s@, i as int),
{
    let mut k: usize = 0;
    let mut sum: usize = 0;
    assert(s@.take(0) == Seq::<char>::empty());
    while k < i
        invariant
            k <= i <= s@.len(),
            encode_utf8(s@).len() == total,
            sum == encode_utf8(s@.take(k as int)).len(),
        decreases i - k,
    {
        let w = char_width(s[k]);
        proof {
            let a = s@.take(k as int);
            lemma_encode_concat(a, seq![s@[k as int]]);
            assert(a + seq![s@[k as int]] == s@.take(k + 1));
            assert(encode_utf8(seq![s@[k as int]]) == encode_scalar(s@[k as int] as u32)
                + encode_utf8(Seq::<char>::empty())) by {
                assert(seq![s@[k as int]].drop_first() == Seq::<char>::empty());
            }
            lemma_encode_concat(s@.take(k + 1), s@.skip(k + 1));
            assert(s@.take(k + 1) + s@.skip(k + 1) == s@);
        }
        sum = sum + w;
        k = k + 1;
    }
    sum
}

/// Adds `x` to an ascending list without repeats, unless it is there already.
pub(crate) fn insert_owner(os: &mut Vec<Vec<char>>, x: Vec<char>)
    ensures
        final(os)@.map_values(|o: Vec<char>| o@) == insert_sorted(
            old(os)@.map_values(|o: Vec<char>| o@),
            x@,
        ),
{
    let ghost v = old(os)@.map_values(|o: Vec<char>| o@);
    let mut j: usize = 0;
    assert(v.take(0) + v.skip(0) == v.skip(0));
    assert(v.skip(0) == v);
    while j < os.len() && chars_lt(&os[j], &x) && !chars_eq(&os[j], &x)
        invariant
            j <= os@.len(),
            os@.map_values(|o: Vec<char>| o@) == v,
            insert_sorted(v, x@) == v.take(j as int) + insert_sorted(v.skip(j as int), x@),
        decreases os@.len() - j,
    {
        proof {
            let w = v.skip(j as int);
            assert(w[0] == v[j as int]);
            assert(w.drop_first() == v.skip(j + 1));
            assert(v.take(j as int) + seq![v[j as int]] == v.take(j + 1));
            assert(v.take(j as int) + (seq![v[j as int]] + insert_sorted(v.skip(j + 1), x@))
                == v.take(j + 1) + insert_sorted(v.skip(j + 1), x@));
        }
        j = j + 1;
    }
    if j < os.len() && chars_eq(&os[j], &x) {
        assert(v.take(j as int) + v.skip(j as int) == v);
        return;
    }
    let ghost w = v.skip(j as int);
    os.insert(j, x);
    proof {
        assert(insert_sorted(w, x@) == seq![x@] + w);
        assert(final(os)@.map_values(|o: Vec<char>| o@) == v.take(j as int) + (seq![x@] + w));
    }
}


/// One rule of the file: a path pattern and the owners of the files it matches.
#[derive(Clone, Debug)]
pub struct OwnerRule {
    pattern: String,
    owners: Vec<String>,
}

impl View for OwnerRule {
    type V = RuleModel;

    closed spec fn view(&self) -> RuleModel {
        (self.pattern@, strings_view(self.owners@))
    }
}

/// The rules of a rule file, in the order of the file.
#[derive(Debug)]
pub struct CodeOwners {
    rules: Vec<OwnerRule>,
}

impl CodeOwners {
    /// Each rule lists its owners in strictly ascending order.
    #[verifier::type_invariant]
    spec fn owners_in_order(&self) -> bool {
        all_owners_ascending(self@)
    }
}

impl Clone for CodeOwners {
    fn clone(&self) -> (r: CodeOwners) {
        proof {
            use_type_invariant(self);
        }
        let mut rules: Vec<OwnerRule> = Vec::new();
        let mut k: usize = 0;
        while k < self.rules.len()
            invariant
                k <= self.rules@.len(),
                all_owners_ascending(self.rules@.map_values(|x: OwnerRule| x@)),
                rules@.map_values(|x: OwnerRule| x@) == self.rules@.map_values(|x: OwnerRule| x@).take(
                    k as int,
                ),
            decreases self.rules@.len() - k,
        {
            let rule = &self.rules[k];
            let copy = OwnerRule { pattern: rule.pattern.clone(), owners: copy_strings(&rule.owners) };
            rules.push(copy);
            assert(self.rules@.map_values(|x: OwnerRule| x@).take(k + 1) == self.rules@.map_values(
                |x: OwnerRule| x@,
            ).take(k as int).push(rule@));
            k = k + 1;
        }
        assert(self.rules@.map_values(|x: OwnerRule| x@).take(self.rules@.len() as int)
            == self.rules@.map_values(|x: OwnerRule| x@));
        CodeOwners { rules }
    }
}

impl View for CodeOwners {
    type V = Seq<RuleModel>;

    closed spec fn view(&self) -> Seq<RuleModel> {
        self.rules@.map_values(|r: OwnerRule| r@)
    }
}

/// Why a rule file was refused: the byte offset of the offending token, and
/// its text (for `PathAfterOwner`, the path of the line).
#[derive(Debug)]
pub enum ParseError {
    OwnerStartLine(usize, String),
    DoublePath(usize, String),
    PathAfterOwner(usize, String),
    LexFailure(usize, String),
}

impl View for ParseError {
    type V = ParseFailure;

    open spec fn view(&self) -> ParseFailure {
        match self {
            ParseError::OwnerStartLine(at, t) => ParseFailure::OwnerStartLine(*at as nat, t@),
            ParseError::DoublePath(at, t) => ParseFailure::DoublePath(*at as nat, t@),
            ParseError::PathAfterOwner(at, t) => ParseFailure::PathAfterOwner(*at as nat, t@),
            ParseError::LexFailure(at, t) => ParseFailure::LexFailure(*at as nat, t@),
        }
    }
}

/// The parser's state, with the characters of the pending line.
enum ParseState {
    NoRule,
    HasPath { path: Vec<char> },
    PathWithOwners { path: Vec<char>, owners: Vec<Vec<char>> },
}

impl ParseState {
    spec fn model(&self) -> LineState {
        match self {
            ParseState::NoRule => LineState::NoRule,
            ParseState::HasPath { path } => LineState::HasPath(path@),
            ParseState::PathWithOwners { path, owners } => LineState::PathWithOwners(
                path@,
                owners@.map_values(|o: Vec<char>| o@),
            ),
        }
    }
}

fn make_rule(path: &Vec<char>, owners: &Vec<Vec<char>>) -> (r: OwnerRule)
    ensures
        r@ == (path@, owners@.map_values(|o: Vec<char>| o@)),
{
    let mut names: Vec<String> = Vec::new();
    let mut k: usize = 0;
    while k < owners.len()
        invariant
            k <= owners@.len(),
            names@.map_values(|o: String| o@) == owners@.map_values(|o: Vec<char>| o@).take(
                k as int,
            ),
        decreases owners@.len() - k,
    {
        let name = string_of(&owners[k]);
        names.push(name);
        assert(owners@.map_values(|o: Vec<char>| o@).take(k + 1) == owners@.map_values(
            |o: Vec<char>| o@,
        ).take(k as int).push(owners@[k as int]@));
        k = k + 1;
    }
    assert(owners@.map_values(|o: Vec<char>| o@).take(owners@.len() as int) == owners@.map_values(
        |o: Vec<char>| o@,
    ));
    OwnerRule { pattern: string_of(path), owners: names }
}

impl CodeOwners {
    /// Parses a rule file. Each logical line holds a path pattern followed by
    /// zero or more owners; comments and blank lines are skipped. The rules
    /// come in the order of the file; the first malformed token fails the
    /// whole file.
    pub fn parse(data: String) -> (r: Result<CodeOwners, ParseError>)
        ensures
            match r {
                Ok(c) => parse_text(data@) == Ok::<Seq<RuleModel>, ParseFailure>(c@),
                Err(e) => parse_text(data@) == Err::<Seq<RuleModel>, ParseFailure>(e@),
            },
    {
        let s = chars_of(data.as_str());
        let total = data.as_str().as_bytes().len();
        let toks = lex_codeowners(&s);
        proof {
            lemma_lex_bounds(s@, 0);
        }
        let mut rules: Vec<OwnerRule> = Vec::new();
        let mut state = ParseState::NoRule;
        let mut i: usize = 0;
        assert(rules@.map_values(|r: OwnerRule| r@) == Seq::<RuleModel>::empty());
        while i < toks.len()
            invariant
                s@ == data@,
                total == encode_utf8(s@).len(),
                toks@.map_values(|t: Token| t@) == lex(s@),
                forall|k: int|
                    0 <= k < lex(s@).len() ==> 0 <= (#[trigger] lex(s@)[k]).1 < lex(s@)[k].2
                        <= s@.len(),
                i <= toks@.len(),
                parse_text(s@) == parse_tokens(
                    s@,
                    lex(s@),
                    i as int,
                    state.model(),
                    rules@.map_values(|r: OwnerRule| r@),
                ),
            decreases toks@.len() - i,
        {
            let t = toks[i];
            assert(lex(s@)[i as int] == t@);
            let ghost st = state.model();
            let ghost before = rules@.map_values(|r: OwnerRule| r@);
            if t.kind == TokenKind::Comment {
                assert(rules@.map_values(|r: OwnerRule| r@) == before + Seq::<RuleModel>::empty());
            } else if t.kind == TokenKind::Error {
                return Err(
                    ParseError::LexFailure(
                        byte_offset_of(&s, t.start, total),
                        string_of_range(&s, t.start, t.end),
                    ),
                );
            } else {
                state =
                match state {
                    ParseState::NoRule => {
                        if t.kind == TokenKind::Owner {
                            return Err(
                                ParseError::OwnerStartLine(
                                    byte_offset_of(&s, t.start, total),
                                    string_of_range(&s, t.start, t.end),
                                ),
                            );
                        } else if t.kind == TokenKind::Path {
                            assert(before == before + Seq::<RuleModel>::empty());
                            ParseState::HasPath { path: chars_range(&s, t.start, t.end) }
                        } else {
                            assert(before == before + Seq::<RuleModel>::empty());
                            ParseState::NoRule
                        }
                    },
                    ParseState::HasPath { path } => {
                        if t.kind == TokenKind::Owner {
                            let mut owners: Vec<Vec<char>> = Vec::new();
                            owners.push(chars_range(&s, t.start, t.end));
                            assert(owners@.map_values(|o: Vec<char>| o@) == seq![
                                s@.subrange(t@.1, t@.2),
                            ]);
                            assert(before == before + Seq::<RuleModel>::empty());
                            ParseState::PathWithOwners { path, owners }
                        } else if t.kind == TokenKind::Path {
                            return Err(
                                ParseError::DoublePath(
                                    byte_offset_of(&s, t.start, total),
                                    string_of_range(&s, t.start, t.end),
                                ),
                            );
                        } else {
                            let none: Vec<Vec<char>> = Vec::new();
                            let rule = make_rule(&path, &none);
                            assert(none@.map_values(|o: Vec<char>| o@) == Seq::<Seq<char>>::empty());
                            rules.push(rule);
                            assert(rules@.map_values(|r: OwnerRule| r@) == before + seq![rule@]);
                            ParseState::NoRule
                        }
                    },
                    ParseState::PathWithOwners { path, mut owners } => {
                        if t.kind == TokenKind::Owner {
                            insert_owner(&mut owners, chars_range(&s, t.start, t.end));
                            assert(before == before + Seq::<RuleModel>::empty());
                            ParseState::PathWithOwners { path, owners }
                        } else if t.kind == TokenKind::Path {
                            return Err(
                                ParseError::PathAfterOwner(
                                    byte_offset_of(&s, t.start, total),
                                    string_of(&path),
                                ),
                            );
                        } else {
                            let rule = make_rule(&path, &owners);
                            rules.push(rule);
                            assert(rules@.map_values(|r: OwnerRule| r@) == before + seq![rule@]);
                            ParseState::NoRule
                        }
                    },
                };
            }
            proof {
                let after = rules@.map_values(|r: OwnerRule| r@);
                let (next, done) = parse_step(s@, st, t@)->Ok_0;
                assert(parse_step(s@, st, t@) is Ok);
                assert(next == state.model());
                assert(after == before + done);
            }
            i = i + 1;
        }
        let ghost st = state.model();
        let ghost before = rules@.map_values(|r: OwnerRule| r@);
        match state {
            ParseState::NoRule => {},
            ParseState::HasPath { path } => {
                let none: Vec<Vec<char>> = Vec::new();
                let rule = make_rule(&path, &none);
                assert(none@.map_values(|o: Vec<char>| o@) == Seq::<Seq<char>>::empty());
                rules.push(rule);
                assert(rules@.map_values(|r: OwnerRule| r@) == before + seq![rule@]);
            },
            ParseState::PathWithOwners { path, owners } => {
                let rule = make_rule(&path, &owners);
                rules.push(rule);
                assert(rules@.map_values(|r: OwnerRule| r@) == before + seq![rule@]);
            },
        }
        assert(st is NoRule ==> rules@.map_values(|r: OwnerRule| r@) == before + flush(st));
        assert(rules@.map_values(|r: OwnerRule| r@) == before + flush(st));
        proof {
            lemma_parsed_owners_ascending(data@);
        }
        Ok(CodeOwners { rules })
    }
}


/// The owners of the last rule whose pattern matches `path`; `None` when no
/// rule matches.
pub open spec fn owners_of(rules: Seq<RuleModel>, path: Seq<char>) -> Option<Seq<Seq<char>>>
    decreases rules.len(),
{
    if rules.len() == 0 {
        None
    } else if pattern_matches(path, rules.last().0) {
        Some(rules.last().1)
    } else {
        owners_of(rules.drop_last(), path)
    }
}

/// Whether `file_path` matches the rule pattern `pattern`.
pub fn matches_pattern(file_path: &str, pattern: &str) -> (r: bool)
    ensures
        r == pattern_matches(file_path@, pattern@),
{
    let path = chars_of(file_path);
    let pat = chars_of(pattern);
    pattern_matches_chars(&path, &pat)
}

impl CodeOwners {
    /// The owners of `file_path`: those of the last rule that matches it,
    /// whatever the patterns' specificity. `Some` of an empty list when that
    /// rule names no owner; `None` when no rule matches.
    pub fn owners(&self, file_path: &str) -> (r: Option<Vec<String>>)
        ensures
            owners_of(self@, file_path@) == match r {
                Some(v) => Some(strings_view(v@)),
                None => None::<Seq<Seq<char>>>,
            },
            r matches Some(v) ==> strictly_ascending(strings_view(v@)),
    {
        proof {
            use_type_invariant(self);
        }
        let path = chars_of(file_path);
        let mut found: bool = false;
        let mut rule_idx: usize = 0;
        let mut i: usize = 0;
        assert(self@.take(0) == Seq::<RuleModel>::empty());
        while i < self.rules.len()
            invariant
                i <= self.rules@.len(),
                path@ == file_path@,
                self@ == self.rules@.map_values(|r: OwnerRule| r@),
                found ==> rule_idx < i,
                owners_of(self@.take(i as int), path@) == if found {
                    Some(self@[rule_idx as int].1)
                } else {
                    None::<Seq<Seq<char>>>
                },
            decreases self.rules@.len() - i,
        {
            let rule = &self.rules[i];
            let pat = chars_of(rule.pattern.as_str());
            assert(self@.take(i + 1).drop_last() == self@.take(i as int));
            assert(self@.take(i + 1).last() == rule@);
            if pattern_matches_chars(&path, &pat) {
                found = true;
                rule_idx = i;
            }
            i = i + 1;
        }
        assert(self@.take(self.rules@.len() as int) == self@);
        if found {
            Some(copy_strings(&self.rules[rule_idx].owners))
        } else {
            None
        }
    }
}

/// The patterns of the rules, in order.
pub open spec fn patterns(rules: Seq<RuleModel>) -> Seq<Seq<char>> {
    rules.map_values(|r: RuleModel| r.0)
}

/// The path of the line being read, if any.
pub open spec fn pending_path(st: LineState) -> Seq<Seq<char>> {
    match st {
        LineState::NoRule => Seq::empty(),
        LineState::HasPath(p) => seq![p],
        LineState::PathWithOwners(p, _) => seq![p],
    }
}

/// The texts of the path tokens among `toks[i..]`, in order: one per logical
/// line that holds a rule.
pub open spec fn path_texts(s: Seq<char>, toks: Seq<(TokenKind, int, int)>, i: int) -> Seq<
    Seq<char>,
>
    decreases toks.len() - i,
{
    if i < 0 || i >= toks.len() {
        Seq::empty()
    } else if toks[i].0 == TokenKind::Path {
        seq![s.subrange(toks[i].1, toks[i].2)] + path_texts(s, toks, i + 1)
    } else {
        path_texts(s, toks, i + 1)
    }
}

proof fn lemma_parse_tokens_patterns(
    s: Seq<char>,
    toks: Seq<(TokenKind, int, int)>,
    i: int,
    st: LineState,
    rules: Seq<RuleModel>,
)
    requires
        0 <= i,
        parse_tokens(s, toks, i, st, rules) is Ok,
    ensures
        patterns(parse_tokens(s, toks, i, st, rules)->Ok_0) == patterns(rules) + pending_path(st)
            + path_texts(s, toks, i),
    decreases toks.len() - i,
{
    if i >= toks.len() {
        assert(patterns(rules + flush(st)) == patterns(rules) + pending_path(st));
        assert(patterns(rules) + pending_path(st) + Seq::<Seq<char>>::empty() == patterns(rules)
            + pending_path(st));
    } else {
        let (next, done) = parse_step(s, st, toks[i])->Ok_0;
        lemma_parse_tokens_patterns(s, toks, i + 1, next, rules + done);
        assert(patterns(rules + done) == patterns(rules) + patterns(done));
        let t = toks[i];
        if t.0 == TokenKind::Path {
            assert(path_texts(s, toks, i) == seq![s.subrange(t.1, t.2)] + path_texts(
                s,
                toks,
                i + 1,
            ));
            assert(patterns(done) == Seq::<Seq<char>>::empty());
            assert(pending_path(next) == seq![s.subrange(t.1, t.2)]);
            assert(pending_path(st) == Seq::<Seq<char>>::empty());
        } else {
            assert(path_texts(s, toks, i) == path_texts(s, toks, i + 1));
            assert(patterns(done) + pending_path(next) == pending_path(st));
        }
    }
}

/// A rule file that parses gives one rule per logical line that holds a path,
/// in the order of the file, each with that path as its pattern; and the same
/// text always parses to the same rules.
pub proof fn lemma_parse_one_rule_per_line(a: Seq<char>, b: Seq<char>)
    requires
        parse_text(a) is Ok,
    ensures
        patterns(parse_text(a)->Ok_0) == path_texts(a, lex(a), 0),
        parse_text(a)->Ok_0.len() == path_texts(a, lex(a), 0).len(),
        a == b ==> parse_text(b) == parse_text(a),
{
    lemma_parse_tokens_patterns(a, lex(a), 0, LineState::NoRule, Seq::empty());
    assert(patterns(Seq::<RuleModel>::empty()) == Seq::<Seq<char>>::empty());
    assert(Seq::<Seq<char>>::empty() + Seq::<Seq<char>>::empty() + path_texts(a, lex(a), 0)
        == path_texts(a, lex(a), 0));
}

/// The last matching rule decides, whatever the patterns' specificity: when
/// rules `i < j` both match `path` and no rule after `j` does, the owners are
/// those of rule `j`.
pub proof fn lemma_last_match_wins(rules: Seq<RuleModel>, path: Seq<char>, i: int, j: int)
    requires
        0 <= i < j < rules.len(),
        pattern_matches(path, rules[i].0),
        pattern_matches(path, rules[j].0),
        forall|k: int| j < k < rules.len() ==> !pattern_matches(path, #[trigger] rules[k].0),
    ensures
        owners_of(rules, path) == Some(rules[j].1),
    decreases rules.len(),
{
    if j < rules.len() - 1 {
        let front = rules.subrange(0, rules.len() - 1);
        assert(!pattern_matches(path, rules[rules.len() - 1].0));
        assert forall|k: int| j < k < front.len() implies !pattern_matches(
            path,
            #[trigger] front[k].0,
        ) by {
            assert(front[k] == rules[k]);
        }
        lemma_last_match_wins(front, path, i, j);
    }
}

impl OwnerRule {
    pub fn pattern(&self) -> (r: &str)
        ensures
            r@ == self@.0,
    {
        self.pattern.as_str()
    }

    /// The owners, in ascending order without repeats.
    pub fn owners(&self) -> (r: &Vec<String>)
        ensures
            strings_view(r@) == self@.1,
    {
        &self.owners
    }
}

impl CodeOwners {
    /// The rules, in the order of the file.
    pub fn rules(&self) -> (r: &Vec<OwnerRule>)
        ensures
            r@.map_values(|x: OwnerRule| x@) == self@,
    {
        &self.rules
    }
}

pub open spec fn all_owners_ascending(rules: Seq<RuleModel>) -> bool {
    forall|k: int| 0 <= k < rules.len() ==> strictly_ascending(#[trigger] rules[k].1)
}

pub open spec fn pending_owners_ascending(st: LineState) -> bool {
    match st {
        LineState::PathWithOwners(_, os) => strictly_ascending(os),
        _ => true,
    }
}

proof fn lemma_parse_tokens_owners(
    s: Seq<char>,
    toks: Seq<(TokenKind, int, int)>,
    i: int,
    st: LineState,
    rules: Seq<RuleModel>,
)
    requires
        0 <= i,
        parse_tokens(s, toks, i, st, rules) is Ok,
        all_owners_ascending(rules),
        pending_owners_ascending(st),
    ensures
        all_owners_ascending(parse_tokens(s, toks, i, st, rules)->Ok_0),
    decreases toks.len() - i,
{
    if i >= toks.len() {
        let out = rules + flush(st);
        assert forall|k: int| 0 <= k < out.len() implies strictly_ascending(#[trigger] out[k].1) by {
            if k >= rules.len() {
                assert(out[k] == flush(st)[k - rules.len()]);
            }
        }
    } else {
        let (next, done) = parse_step(s, st, toks[i])->Ok_0;
        if let LineState::PathWithOwners(p, os) = st {
            lemma_insert_sorted_ascending(os, s.subrange(toks[i].1, toks[i].2));
        }
        let more = rules + done;
        assert forall|k: int| 0 <= k < more.len() implies strictly_ascending(#[trigger] more[k].1) by {
            if k >= rules.len() {
                assert(more[k] == done[k - rules.len()]);
            }
        }
        lemma_parse_tokens_owners(s, toks, i + 1, next, more);
    }
}

/// Repeated owners on a line collapse: every parsed rule lists its owners in
/// strictly ascending order, each once.
pub proof fn lemma_parsed_owners_ascending(text: Seq<char>)
    requires
        parse_text(text) is Ok,
    ensures
        all_owners_ascending(parse_text(text)->Ok_0),
{
    lemma_parse_tokens_owners(text, lex(text), 0, LineState::NoRule, Seq::empty());
}

/// The kind of the last token before position `i` that is not a comment.
pub open spec fn kind_before(toks: Seq<(TokenKind, int, int)>, i: int) -> Option<TokenKind>
    decreases i,
{
    if i <= 0 || i > toks.len() {
        None
    } else if toks[i - 1].0 == TokenKind::Comment {
        kind_before(toks, i - 1)
    } else {
        Some(toks[i - 1].0)
    }
}

/// Well-formed tokens: no lex error, a path only at the start of a logical
/// line, and an owner only after the path or another owner of its line.
pub open spec fn well_formed_tokens(toks: Seq<(TokenKind, int, int)>) -> bool {
    forall|i: int|
        0 <= i < toks.len() ==> {
            &&& (#[trigger] toks[i]).0 != TokenKind::Error
            &&& toks[i].0 == TokenKind::Path ==> (kind_before(toks, i) is None || kind_before(
                toks,
                i,
            ) == Some(TokenKind::NewLine))
            &&& toks[i].0 == TokenKind::Owner ==> (kind_before(toks, i) == Some(TokenKind::Path)
                || kind_before(toks, i) == Some(TokenKind::Owner))
        }
}

/// The parser state agrees with the last token read.
pub open spec fn state_follows(st: LineState, last: Option<TokenKind>) -> bool {
    match st {
        LineState::NoRule => last is None || last == Some(TokenKind::NewLine),
        LineState::HasPath(_) => last == Some(TokenKind::Path),
        LineState::PathWithOwners(_, _) => last == Some(TokenKind::Owner),
    }
}

proof fn lemma_well_formed_parses(
    s: Seq<char>,
    toks: Seq<(TokenKind, int, int)>,
    i: int,
    st: LineState,
    rules: Seq<RuleModel>,
)
    requires
        0 <= i <= toks.len(),
        well_formed_tokens(toks),
        state_follows(st, kind_before(toks, i)),
    ensures
        parse_tokens(s, toks, i, st, rules) is Ok,
    decreases toks.len() - i,
{
    if i < toks.len() {
        let t = toks[i];
        assert(t.0 != TokenKind::Error);
        let (next, done) = parse_step(s, st, t)->Ok_0;
        assert(parse_step(s, st, t) is Ok);
        assert(state_follows(next, kind_before(toks, i + 1)));
        lemma_well_formed_parses(s, toks, i + 1, next, rules + done);
    }
}

/// The owners written from position `i` to the end of its logical line.
pub open spec fn owners_from(s: Seq<char>, toks: Seq<(TokenKind, int, int)>, i: int) -> Set<
    Seq<char>,
>
    decreases toks.len() - i,
{
    if i < 0 || i >= toks.len() || toks[i].0 == TokenKind::NewLine {
        Set::empty()
    } else if toks[i].0 == TokenKind::Owner {
        owners_from(s, toks, i + 1).insert(s.subrange(toks[i].1, toks[i].2))
    } else {
        owners_from(s, toks, i + 1)
    }
}

/// The rules that the lines from position `i` on describe: each path token
/// with the set of owners written after it on its line.
pub open spec fn line_rules(s: Seq<char>, toks: Seq<(TokenKind, int, int)>, i: int) -> Seq<
    (Seq<char>, Set<Seq<char>>),
>
    decreases toks.len() - i,
{
    if i < 0 || i >= toks.len() {
        Seq::empty()
    } else if toks[i].0 == TokenKind::Path {
        seq![(s.subrange(toks[i].1, toks[i].2), owners_from(s, toks, i + 1))] + line_rules(
            s,
            toks,
            i + 1,
        )
    } else {
        line_rules(s, toks, i + 1)
    }
}

/// Rules with their owners as sets.
pub open spec fn rule_sets(rules: Seq<RuleModel>) -> Seq<(Seq<char>, Set<Seq<char>>)> {
    rules.map_values(|r: RuleModel| (r.0, r.1.to_set()))
}

/// The rule of the line being read, with the owners still to come on it.
pub open spec fn pending_rule(
    st: LineState,
    s: Seq<char>,
    toks: Seq<(TokenKind, int, int)>,
    i: int,
) -> Seq<(Seq<char>, Set<Seq<char>>)> {
    match st {
        LineState::NoRule => Seq::empty(),
        LineState::HasPath(p) => seq![(p, owners_from(s, toks, i))],
        LineState::PathWithOwners(p, os) => seq![(p, os.to_set() + owners_from(s, toks, i))],
    }
}

proof fn lemma_rule_sets_concat(a: Seq<RuleModel>, b: Seq<RuleModel>)
    ensures
        rule_sets(a + b) == rule_sets(a) + rule_sets(b),
{
    assert(rule_sets(a + b) =~= rule_sets(a) + rule_sets(b));
}

proof fn lemma_well_formed_rules(
    s: Seq<char>,
    toks: Seq<(TokenKind, int, int)>,
    i: int,
    st: LineState,
    rules: Seq<RuleModel>,
)
    requires
        0 <= i <= toks.len(),
        well_formed_tokens(toks),
        state_follows(st, kind_before(toks, i)),
    ensures
        parse_tokens(s, toks, i, st, rules) is Ok,
        rule_sets(parse_tokens(s, toks, i, st, rules)->Ok_0) == rule_sets(rules) + pending_rule(
            st,
            s,
            toks,
            i,
        ) + line_rules(s, toks, i),
    decreases toks.len() - i,
{
    lemma_well_formed_parses(s, toks, i, st, rules);
    if i >= toks.len() {
        lemma_rule_sets_concat(rules, flush(st));
        match st {
            LineState::NoRule => {},
            LineState::HasPath(p) => {
                assert(Seq::<Seq<char>>::empty().to_set() =~= Set::<Seq<char>>::empty());
            },
            LineState::PathWithOwners(p, os) => {
                assert(os.to_set() + Set::<Seq<char>>::empty() =~= os.to_set());
            },
        }
        assert(rule_sets(flush(st)) =~= pending_rule(st, s, toks, i));
        assert(line_rules(s, toks, i) =~= Seq::<(Seq<char>, Set<Seq<char>>)>::empty());
    } else {
        let t = toks[i];
        let text = s.subrange(t.1, t.2);
        let (next, done) = parse_step(s, st, t)->Ok_0;
        assert(parse_step(s, st, t) is Ok);
        assert(state_follows(next, kind_before(toks, i + 1)));
        lemma_well_formed_rules(s, toks, i + 1, next, rules + done);
        lemma_rule_sets_concat(rules, done);
        if t.0 == TokenKind::Comment {
            assert(owners_from(s, toks, i) == owners_from(s, toks, i + 1));
            assert(rule_sets(done) =~= Seq::<(Seq<char>, Set<Seq<char>>)>::empty());
        } else if t.0 == TokenKind::NewLine {
            assert(owners_from(s, toks, i) == Set::<Seq<char>>::empty());
            match st {
                LineState::NoRule => {},
                LineState::HasPath(p) => {
                    assert(Seq::<Seq<char>>::empty().to_set() =~= Set::<Seq<char>>::empty());
                },
                LineState::PathWithOwners(p, os) => {
                    assert(os.to_set() + Set::<Seq<char>>::empty() =~= os.to_set());
                },
            }
            assert(rule_sets(done) =~= pending_rule(st, s, toks, i));
        } else if t.0 == TokenKind::Path {
            assert(rule_sets(done) =~= Seq::<(Seq<char>, Set<Seq<char>>)>::empty());
        } else {
            assert(t.0 == TokenKind::Owner);
            assert(owners_from(s, toks, i) == owners_from(s, toks, i + 1).insert(text));
            assert(rule_sets(done) =~= Seq::<(Seq<char>, Set<Seq<char>>)>::empty());
            match st {
                LineState::NoRule => {},
                LineState::HasPath(p) => {
                    assert(seq![text].to_set() + owners_from(s, toks, i + 1) =~= owners_from(
                        s,
                        toks,
                        i,
                    )) by {
                        assert forall|y: Seq<char>| seq![text].contains(y) <==> y == text by {
                            if y == text {
                                assert(seq![text][0] == y);
                            }
                        }
                    }
                },
                LineState::PathWithOwners(p, os) => {
                    lemma_insert_sorted_elements(os, text);
                    assert(insert_sorted(os, text).to_set() + owners_from(s, toks, i + 1)
                        =~= os.to_set() + owners_from(s, toks, i));
                },
            }
            assert(pending_rule(next, s, toks, i + 1) == pending_rule(st, s, toks, i));
        }
    }
}

/// Well-formed rule-file text parses to one rule per line holding a path, in
/// the order of the file: that path as its pattern, and as its owners exactly
/// the owners written on its line, each once.
pub proof fn lemma_well_formed_text_rules(text: Seq<char>)
    requires
        well_formed_tokens(lex(text)),
    ensures
        parse_text(text) is Ok,
        rule_sets(parse_text(text)->Ok_0) == line_rules(text, lex(text), 0),
        all_owners_ascending(parse_text(text)->Ok_0),
{
    lemma_well_formed_rules(text, lex(text), 0, LineState::NoRule, Seq::empty());
    assert(rule_sets(Seq::<RuleModel>::empty()) =~= Seq::<(Seq<char>, Set<Seq<char>>)>::empty());
    assert(Seq::<(Seq<char>, Set<Seq<char>>)>::empty() + Seq::<(Seq<char>, Set<Seq<char>>)>::empty()
        + line_rules(text, lex(text), 0) == line_rules(text, lex(text), 0));
    lemma_parsed_owners_ascending(text);
}

} // verus!
