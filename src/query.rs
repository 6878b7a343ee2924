//! The query language: words combined with `AND`, `OR` and parentheses.
//!
//! The grammar is parsed by recursive descent, exactly in this order:
//!
//! ```text
//! primary  := WORD | '(' expr ')'
//! or_expr  := primary ('OR' or_expr)?
//! and_expr := or_expr ('AND' and_expr)?
//! expr     := and_expr
//! ```
//!
//! so that `foo AND bar OR baz` is `And(foo, Or(bar, baz))` and
//! `foo OR bar AND baz` is `And(Or(foo, bar), baz)`.

use crate::words::chars_of;
use vstd::prelude::*;

verus! {

/// The query text is not a well-formed query.
#[derive(Debug, Clone, Copy, PartialEq, Eq, PartialOrd, Ord, Hash)]
pub struct ParseError;

/// A parsed query.
#[derive(Debug, PartialEq, Eq, Hash)]
pub enum Query {
    Word(String),
    And(Box<Query>, Box<Query>),
    Or(Box<Query>, Box<Query>),
}

impl Clone for Query {
    fn clone(&self) -> (r: Query)
        ensures
            r@ == self@,
        decreases self,
    {
        match self {
            Query::Word(w) => Query::Word(w.clone()),
            Query::And(l, r) => Query::And(Box::new((**l).clone()), Box::new((**r).clone())),
            Query::Or(l, r) => Query::Or(Box::new((**l).clone()), Box::new((**r).clone())),
        }
    }
}

/// The mathematical form of a query: words are character sequences.
pub enum Ast {
    Word(Seq<char>),
    And(Box<Ast>, Box<Ast>),
    Or(Box<Ast>, Box<Ast>),
}

impl View for Query {
    type V = Ast;

    open spec fn view(&self) -> Ast
        decreases self,
    {
        match self {
            Query::Word(w) => Ast::Word(w@),
            Query::And(l, r) => Ast::And(Box::new((**l).view()), Box::new((**r).view())),
            Query::Or(l, r) => Ast::Or(Box::new((**l).view()), Box::new((**r).view())),
        }
    }
}

/// How the parser sees one character of the query text.
#[derive(Debug, Clone, Copy, PartialEq, Eq, Structural)]
pub enum CharKind {
    /// Part of a word (alphanumeric).
    Word,
    /// Whitespace, skipped between tokens.
    Space,
    /// Anything else: parentheses and punctuation.
    Other,
}

/// Whether a character is alphanumeric, as Rust's `char::is_alphanumeric` decides.
pub uninterp spec fn alphanumeric_char(c: char) -> bool;

/// Whether a character is whitespace, as Rust's `char::is_whitespace` decides.
pub uninterp spec fn whitespace_char(c: char) -> bool;

/// Relies on `char::is_alphanumeric`: the answer depends on the character alone.
#[verifier::external_body]
fn is_alphanumeric(c: char) -> (r: bool)
    ensures
        r == alphanumeric_char(c),
{
    c.is_alphanumeric()
}

/// Relies on `char::is_whitespace`: the answer depends on the character alone.
#[verifier::external_body]
pub(crate) fn is_whitespace(c: char) -> (r: bool)
    ensures
        r == whitespace_char(c),
{
    c.is_whitespace()
}

pub open spec fn kind_of(c: char) -> CharKind {
    if alphanumeric_char(c) {
        CharKind::Word
    } else if whitespace_char(c) {
        CharKind::Space
    } else {
        CharKind::Other
    }
}

pub open spec fn kinds_of(s: Seq<char>) -> Seq<CharKind> {
    s.map_values(|c: char| kind_of(c))
}

/// The number of characters of kind `kind` in the run that starts at `i`.
pub open spec fn run_len(k: Seq<CharKind>, i: int, kind: CharKind) -> nat
    decreases k.len() - i,
{
    if 0 <= i < k.len() && k[i] == kind {
        1 + run_len(k, i + 1, kind)
    } else {
        0
    }
}

/// Whether the two characters at `i` spell the keyword `a b`, not followed
/// by a word character: a keyword run into a word is part of the word.
pub open spec fn at_keyword2(s: Seq<char>, k: Seq<CharKind>, i: int, a: char, b: char) -> bool {
    &&& 0 <= i && i + 2 <= s.len() && s[i] == a && s[i + 1] == b
    &&& i + 2 >= k.len() || k[i + 2] != CharKind::Word
}

/// Whether the three characters at `i` spell the keyword `a b c`, not
/// followed by a word character.
pub open spec fn at_keyword3(s: Seq<char>, k: Seq<CharKind>, i: int, a: char, b: char, c: char) -> bool {
    &&& 0 <= i && i + 3 <= s.len() && s[i] == a && s[i + 1] == b && s[i + 2] == c
    &&& i + 3 >= k.len() || k[i + 3] != CharKind::Word
}

/// `primary := WORD | '(' expr ')'`, read at `i`: the number of characters
/// consumed and the query, or `None` where the text does not parse.
pub open spec fn primary_spec(s: Seq<char>, k: Seq<CharKind>, i: int) -> Option<(nat, Ast)>
    decreases s.len() - i, 0int,
{
    let j = i + run_len(k, i, CharKind::Space);
    if 0 <= j < s.len() && s[j] == '(' {
        match expr_spec(s, k, j + 1) {
            Some((c, q)) => {
                let m = j + 1 + c;
                let e = m + run_len(k, m, CharKind::Space);
                if e < s.len() && s[e] == ')' {
                    Some(((e + 1 - i) as nat, q))
                } else {
                    None
                }
            },
            None => None,
        }
    } else {
        let n = run_len(k, j, CharKind::Word);
        if n == 0 {
            None
        } else {
            Some(((j + n - i) as nat, Ast::Word(s.subrange(j, j + n))))
        }
    }
}

/// `or_expr := primary ('OR' or_expr)?`, read at `i`.
pub open spec fn or_spec(s: Seq<char>, k: Seq<CharKind>, i: int) -> Option<(nat, Ast)>
    decreases s.len() - i, 1int,
{
    match primary_spec(s, k, i) {
        Some((c, l)) => {
            let m = i + c;
            let e = m + run_len(k, m, CharKind::Space);
            if at_keyword2(s, k, e, 'O', 'R') {
                match or_spec(s, k, e + 2) {
                    Some((c2, r)) => Some(((e + 2 + c2 - i) as nat, Ast::Or(Box::new(l), Box::new(r)))),
                    None => None,
                }
            } else {
                Some(((e - i) as nat, l))
            }
        },
        None => None,
    }
}

/// `and_expr := or_expr ('AND' and_expr)?`, read at `i`.
pub open spec fn and_spec(s: Seq<char>, k: Seq<CharKind>, i: int) -> Option<(nat, Ast)>
    decreases s.len() - i, 2int,
{
    match or_spec(s, k, i) {
        Some((c, l)) => {
            let m = i + c;
            let e = m + run_len(k, m, CharKind::Space);
            if at_keyword3(s, k, e, 'A', 'N', 'D') {
                match and_spec(s, k, e + 3) {
                    Some((c2, r)) => Some(((e + 3 + c2 - i) as nat, Ast::And(Box::new(l), Box::new(r)))),
                    None => None,
                }
            } else {
                Some(((e - i) as nat, l))
            }
        },
        None => None,
    }
}

/// `expr := and_expr`, read at `i`.
pub open spec fn expr_spec(s: Seq<char>, k: Seq<CharKind>, i: int) -> Option<(nat, Ast)>
    decreases s.len() - i, 3int,
{
    and_spec(s, k, i)
}

/// The query that the whole text `s` parses to, where each character has
/// the kind given in `k`: an expression followed by whitespace alone.
pub open spec fn parse_spec(s: Seq<char>, k: Seq<CharKind>) -> Option<Ast> {
    match expr_spec(s, k, 0) {
        Some((c, q)) => if c + run_len(k, c as int, CharKind::Space) == s.len() {
            Some(q)
        } else {
            None
        },
        None => None,
    }
}


proof fn lemma_all_space(k: Seq<CharKind>, i: int)
    requires
        0 <= i <= k.len(),
        forall|j: int| 0 <= j < k.len() ==> k[j] == CharKind::Space,
    ensures
        run_len(k, i, CharKind::Space) == k.len() - i,
    decreases k.len() - i,
{
    if i < k.len() {
        lemma_all_space(k, i + 1);
    }
}

/// A query with no word, empty or whitespace alone, does not parse.
pub proof fn law_blank_query_rejected(s: Seq<char>, k: Seq<CharKind>)
    requires
        k.len() == s.len(),
        forall|j: int| 0 <= j < k.len() ==> k[j] == CharKind::Space,
    ensures
        parse_spec(s, k) is None,
{
    lemma_all_space(k, 0);
    assert(run_len(k, s.len() as int, CharKind::Word) == 0);
    assert(primary_spec(s, k, 0) is None);
    assert(or_spec(s, k, 0) is None);
    assert(and_spec(s, k, 0) is None);
    assert(expr_spec(s, k, 0) is None);
}

/// The characters in `[i, j)` are all of kind `kind`, where the run that
/// starts at `i` reaches `j`.
proof fn lemma_run_kinds(k: Seq<CharKind>, i: int, kind: CharKind, j: int)
    requires
        0 <= i <= j <= i + run_len(k, i, kind),
    ensures
        forall|x: int| i <= x < j ==> k[x] == kind,
        j <= k.len() || i == j,
    decreases j - i,
{
    if i < j {
        assert(0 <= i < k.len() && k[i] == kind);
        lemma_run_kinds(k, i + 1, kind, j);
    }
}

/// Text without `)` in which `(` is neither a word character nor space.
pub open spec fn unclosed_text(s: Seq<char>, k: Seq<CharKind>) -> bool {
    &&& k.len() == s.len()
    &&& forall|x: int| 0 <= x < s.len() ==> #[trigger] s[x] != ')'
    &&& forall|x: int| 0 <= x < s.len() && #[trigger] s[x] == '(' ==> k[x] == CharKind::Other
}

/// In text without `)`, no rule that succeeds at `i` consumes a `(`.
proof fn lemma_no_open_consumed(s: Seq<char>, k: Seq<CharKind>, i: int, rank: int)
    requires
        unclosed_text(s, k),
        0 <= i <= s.len(),
        0 <= rank <= 3,
    ensures
        ({
            let r = if rank == 0 {
                primary_spec(s, k, i)
            } else if rank == 1 {
                or_spec(s, k, i)
            } else if rank == 2 {
                and_spec(s, k, i)
            } else {
                expr_spec(s, k, i)
            };
            r matches Some((c, q)) ==> i + c <= s.len() && forall|x: int| i <= x < i + c ==> #[trigger] s[x] != '('
        }),
    decreases s.len() - i, rank,
{
    let sp = run_len(k, i, CharKind::Space);
    lemma_run_kinds(k, i, CharKind::Space, i + sp);
    let j = i + sp;
    if rank == 0 {
        if 0 <= j < s.len() && s[j] == '(' {
            lemma_no_open_consumed(s, k, j + 1, 3);
            match expr_spec(s, k, j + 1) {
                Some((c, q)) => {
                    let m = j + 1 + c;
                    lemma_run_kinds(k, m, CharKind::Space, m + run_len(k, m, CharKind::Space));
                },
                None => {},
            }
        } else {
            let n = run_len(k, j, CharKind::Word);
            lemma_run_kinds(k, j, CharKind::Word, j + n);
            assert forall|x: int| i <= x < j + n implies #[trigger] s[x] != '(' by {
                if s[x] == '(' {
                    assert(k[x] == CharKind::Other);
                }
            }
        }
    } else if rank == 1 {
        lemma_no_open_consumed(s, k, i, 0);
        match primary_spec(s, k, i) {
            Some((c, l)) => {
                let m = i + c;
                let e = m + run_len(k, m, CharKind::Space);
                lemma_run_kinds(k, m, CharKind::Space, e);
                assert forall|x: int| m <= x < e implies #[trigger] s[x] != '(' by {
                    if s[x] == '(' {
                        assert(k[x] == CharKind::Other);
                    }
                }
                if at_keyword2(s, k, e, 'O', 'R') {
                    lemma_no_open_consumed(s, k, e + 2, 1);
                }
            },
            None => {},
        }
    } else if rank == 2 {
        lemma_no_open_consumed(s, k, i, 1);
        match or_spec(s, k, i) {
            Some((c, l)) => {
                let m = i + c;
                let e = m + run_len(k, m, CharKind::Space);
                lemma_run_kinds(k, m, CharKind::Space, e);
                assert forall|x: int| m <= x < e implies #[trigger] s[x] != '(' by {
                    if s[x] == '(' {
                        assert(k[x] == CharKind::Other);
                    }
                }
                if at_keyword3(s, k, e, 'A', 'N', 'D') {
                    lemma_no_open_consumed(s, k, e + 3, 2);
                }
            },
            None => {},
        }
    } else {
        lemma_no_open_consumed(s, k, i, 2);
    }
}

/// A query with a `(` and no `)` anywhere does not parse, where `(` is
/// neither a word character nor space.
pub proof fn law_unmatched_open_rejected(s: Seq<char>, k: Seq<CharKind>, at: int)
    requires
        unclosed_text(s, k),
        0 <= at < s.len(),
        s[at] == '(',
    ensures
        parse_spec(s, k) is None,
{
    lemma_no_open_consumed(s, k, 0, 3);
    match expr_spec(s, k, 0) {
        Some((c, q)) => {
            let e = c as int + run_len(k, c as int, CharKind::Space);
            if e == s.len() {
                lemma_run_kinds(k, c as int, CharKind::Space, e);
                if at < c {
                    assert(s[at] != '(');
                } else {
                    assert(k[at] == CharKind::Space);
                }
            }
        },
        None => {},
    }
}

/// A parenthesis opened where a primary starts must be closed: the primary
/// parses only where the expression inside it parses and a `)` follows it,
/// past whitespace.
pub proof fn law_open_paren_needs_close(s: Seq<char>, k: Seq<CharKind>, i: int)
    requires
        0 <= i + run_len(k, i, CharKind::Space) < s.len(),
        s[i + run_len(k, i, CharKind::Space)] == '(',
    ensures
        ({
            let j = i + run_len(k, i, CharKind::Space);
            primary_spec(s, k, i) is Some ==> (expr_spec(s, k, j + 1) matches Some((c, q)) && {
                let m = j + 1 + c;
                let e = m + run_len(k, m, CharKind::Space);
                e < s.len() && s[e] == ')'
            })
        }),
{
}

/// Words joined by ` OR `.
pub open spec fn or_text(ws: Seq<Seq<char>>) -> Seq<char>
    decreases ws.len(),
{
    if ws.len() <= 1 {
        if ws.len() == 1 {
            ws[0]
        } else {
            Seq::empty()
        }
    } else {
        ws[0] + seq![' ', 'O', 'R', ' '] + or_text(ws.drop_first())
    }
}

/// The right-nested `Or` of the words, in order.
pub open spec fn or_chain(ws: Seq<Seq<char>>) -> Ast
    decreases ws.len(),
{
    if ws.len() <= 1 {
        Ast::Word(ws[0])
    } else {
        Ast::Or(Box::new(Ast::Word(ws[0])), Box::new(or_chain(ws.drop_first())))
    }
}

/// Non-empty words without spaces or opening parentheses.
pub open spec fn plain_words(ws: Seq<Seq<char>>) -> bool {
    forall|j: int| 0 <= j < ws.len() ==> (#[trigger] ws[j]).len() > 0
        && forall|x: int| 0 <= x < ws[j].len() ==> ws[j][x] != ' ' && ws[j][x] != '('
}

/// From `i` on, spaces are whitespace and every other character is a word
/// character.
pub open spec fn spaced_words_kinds(s: Seq<char>, k: Seq<CharKind>, i: int) -> bool {
    &&& k.len() == s.len()
    &&& forall|x: int| i <= x < s.len() ==> (#[trigger] k[x] == CharKind::Space <==> s[x] == ' ')
    &&& forall|x: int| i <= x < s.len() ==> (#[trigger] s[x] != ' ' ==> k[x] == CharKind::Word)
}

proof fn lemma_run_exact(k: Seq<CharKind>, i: int, n: int, kind: CharKind)
    requires
        0 <= i,
        0 <= n,
        i + n <= k.len(),
        forall|x: int| i <= x < i + n ==> k[x] == kind,
        i + n == k.len() || k[i + n] != kind,
    ensures
        run_len(k, i, kind) == n,
    decreases n,
{
    if n > 0 {
        lemma_run_exact(k, i + 1, n - 1, kind);
    }
}

/// A word, after an optional space, is read as a primary.
proof fn lemma_lead_word(s: Seq<char>, k: Seq<CharKind>, i: int, w: Seq<char>, lead: bool, tail: Seq<char>)
    requires
        plain_words(seq![w]),
        0 <= i <= s.len(),
        spaced_words_kinds(s, k, i),
        s.subrange(i, s.len() as int) == (if lead { seq![' '] } else { Seq::empty() }) + w + tail,
        tail.len() == 0 || tail[0] == ' ',
    ensures
        primary_spec(s, k, i) == Some((((if lead { 1int } else { 0 }) + w.len()) as nat, Ast::Word(w))),
        s.len() == i + (if lead { 1int } else { 0 }) + w.len() + tail.len(),
        forall|x: int| 0 <= x < tail.len() ==> s[i + (if lead { 1int } else { 0 }) + w.len() + x] == #[trigger] tail[x],
{
    let t = s.subrange(i, s.len() as int);
    let l: int = if lead { 1 } else { 0 };
    let j = i + l;
    let m = j + w.len();
    assert(seq![w][0] == w);
    let lw: Seq<char> = if lead { seq![' '] } else { Seq::empty() };
    assert(lw.len() == l);
    assert(t.len() == l + w.len() + tail.len());
    assert forall|x: int| 0 <= x < w.len() implies s[j + x] == #[trigger] w[x] by {
        assert(t[l + x] == (lw + w + tail)[l + x]);
        assert(s[i + (l + x)] == t[l + x]);
    }
    assert forall|x: int| 0 <= x < tail.len() implies s[m + x] == #[trigger] tail[x] by {
        assert(t[l + w.len() + x] == (lw + w + tail)[l + w.len() + x]);
        assert(s[i + (l + w.len() + x)] == t[l + w.len() + x]);
    }
    if lead {
        assert(t[0] == (lw + w + tail)[0]);
        assert(s[i + 0] == t[0]);
    }
    assert(s[j] == w[0]);
    assert(k[j] == CharKind::Word);
    lemma_run_exact(k, i, l, CharKind::Space);
    assert forall|x: int| j <= x < m implies k[x] == CharKind::Word by {
        assert(s[j + (x - j)] == w[x - j]);
    }
    if tail.len() > 0 {
        assert(s[m + 0] == tail[0]);
    }
    lemma_run_exact(k, j, w.len() as int, CharKind::Word);
    assert(s.subrange(j, m) =~= w);
}

proof fn lemma_or_chain(s: Seq<char>, k: Seq<CharKind>, i: int, ws: Seq<Seq<char>>, lead: bool)
    requires
        ws.len() >= 1,
        plain_words(ws),
        0 <= i <= s.len(),
        spaced_words_kinds(s, k, i),
        s.subrange(i, s.len() as int) == (if lead { seq![' '] } else { Seq::empty() }) + or_text(ws),
    ensures
        or_spec(s, k, i) == Some(((s.len() - i) as nat, or_chain(ws))),
    decreases ws.len(),
{
    let w = ws[0];
    let rest = or_text(ws.drop_first());
    let tail: Seq<char> = if ws.len() > 1 { seq![' ', 'O', 'R', ' '] + rest } else { Seq::empty() };
    let lw: Seq<char> = if lead { seq![' '] } else { Seq::empty() };
    assert(lw + or_text(ws) =~= lw + w + tail);
    assert(plain_words(seq![w])) by {
        assert(seq![w][0] == ws[0]);
    }
    lemma_lead_word(s, k, i, w, lead, tail);
    let m = i + (if lead { 1int } else { 0 }) + w.len();
    if ws.len() > 1 {
        assert(s[m + 0] == tail[0] && s[m + 1] == tail[1] && s[m + 2] == tail[2] && s[m + 3] == tail[3]);
        lemma_run_exact(k, m, 1, CharKind::Space);
        assert(at_keyword2(s, k, m + 1, 'O', 'R'));
        assert forall|x: int| 0 <= x < s.len() - (m + 3) implies #[trigger] s.subrange(m + 3, s.len() as int)[x] == (seq![' '] + rest)[x] by {
            assert(s[m + (3 + x)] == tail[3 + x]);
        }
        assert(s.subrange(m + 3, s.len() as int) =~= seq![' '] + rest);
        assert(plain_words(ws.drop_first())) by {
            assert forall|j: int| 0 <= j < ws.drop_first().len() implies #[trigger] ws.drop_first()[j] == ws[j + 1] by {}
        }
        lemma_or_chain(s, k, m + 3, ws.drop_first(), true);
    } else {
        lemma_run_exact(k, m, 0, CharKind::Space);
    }
}

/// A chain of words joined by ` OR ` parses as the right-nested `Or` of
/// the words.
pub proof fn law_or_chain(ws: Seq<Seq<char>>, k: Seq<CharKind>)
    requires
        ws.len() >= 1,
        plain_words(ws),
        spaced_words_kinds(or_text(ws), k, 0),
    ensures
        parse_spec(or_text(ws), k) == Some(or_chain(ws)),
{
    let s = or_text(ws);
    assert(s.subrange(0, s.len() as int) =~= Seq::<char>::empty() + s);
    lemma_or_chain(s, k, 0, ws, false);
    assert(run_len(k, s.len() as int, CharKind::Space) == 0);
    assert(!at_keyword3(s, k, s.len() as int, 'A', 'N', 'D'));
    assert(and_spec(s, k, 0) == Some((s.len() as nat, or_chain(ws))));
}

/// Words joined by ` AND `.
pub open spec fn and_text(ws: Seq<Seq<char>>) -> Seq<char>
    decreases ws.len(),
{
    if ws.len() <= 1 {
        if ws.len() == 1 {
            ws[0]
        } else {
            Seq::empty()
        }
    } else {
        ws[0] + seq![' ', 'A', 'N', 'D', ' '] + and_text(ws.drop_first())
    }
}

/// The right-nested `And` of the words, in order.
pub open spec fn and_chain(ws: Seq<Seq<char>>) -> Ast
    decreases ws.len(),
{
    if ws.len() <= 1 {
        Ast::Word(ws[0])
    } else {
        Ast::And(Box::new(Ast::Word(ws[0])), Box::new(and_chain(ws.drop_first())))
    }
}

proof fn lemma_and_chain(s: Seq<char>, k: Seq<CharKind>, i: int, ws: Seq<Seq<char>>, lead: bool)
    requires
        ws.len() >= 1,
        plain_words(ws),
        0 <= i <= s.len(),
        spaced_words_kinds(s, k, i),
        s.subrange(i, s.len() as int) == (if lead { seq![' '] } else { Seq::empty() }) + and_text(ws),
    ensures
        and_spec(s, k, i) == Some(((s.len() - i) as nat, and_chain(ws))),
    decreases ws.len(),
{
    let w = ws[0];
    let rest = and_text(ws.drop_first());
    let tail: Seq<char> = if ws.len() > 1 { seq![' ', 'A', 'N', 'D', ' '] + rest } else { Seq::empty() };
    let lw: Seq<char> = if lead { seq![' '] } else { Seq::empty() };
    assert(lw + and_text(ws) =~= lw + w + tail);
    assert(plain_words(seq![w])) by {
        assert(seq![w][0] == ws[0]);
    }
    lemma_lead_word(s, k, i, w, lead, tail);
    let m = i + (if lead { 1int } else { 0 }) + w.len();
    if ws.len() > 1 {
        assert(s[m + 0] == tail[0] && s[m + 1] == tail[1] && s[m + 2] == tail[2] && s[m + 3] == tail[3]
            && s[m + 4] == tail[4]);
        lemma_run_exact(k, m, 1, CharKind::Space);
        assert(!at_keyword2(s, k, m + 1, 'O', 'R'));
        assert(or_spec(s, k, i) == Some(((m + 1 - i) as nat, Ast::Word(w))));
        lemma_run_exact(k, m + 1, 0, CharKind::Space);
        assert(at_keyword3(s, k, m + 1, 'A', 'N', 'D'));
        assert forall|x: int| 0 <= x < s.len() - (m + 4) implies #[trigger] s.subrange(m + 4, s.len() as int)[x] == (seq![' '] + rest)[x] by {
            assert(s[m + (4 + x)] == tail[4 + x]);
        }
        assert(s.subrange(m + 4, s.len() as int) =~= seq![' '] + rest);
        assert(plain_words(ws.drop_first())) by {
            assert forall|j: int| 0 <= j < ws.drop_first().len() implies #[trigger] ws.drop_first()[j] == ws[j + 1] by {}
        }
        lemma_and_chain(s, k, m + 4, ws.drop_first(), true);
    } else {
        lemma_run_exact(k, m, 0, CharKind::Space);
        assert(or_spec(s, k, i) == Some(((m - i) as nat, Ast::Word(w))));
    }
}

/// A chain of words joined by ` AND ` parses as the right-nested `And` of
/// the words.
pub proof fn law_and_chain(ws: Seq<Seq<char>>, k: Seq<CharKind>)
    requires
        ws.len() >= 1,
        plain_words(ws),
        spaced_words_kinds(and_text(ws), k, 0),
    ensures
        parse_spec(and_text(ws), k) == Some(and_chain(ws)),
{
    let s = and_text(ws);
    assert(s.subrange(0, s.len() as int) =~= Seq::<char>::empty() + s);
    lemma_and_chain(s, k, 0, ws, false);
    assert(run_len(k, s.len() as int, CharKind::Space) == 0);
}

/// `w` stands at `a` as a maximal run of word characters.
pub open spec fn maximal_word_at(s: Seq<char>, k: Seq<CharKind>, a: int, w: Seq<char>) -> bool {
    &&& 0 <= a && a + w.len() <= s.len() && w.len() > 0
    &&& s.subrange(a, a + w.len()) == w
    &&& forall|x: int| a <= x < a + w.len() ==> #[trigger] k[x] == CharKind::Word
    &&& a == 0 || k[a - 1] != CharKind::Word
    &&& a + w.len() == s.len() || k[a + w.len()] != CharKind::Word
}

/// `w` stands somewhere in the text as a maximal run of word characters.
pub open spec fn word_is_maximal(s: Seq<char>, k: Seq<CharKind>, w: Seq<char>) -> bool {
    exists|a: int| #[trigger] maximal_word_at(s, k, a, w)
}

/// Every word of the query is a maximal run of word characters of the text.
pub open spec fn leaves_are_words(q: Ast, s: Seq<char>, k: Seq<CharKind>) -> bool
    decreases q,
{
    match q {
        Ast::Word(w) => word_is_maximal(s, k, w),
        Ast::And(l, r) => leaves_are_words(*l, s, k) && leaves_are_words(*r, s, k),
        Ast::Or(l, r) => leaves_are_words(*l, s, k) && leaves_are_words(*r, s, k),
    }
}

/// No word runs across position `i`.
pub open spec fn at_boundary(k: Seq<CharKind>, i: int) -> bool {
    i <= 0 || i >= k.len() || k[i - 1] != CharKind::Word || k[i] != CharKind::Word
}

/// Text in which `(` is not a word character.
pub open spec fn paren_not_word(s: Seq<char>, k: Seq<CharKind>) -> bool {
    &&& k.len() == s.len()
    &&& forall|x: int| 0 <= x < s.len() && #[trigger] s[x] == '(' ==> k[x] != CharKind::Word
}

proof fn lemma_run_stops(k: Seq<CharKind>, i: int, kind: CharKind)
    requires
        0 <= i,
    ensures
        i + run_len(k, i, kind) >= k.len() || k[i + run_len(k, i, kind)] != kind,
    decreases k.len() - i,
{
    if i < k.len() && k[i] == kind {
        lemma_run_stops(k, i + 1, kind);
    }
}

/// Where `primary` succeeds at a boundary, its query's words are maximal
/// runs of word characters.
proof fn lemma_primary_leaves(s: Seq<char>, k: Seq<CharKind>, i: int)
    requires
        paren_not_word(s, k),
        0 <= i <= s.len(),
        at_boundary(k, i),
    ensures
        primary_spec(s, k, i) matches Some((c, q)) ==> leaves_are_words(q, s, k),
    decreases s.len() - i, 0int,
{
    let sp = run_len(k, i, CharKind::Space);
    lemma_run_kinds(k, i, CharKind::Space, i + sp);
    let j = i + sp;
    if 0 <= j < s.len() && s[j] == '(' {
        assert(k[j] != CharKind::Word);
        lemma_expr_leaves(s, k, j + 1);
    } else {
        let n = run_len(k, j, CharKind::Word);
        if n > 0 {
            lemma_run_kinds(k, j, CharKind::Word, j + n);
            lemma_run_stops(k, j, CharKind::Word);
            let w = s.subrange(j, j + n);
            assert(w.len() == n);
            if sp > 0 {
                assert(k[j - 1] == CharKind::Space);
            } else {
                assert(j == i);
                assert(0 <= i < k.len() && k[i] == CharKind::Word);
                assert(i == 0 || k[i - 1] != CharKind::Word);
            }
            assert(j + n == s.len() || k[j + n] != CharKind::Word);
            assert(maximal_word_at(s, k, j, w));
            assert(word_is_maximal(s, k, w));
        }
    }
}

proof fn lemma_or_leaves(s: Seq<char>, k: Seq<CharKind>, i: int)
    requires
        paren_not_word(s, k),
        0 <= i <= s.len(),
        at_boundary(k, i),
    ensures
        or_spec(s, k, i) matches Some((c, q)) ==> leaves_are_words(q, s, k),
    decreases s.len() - i, 1int,
{
    lemma_primary_leaves(s, k, i);
    match primary_spec(s, k, i) {
        Some((c, l)) => {
            let m = i + c;
            let e = m + run_len(k, m, CharKind::Space);
            if at_keyword2(s, k, e, 'O', 'R') {
                lemma_or_leaves(s, k, e + 2);
            }
        },
        None => {},
    }
}

proof fn lemma_and_leaves(s: Seq<char>, k: Seq<CharKind>, i: int)
    requires
        paren_not_word(s, k),
        0 <= i <= s.len(),
        at_boundary(k, i),
    ensures
        and_spec(s, k, i) matches Some((c, q)) ==> leaves_are_words(q, s, k),
    decreases s.len() - i, 2int,
{
    lemma_or_leaves(s, k, i);
    match or_spec(s, k, i) {
        Some((c, l)) => {
            let m = i + c;
            let e = m + run_len(k, m, CharKind::Space);
            if at_keyword3(s, k, e, 'A', 'N', 'D') {
                lemma_and_leaves(s, k, e + 3);
            }
        },
        None => {},
    }
}

proof fn lemma_expr_leaves(s: Seq<char>, k: Seq<CharKind>, i: int)
    requires
        paren_not_word(s, k),
        0 <= i <= s.len(),
        at_boundary(k, i),
    ensures
        expr_spec(s, k, i) matches Some((c, q)) ==> leaves_are_words(q, s, k),
    decreases s.len() - i, 3int,
{
    lemma_and_leaves(s, k, i);
}

/// Every word of a parsed query is a maximal run of word characters of the
/// text, where `(` is not a word character: a keyword run into a word is
/// never split off it.
pub proof fn law_leaves_are_maximal_words(s: Seq<char>, k: Seq<CharKind>)
    requires
        paren_not_word(s, k),
    ensures
        parse_spec(s, k) matches Some(q) ==> leaves_are_words(q, s, k),
{
    lemma_expr_leaves(s, k, 0);
}

/// `r` is what the parse rule that `expect` describes gives at `i`: the end
/// position and the query on success, an error where the rule fails.
pub open spec fn outcome(r: Result<(usize, Query), ParseError>, i: int, expect: Option<(nat, Ast)>) -> bool {
    match r {
        Ok((p, q)) => i <= p && expect == Some(((p - i) as nat, q@)),
        Err(_) => expect is None,
    }
}

proof fn lemma_run_len_step(k: Seq<CharKind>, i: int, kind: CharKind)
    requires
        0 <= i < k.len(),
        k[i] == kind,
    ensures
        run_len(k, i, kind) == 1 + run_len(k, i + 1, kind),
{
}

/// The end of the run of characters of kind `kind` that starts at `i`.
fn run_end(k: &Vec<CharKind>, i: usize, kind: CharKind) -> (j: usize)
    requires
        i <= k.len(),
    ensures
        j == i + run_len(k@, i as int, kind),
        j <= k.len(),
{
    let mut j = i;
    while j < k.len() && k[j] == kind
        invariant
            i <= j <= k.len(),
            run_len(k@, i as int, kind) == (j - i) + run_len(k@, j as int, kind),
        decreases k.len() - j,
    {
        proof {
            lemma_run_len_step(k@, j as int, kind);
        }
        j = j + 1;
    }
    j
}

/// Whether the keyword `a b` stands at `i`, with no word character after it.
fn keyword2_at(s: &Vec<char>, k: &Vec<CharKind>, i: usize, a: char, b: char) -> (r: bool)
    requires
        k.len() == s.len(),
    ensures
        r == at_keyword2(s@, k@, i as int, a, b),
{
    i < s.len() && s.len() - i >= 2 && s[i] == a && s[i + 1] == b && (s.len() - i == 2 || k[i + 2] != CharKind::Word)
}

/// Whether the keyword `a b c` stands at `i`, with no word character after it.
fn keyword3_at(s: &Vec<char>, k: &Vec<CharKind>, i: usize, a: char, b: char, c: char) -> (r: bool)
    requires
        k.len() == s.len(),
    ensures
        r == at_keyword3(s@, k@, i as int, a, b, c),
{
    i < s.len() && s.len() - i >= 3 && s[i] == a && s[i + 1] == b && s[i + 2] == c
        && (s.len() - i == 3 || k[i + 3] != CharKind::Word)
}

/// Reads `primary` at `i`: the position after it and the query.
fn primary_expr(text: &str, s: &Vec<char>, k: &Vec<CharKind>, i: usize) -> (r: Result<(usize, Query), ParseError>)
    requires
        s@ == text@,
        k.len() == s.len(),
        i <= s.len(),
    ensures
        outcome(r, i as int, primary_spec(s@, k@, i as int)),
        r is Ok ==> r->Ok_0.0 <= s.len(),
    decreases s.len() - i, 0int,
{
    let j = run_end(k, i, CharKind::Space);
    if j < s.len() && s[j] == '(' {
        match expr(text, s, k, j + 1) {
            Ok((m, q)) => {
                let e = run_end(k, m, CharKind::Space);
                if e < s.len() && s[e] == ')' {
                    Ok((e + 1, q))
                } else {
                    Err(ParseError)
                }
            },
            Err(err) => Err(err),
        }
    } else {
        let e = run_end(k, j, CharKind::Word);
        if e == j {
            Err(ParseError)
        } else {
            let word = text.substring_char(j, e).to_owned();
            Ok((e, Query::Word(word)))
        }
    }
}

/// Reads `or_expr` at `i`: a primary, then `OR` and another `or_expr`
/// where they follow.
fn or_expr(text: &str, s: &Vec<char>, k: &Vec<CharKind>, i: usize) -> (r: Result<(usize, Query), ParseError>)
    requires
        s@ == text@,
        k.len() == s.len(),
        i <= s.len(),
    ensures
        outcome(r, i as int, or_spec(s@, k@, i as int)),
        r is Ok ==> r->Ok_0.0 <= s.len(),
    decreases s.len() - i, 1int,
{
    match primary_expr(text, s, k, i) {
        Ok((m, lhs)) => {
            let e = run_end(k, m, CharKind::Space);
            if keyword2_at(s, k, e, 'O', 'R') {
                match or_expr(text, s, k, e + 2) {
                    Ok((p, rhs)) => Ok((p, Query::Or(Box::new(lhs), Box::new(rhs)))),
                    Err(err) => Err(err),
                }
            } else {
                Ok((e, lhs))
            }
        },
        Err(err) => Err(err),
    }
}

/// Reads `and_expr` at `i`: an `or_expr`, then `AND` and another
/// `and_expr` where they follow.
fn and_expr(text: &str, s: &Vec<char>, k: &Vec<CharKind>, i: usize) -> (r: Result<(usize, Query), ParseError>)
    requires
        s@ == text@,
        k.len() == s.len(),
        i <= s.len(),
    ensures
        outcome(r, i as int, and_spec(s@, k@, i as int)),
        r is Ok ==> r->Ok_0.0 <= s.len(),
    decreases s.len() - i, 2int,
{
    match or_expr(text, s, k, i) {
        Ok((m, lhs)) => {
            let e = run_end(k, m, CharKind::Space);
            if keyword3_at(s, k, e, 'A', 'N', 'D') {
                match and_expr(text, s, k, e + 3) {
                    Ok((p, rhs)) => Ok((p, Query::And(Box::new(lhs), Box::new(rhs)))),
                    Err(err) => Err(err),
                }
            } else {
                Ok((e, lhs))
            }
        },
        Err(err) => Err(err),
    }
}

/// Reads `expr` at `i`.
fn expr(text: &str, s: &Vec<char>, k: &Vec<CharKind>, i: usize) -> (r: Result<(usize, Query), ParseError>)
    requires
        s@ == text@,
        k.len() == s.len(),
        i <= s.len(),
    ensures
        outcome(r, i as int, expr_spec(s@, k@, i as int)),
        r is Ok ==> r->Ok_0.0 <= s.len(),
    decreases s.len() - i, 3int,
{
    and_expr(text, s, k, i)
}

/// Parses `text` where the kind of each character is given in `kinds`.
pub fn parse_classified(text: &str, kinds: &Vec<CharKind>) -> (r: Result<Query, ParseError>)
    requires
        kinds.len() == text@.len(),
    ensures
        match r {
            Ok(q) => parse_spec(text@, kinds@) == Some(q@),
            Err(_) => parse_spec(text@, kinds@) is None,
        },
{
    let s = chars_of(text);
    match expr(text, &s, kinds, 0) {
        Ok((p, q)) => {
            let e = run_end(kinds, p, CharKind::Space);
            if e == s.len() {
                Ok(q)
            } else {
                Err(ParseError)
            }
        },
        Err(err) => Err(err),
    }
}

/// The kind of each character of `text`.
fn classify(text: &str) -> (r: Vec<CharKind>)
    ensures
        r@ == kinds_of(text@),
{
    let s = chars_of(text);
    let mut kinds: Vec<CharKind> = Vec::new();
    let mut i: usize = 0;
    while i < s.len()
        invariant
            s@ == text@,
            i <= s.len(),
            kinds@ == kinds_of(text@).subrange(0, i as int),
        decreases s.len() - i,
    {
        let c = s[i];
        let kind = if is_alphanumeric(c) {
            CharKind::Word
        } else if is_whitespace(c) {
            CharKind::Space
        } else {
            CharKind::Other
        };
        kinds.push(kind);
        i = i + 1;
    }
    proof {
        assert(kinds@ =~= kinds_of(text@));
    }
    kinds
}

/// Parses a query. Words are runs of alphanumeric characters; whitespace
/// between tokens is skipped; an empty word, an unmatched parenthesis and
/// text left over after a complete query are errors.
pub fn parse(input: &str) -> (r: Result<Query, ParseError>)
    ensures
        match r {
            Ok(q) => parse_spec(input@, kinds_of(input@)) == Some(q@),
            Err(_) => parse_spec(input@, kinds_of(input@)) is None,
        },
{
    let kinds = classify(input);
    parse_classified(input, &kinds)
}

} // verus!
