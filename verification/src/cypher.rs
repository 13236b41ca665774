//! The logic of the `cypher!` macro.
//!
//! The macro receives the tokens of a Cypher query written inline in Rust.
//! Runs of plain tokens become text: each run is written out with the spacing
//! of its source (a line break where a token starts on a later line than the
//! previous one ended, a single space where it starts further right on the
//! same line, nothing where the two touch) and followed by a newline.
//! `if <condition> { ... }` makes the tokens inside the braces conditional on
//! a Rust boolean expression.  The result is a template that is rendered once
//! the conditions are known.

use vstd::prelude::*;

use crate::shasum::push_char;

verus! {

/// A position in the source: a line (counted from 1) and a column.
#[derive(Clone, Copy, Debug, PartialEq, Eq)]
pub struct LineColumn {
    pub line: usize,
    pub column: usize,
}

/// The delimiter around a group of tokens.
#[derive(Clone, Copy, Debug, PartialEq, Eq)]
pub enum Delimiter {
    Parenthesis,
    Brace,
    Bracket,
    Invisible,
}

/// What kind of token a token is; a group carries the tokens inside it.
#[derive(Debug, PartialEq)]
pub enum TokenKind {
    Ident,
    Punct(char),
    Literal,
    Group(Delimiter, Vec<Token>),
}

/// One token tree of the macro input: its kind, the text it prints as, and
/// the positions where it starts and ends.
#[derive(Debug, PartialEq)]
pub struct Token {
    pub kind: TokenKind,
    pub text: String,
    pub start: LineColumn,
    pub end: LineColumn,
}

/// Why a macro input is rejected.
#[derive(Clone, Copy, Debug, PartialEq, Eq, Structural)]
pub enum CypherError {
    /// The tokens between `if` and its block are not a Rust expression.
    ConditionNotExpression,
    /// An `if` is not followed by a `{ ... }` block.
    MissingBlock,
}

/// A piece of a template: literal text, or a block of pieces that is only
/// included when its condition holds.
#[derive(Debug, PartialEq)]
pub enum Fragment {
    Text(String),
    When { condition: String, body: Vec<Fragment> },
}

/// The mathematical content of a [`Fragment`].
pub enum FragmentModel {
    Text(Seq<char>),
    When(Seq<char>, Seq<FragmentModel>),
}

/// A query with conditional parts, as produced from the macro input.
#[derive(Debug, PartialEq)]
pub struct CypherTemplate {
    pub parts: Vec<Fragment>,
}

/// Calls `syn::parse_str::<syn::Expr>`, which tells whether `syn` parses the
/// whole text as an expression.  The answer also depends on how the text is
/// lexed (the lexer in use and the edition of the invoking crate), so the
/// contract claims only what holds in every case: an empty text is not an
/// expression, since the expression parser fails at the end of its input.
#[verifier::external_body]
fn parses_as_expression(text: &str) -> (b: bool)
    ensures
        text@.len() == 0 ==> !b,
{
    syn::parse_str::<syn::Expr>(text).is_ok()
}

/// What separates two neighbouring tokens in the text: a line break when the
/// second starts on a later line than the first ended, a space when it starts
/// further right on the same line, and nothing otherwise.
pub open spec fn separator(prev_end: LineColumn, start: LineColumn) -> Seq<char> {
    if start.line > prev_end.line {
        seq!['\n']
    } else if start.column > prev_end.column {
        seq![' ']
    } else {
        Seq::empty()
    }
}

/// The text a token contributes.  In a condition (`grouped`), a group
/// without delimiters, such as one holding a macro's `$e:expr`, is put in
/// parentheses so that it stays one operand; elsewhere every token gives its
/// own text.
pub open spec fn token_text(t: Token, grouped: bool) -> Seq<char> {
    if grouped && t.kind matches TokenKind::Group(Delimiter::Invisible, _) {
        seq!['('] + t.text@ + seq![')']
    } else {
        t.text@
    }
}

/// The text of a run of tokens: their texts, each joined to the one before
/// by the [`separator`] of their positions.
pub open spec fn fragment_text(ts: Seq<Token>, grouped: bool) -> Seq<char>
    decreases ts.len(),
{
    if ts.len() == 0 {
        Seq::empty()
    } else if ts.len() == 1 {
        token_text(ts[0], grouped)
    } else {
        fragment_text(ts.drop_last(), grouped) + separator(ts[ts.len() - 2].end, ts.last().start)
            + token_text(ts.last(), grouped)
    }
}

/// Whether a token is the identifier `if`.
pub open spec fn is_if(t: Token) -> bool {
    t.kind is Ident && t.text@ == seq!['i', 'f']
}

/// Whether a token is a group in braces.
pub open spec fn is_brace_group(t: Token) -> bool {
    t.kind matches TokenKind::Group(Delimiter::Brace, _)
}

/// Where the condition that starts at `i` ends: the index of the first brace
/// group met at nesting depth zero, or the end of the tokens.  Opening and
/// closing bracket punctuation moves the depth up and down (never below zero).
pub open spec fn condition_end(ts: Seq<Token>, i: int, nest: nat) -> int
    decreases ts.len() - i,
{
    if i < 0 || i >= ts.len() {
        ts.len() as int
    } else {
        match ts[i].kind {
            TokenKind::Group(Delimiter::Brace, _) => if nest == 0 {
                i
            } else {
                condition_end(ts, i + 1, nest)
            },
            TokenKind::Punct(c) => if c == '(' || c == '[' {
                condition_end(ts, i + 1, nest + 1)
            } else if c == ')' || c == ']' {
                condition_end(ts, i + 1, if nest == 0 { 0 } else { (nest - 1) as nat })
            } else {
                condition_end(ts, i + 1, nest)
            },
            _ => condition_end(ts, i + 1, nest),
        }
    }
}

/// The text piece made of the tokens `start..end`, if there are any: their
/// text followed by a newline.
pub open spec fn flushed(ts: Seq<Token>, start: int, end: int) -> Seq<FragmentModel> {
    if start < end {
        seq![FragmentModel::Text(fragment_text(ts.subrange(start, end), false).push('\n'))]
    } else {
        Seq::empty()
    }
}

/// Flushing adds nothing when no tokens are waiting, so flushing twice
/// adds what flushing once does: after a flush the waiting range starts where
/// it ended.
pub proof fn lemma_flush_empty(ts: Seq<Token>, start: int, end: int)
    ensures
        start >= end ==> flushed(ts, start, end) == Seq::<FragmentModel>::empty(),
        flushed(ts, start, end) + flushed(ts, end, end) == flushed(ts, start, end),
{
    assert(flushed(ts, start, end) + Seq::<FragmentModel>::empty() =~= flushed(ts, start, end));
}

pub proof fn lemma_condition_end_bounds(ts: Seq<Token>, i: int, nest: nat)
    requires
        0 <= i <= ts.len(),
    ensures
        i <= condition_end(ts, i, nest) <= ts.len(),
        condition_end(ts, i, nest) < ts.len() ==> is_brace_group(ts[condition_end(ts, i, nest)]),
    decreases ts.len() - i,
{
    if i < ts.len() {
        match ts[i].kind {
            TokenKind::Group(Delimiter::Brace, _) => if nest != 0 {
                lemma_condition_end_bounds(ts, i + 1, nest);
            },
            TokenKind::Punct(c) => if c == '(' || c == '[' {
                lemma_condition_end_bounds(ts, i + 1, nest + 1);
            } else if c == ')' || c == ']' {
                lemma_condition_end_bounds(ts, i + 1, if nest == 0 { 0 } else { (nest - 1) as nat });
            } else {
                lemma_condition_end_bounds(ts, i + 1, nest);
            },
            _ => lemma_condition_end_bounds(ts, i + 1, nest),
        }
    }
}

/// Whether a condition's text is taken as a Rust expression: when it is
/// among the accepted texts.
pub open spec fn condition_accepted(accepted: Seq<Seq<char>>, text: Seq<char>) -> bool {
    accepted.contains(text)
}

/// The template pieces for the tokens from `i` on, where the plain tokens
/// `start..i` are still waiting to be written out; or the first error met.
pub open spec fn expand(ts: Seq<Token>, start: int, i: int, accepted: Seq<Seq<char>>) -> Result<Seq<FragmentModel>, CypherError>
    decreases ts, ts.len() - i,
{
    if i < 0 || i >= ts.len() {
        Ok(flushed(ts, start, ts.len() as int))
    } else if is_if(ts[i]) {
        let j = condition_end(ts, i + 1, 0);
        let cond = fragment_text(ts.subrange(i + 1, j), true);
        if !condition_accepted(accepted, cond) {
            Err(CypherError::ConditionNotExpression)
        } else if j >= ts.len() {
            Err(CypherError::MissingBlock)
        } else {
            proof {
                lemma_condition_end_bounds(ts, i + 1, 0);
            }
            match ts[j].kind {
                TokenKind::Group(Delimiter::Brace, inner) => {
                    proof {
                        assert(decreases_to!(ts => ts[j]));
                    }
                    match expand(inner@, 0, 0, accepted) {
                        Err(e) => Err(e),
                        Ok(body) => match expand(ts, j + 1, j + 1, accepted) {
                            Err(e) => Err(e),
                            Ok(rest) => Ok(
                                flushed(ts, start, i) + seq![FragmentModel::When(cond, body)] + rest,
                            ),
                        },
                    }
                },
                _ => Err(CypherError::MissingBlock),
            }
        }
    } else {
        expand(ts, start, i + 1, accepted)
    }
}

/// The mathematical content of a fragment.
pub open spec fn fragment_model(f: Fragment) -> FragmentModel
    decreases f,
{
    match f {
        Fragment::Text(s) => FragmentModel::Text(s@),
        Fragment::When { condition, body } => FragmentModel::When(
            condition@,
            fragments_model(body@),
        ),
    }
}

/// The mathematical content of a sequence of fragments.
pub open spec fn fragments_model(fs: Seq<Fragment>) -> Seq<FragmentModel>
    decreases fs,
{
    if fs.len() == 0 {
        Seq::empty()
    } else {
        fragments_model(fs.drop_last()).push(fragment_model(fs.last()))
    }
}

/// How an exec result of the generator reads in the model.
pub open spec fn result_model(r: Result<Vec<Fragment>, CypherError>) -> Result<Seq<FragmentModel>, CypherError> {
    match r {
        Ok(fs) => Ok(fragments_model(fs@)),
        Err(e) => Err(e),
    }
}

/// `p` put in front of a successful result; errors stay as they are.
pub open spec fn prefixed(p: Seq<FragmentModel>, r: Result<Seq<FragmentModel>, CypherError>) -> Result<Seq<FragmentModel>, CypherError> {
    match r {
        Ok(rest) => Ok(p + rest),
        Err(e) => Err(e),
    }
}

impl View for CypherTemplate {
    type V = Seq<FragmentModel>;

    open spec fn view(&self) -> Seq<FragmentModel> {
        fragments_model(self.parts@)
    }
}

/// Strings as character sequences, in order.
pub open spec fn texts_view(enabled: Seq<String>) -> Seq<Seq<char>> {
    enabled.map_values(|s: String| s@)
}

/// The query that a sequence of pieces stands for, given the conditions that
/// hold: texts are written out, and a conditional block is written out only
/// when its condition is among them.
pub open spec fn render_model(ms: Seq<FragmentModel>, enabled: Seq<Seq<char>>) -> Seq<char>
    decreases ms,
{
    if ms.len() == 0 {
        Seq::empty()
    } else {
        render_model(ms.drop_last(), enabled) + render_piece(ms.last(), enabled)
    }
}

/// The text that one piece stands for, given the conditions that hold.
pub open spec fn render_piece(m: FragmentModel, enabled: Seq<Seq<char>>) -> Seq<char>
    decreases m,
{
    match m {
        FragmentModel::Text(s) => s,
        FragmentModel::When(c, body) => if enabled.contains(c) {
            render_model(body, enabled)
        } else {
            Seq::empty()
        },
    }
}

/// The text of the tokens `start..end`, each joined to the one before by the
/// separator that their positions call for.
fn fragment_to_literal(tokens: &Vec<Token>, start: usize, end: usize, grouped: bool) -> (s: String)
    requires
        start <= end <= tokens@.len(),
    ensures
        s@ == fragment_text(tokens@.subrange(start as int, end as int), grouped),
{
    let mut s = String::new();
    let mut k = start;
    assert(tokens@.subrange(start as int, start as int) =~= Seq::<Token>::empty());
    while k < end
        invariant
            start <= k <= end <= tokens@.len(),
            s@ == fragment_text(tokens@.subrange(start as int, k as int), grouped),
        decreases end - k,
    {
        let ghost prev = tokens@.subrange(start as int, k as int);
        let ghost next = tokens@.subrange(start as int, k + 1);
        assert(next.drop_last() =~= prev);
        if k > start {
            let prev_end = tokens[k - 1].end;
            let cur_start = tokens[k].start;
            if cur_start.line > prev_end.line {
                push_char(&mut s, '\n');
            } else if cur_start.column > prev_end.column {
                push_char(&mut s, ' ');
            }
            assert(next[next.len() - 2] == tokens@[k - 1]);
        }
        let invisible = match &tokens[k].kind {
            TokenKind::Group(Delimiter::Invisible, _) => true,
            _ => false,
        };
        if grouped && invisible {
            push_char(&mut s, '(');
            s.append(tokens[k].text.as_str());
            push_char(&mut s, ')');
        } else {
            s.append(tokens[k].text.as_str());
        }
        assert(s@ =~= fragment_text(next, grouped));
        k = k + 1;
    }
    s
}

/// Collects the condition that starts at `i`: the tokens up to the first
/// brace group at nesting depth zero.  Gives where the condition ends and,
/// when its text is a Rust expression, that text.
fn parse_until_brace(tokens: &Vec<Token>, i: usize, accepted: &Vec<String>) -> (res: (usize, Option<String>))
    requires
        i <= tokens@.len(),
    ensures
        res.0 == condition_end(tokens@, i as int, 0),
        res.1 is Some <==> condition_accepted(texts_view(accepted@), fragment_text(tokens@.subrange(i as int, res.0 as int), true)),
        res.1 matches Some(text) ==> text@ == fragment_text(tokens@.subrange(i as int, res.0 as int), true),
{
    let n = tokens.len();
    let mut k = i;
    let mut nest: usize = 0;
    while k < n
        invariant
            i <= k <= n,
            n == tokens@.len(),
            nest <= k - i,
            condition_end(tokens@, i as int, 0) == condition_end(tokens@, k as int, nest as nat),
        ensures
            i <= k <= n,
            condition_end(tokens@, i as int, 0) == k,
        decreases n - k,
    {
        match &tokens[k].kind {
            TokenKind::Group(Delimiter::Brace, _) => {
                if nest == 0 {
                    break;
                }
            },
            TokenKind::Punct(c) => {
                if *c == '(' || *c == '[' {
                    nest = nest + 1;
                } else if *c == ')' || *c == ']' {
                    nest = nest.saturating_sub(1);
                }
            },
            _ => {},
        }
        k = k + 1;
    }
    let text = fragment_to_literal(tokens, i, k, true);
    if is_enabled(accepted, &text) {
        (k, Some(text))
    } else {
        (k, None)
    }
}

/// Appends the text piece for the waiting tokens `start..end`, if there are
/// any.
fn flush_buf(tokens: &Vec<Token>, start: usize, end: usize, out: &mut Vec<Fragment>)
    requires
        start <= end <= tokens@.len(),
    ensures
        fragments_model(final(out)@) == fragments_model(old(out)@) + flushed(tokens@, start as int, end as int),
{
    if start >= end {
        assert(fragments_model(out@) + flushed(tokens@, start as int, end as int) =~= fragments_model(out@));
        return;
    }
    let mut literal = fragment_to_literal(tokens, start, end, false);
    push_char(&mut literal, '\n');
    let ghost before = out@;
    let ghost text = literal@;
    out.push(Fragment::Text(literal));
    assert(out@.drop_last() =~= before);
    assert(fragment_model(out@.last()) == FragmentModel::Text(text));
    assert(fragments_model(out@) == fragments_model(before).push(FragmentModel::Text(text)));
    assert(fragments_model(out@) =~= fragments_model(before) + flushed(tokens@, start as int, end as int));
}

/// The tokens inside the group at `j`, when there is one in braces.
fn take_balanced_group(tokens: &Vec<Token>, j: usize) -> (res: Option<&Vec<Token>>)
    ensures
        res is Some <==> (j < tokens@.len() && is_brace_group(tokens@[j as int])),
        res matches Some(inner) ==> tokens@[j as int].kind == TokenKind::Group(Delimiter::Brace, *inner),
{
    if j < tokens.len() {
        match &tokens[j].kind {
            TokenKind::Group(Delimiter::Brace, inner) => Some(inner),
            _ => None,
        }
    } else {
        None
    }
}

fn is_if_token(t: &Token) -> (b: bool)
    ensures
        b == is_if(*t),
{
    match t.kind {
        TokenKind::Ident => {
            let text = t.text.as_str();
            if text.unicode_len() == 2 && text.get_char(0) == 'i' && text.get_char(1) == 'f' {
                assert(text@ =~= seq!['i', 'f']);
                true
            } else {
                false
            }
        },
        _ => false,
    }
}

/// Turns macro input tokens into template pieces.
fn generate_body(tokens: &Vec<Token>, accepted_texts: &Vec<String>) -> (res: Result<Vec<Fragment>, CypherError>)
    ensures
        result_model(res) == expand(tokens@, 0, 0, texts_view(accepted_texts@)),
    decreases tokens@,
{
    let ghost accepted = texts_view(accepted_texts@);
    let n = tokens.len();
    let mut out: Vec<Fragment> = Vec::new();
    let mut buf_start: usize = 0;
    let mut i: usize = 0;
    assert(prefixed(fragments_model(out@), expand(tokens@, 0, 0, accepted)) == expand(tokens@, 0, 0, accepted)) by {
        match expand(tokens@, 0, 0, accepted) {
            Ok(r) => assert(Seq::<FragmentModel>::empty() + r =~= r),
            Err(_) => {},
        }
    }
    while i < n
        invariant
            n == tokens@.len(),
            accepted == texts_view(accepted_texts@),
            buf_start <= i <= n,
            expand(tokens@, 0, 0, accepted) == prefixed(fragments_model(out@), expand(tokens@, buf_start as int, i as int, accepted)),
        decreases n - i,
    {
        if is_if_token(&tokens[i]) {
            proof {
                lemma_condition_end_bounds(tokens@, i + 1, 0);
            }
            let (j, condition) = parse_until_brace(tokens, i + 1, accepted_texts);
            let condition = match condition {
                Some(c) => c,
                None => return Err(CypherError::ConditionNotExpression),
            };
            let inner = match take_balanced_group(tokens, j) {
                Some(inner) => inner,
                None => return Err(CypherError::MissingBlock),
            };
            proof {
                assert(decreases_to!(tokens@ => tokens@[j as int]));
                assert(decreases_to!(tokens@[j as int] => tokens@[j as int].kind));
                assert(decreases_to!(tokens@[j as int].kind => *inner));
                assert(decreases_to!(*inner => inner@));
            }
            let body = match generate_body(inner, accepted_texts) {
                Ok(body) => body,
                Err(e) => return Err(e),
            };
            let ghost before = out@;
            flush_buf(tokens, buf_start, i, &mut out);
            let ghost flushed_out = out@;
            out.push(Fragment::When { condition, body });
            proof {
                assert(out@.drop_last() =~= flushed_out);
                let ghost rest = expand(tokens@, j + 1, j + 1, accepted);
                match rest {
                    Ok(r) => {
                        assert(fragments_model(before) + (flushed(tokens@, buf_start as int, i as int)
                            + seq![fragment_model(out@.last())] + r) =~= fragments_model(out@) + r);
                    },
                    Err(_) => {},
                }
            }
            i = j + 1;
            buf_start = i;
        } else {
            i = i + 1;
        }
    }
    flush_buf(tokens, buf_start, n, &mut out);
    Ok(out)
}

/// The texts of the conditions that the generator asks about, in the order
/// it meets them, walking the tokens from `i` on and taking every condition
/// as accepted: each `if` gives the text of its condition, then come the
/// texts inside its block and then those after the block.  The walk stops at
/// an `if` without a block.
pub open spec fn condition_texts(ts: Seq<Token>, i: int) -> Seq<Seq<char>>
    decreases ts, ts.len() - i,
{
    if i < 0 || i >= ts.len() {
        Seq::empty()
    } else if is_if(ts[i]) {
        let j = condition_end(ts, i + 1, 0);
        let cond = fragment_text(ts.subrange(i + 1, j), true);
        if j >= ts.len() {
            seq![cond]
        } else {
            proof {
                lemma_condition_end_bounds(ts, i + 1, 0);
            }
            match ts[j].kind {
                TokenKind::Group(Delimiter::Brace, inner) => {
                    proof {
                        assert(decreases_to!(ts => ts[j]));
                    }
                    seq![cond] + condition_texts(inner@, 0) + condition_texts(ts, j + 1)
                },
                _ => seq![cond],
            }
        }
    } else {
        condition_texts(ts, i + 1)
    }
}

/// Appends the texts of the conditions the generator may ask about.
fn condition_candidates(tokens: &Vec<Token>, out: &mut Vec<String>)
    ensures
        texts_view(final(out)@) == texts_view(old(out)@) + condition_texts(tokens@, 0),
    decreases tokens@,
{
    let ghost start = texts_view(out@);
    let n = tokens.len();
    let mut i: usize = 0;
    while i < n
        invariant
            n == tokens@.len(),
            i <= n,
            start == texts_view(old(out)@),
            texts_view(out@) + condition_texts(tokens@, i as int) == start + condition_texts(tokens@, 0),
        decreases n - i,
    {
        if is_if_token(&tokens[i]) {
            proof {
                lemma_condition_end_bounds(tokens@, i + 1, 0);
            }
            let no_texts: Vec<String> = Vec::new();
            let (j, _) = parse_until_brace(tokens, i + 1, &no_texts);
            let text = fragment_to_literal(tokens, i + 1, j, true);
            let ghost cond = text@;
            let ghost before = texts_view(out@);
            out.push(text);
            assert(texts_view(out@) =~= before.push(cond));
            if j >= n {
                assert(condition_texts(tokens@, i as int) == seq![cond]);
                assert(before + condition_texts(tokens@, i as int) =~= texts_view(out@));
                return;
            }
            match &tokens[j].kind {
                TokenKind::Group(Delimiter::Brace, inner) => {
                    proof {
                        assert(decreases_to!(tokens@ => tokens@[j as int]));
                        assert(decreases_to!(tokens@[j as int] => tokens@[j as int].kind));
                        assert(decreases_to!(tokens@[j as int].kind => *inner));
                        assert(decreases_to!(*inner => inner@));
                    }
                    let ghost mid = texts_view(out@);
                    condition_candidates(inner, out);
                    assert(before + condition_texts(tokens@, i as int) =~= texts_view(out@) + condition_texts(tokens@, j + 1));
                },
                _ => {
                    assert(before + condition_texts(tokens@, i as int) =~= texts_view(out@));
                    return;
                },
            }
            i = j + 1;
        } else {
            i = i + 1;
        }
    }
    assert(texts_view(out@) + condition_texts(tokens@, n as int) =~= texts_view(out@));
}

/// Turns the tokens of a `cypher!` invocation into a template; fails where
/// the macro rejects its input.  A condition must parse as a Rust expression;
/// `syn` decides that in this run for each of the [`condition_texts`], and
/// the texts it accepted come back with the result.  None of them is empty,
/// so an empty condition is rejected.
pub fn generate(tokens: &Vec<Token>) -> (res: (Result<CypherTemplate, CypherError>, Ghost<Seq<Seq<char>>>))
    ensures
        forall|k: int| 0 <= k < res.1@.len() ==> (#[trigger] res.1@[k]).len() > 0,
        forall|k: int| 0 <= k < res.1@.len() ==> condition_texts(tokens@, 0).contains(#[trigger] res.1@[k]),
        match (res.0, expand(tokens@, 0, 0, res.1@)) {
            (Ok(t), Ok(m)) => t@ == m,
            (Err(e), Err(f)) => e == f,
            _ => false,
        },
{
    let mut candidates: Vec<String> = Vec::new();
    condition_candidates(tokens, &mut candidates);
    let ghost all = condition_texts(tokens@, 0);
    assert(texts_view(candidates@) =~= all);
    let mut accepted: Vec<String> = Vec::new();
    for k in 0..candidates.len()
        invariant
            texts_view(candidates@) == all,
            forall|m: int| 0 <= m < accepted@.len() ==> (#[trigger] accepted@[m])@.len() > 0,
            forall|m: int| 0 <= m < accepted@.len() ==> all.contains((#[trigger] accepted@[m])@),
    {
        if parses_as_expression(candidates[k].as_str()) {
            let text = candidates[k].clone();
            assert(all[k as int] == text@);
            accepted.push(text);
        }
    }
    let ghost texts = texts_view(accepted@);
    let res = generate_with_conditions(tokens, &accepted);
    assert forall|k: int| 0 <= k < texts.len() implies (#[trigger] texts[k]).len() > 0 && all.contains(texts[k]) by {
        assert(texts[k] == accepted@[k]@);
    }
    (res, Ghost(texts))
}

/// Turns the tokens of a `cypher!` invocation into a template, for a caller
/// that has decided which condition texts are Rust expressions: those in
/// `expressions` are, and no others.
pub fn generate_with_conditions(tokens: &Vec<Token>, expressions: &Vec<String>) -> (res: Result<CypherTemplate, CypherError>)
    ensures
        match (res, expand(tokens@, 0, 0, texts_view(expressions@))) {
            (Ok(t), Ok(m)) => t@ == m,
            (Err(e), Err(f)) => e == f,
            _ => false,
        },
{
    match generate_body(tokens, expressions) {
        Ok(parts) => Ok(CypherTemplate { parts }),
        Err(e) => Err(e),
    }
}

fn is_enabled(enabled: &Vec<String>, condition: &String) -> (b: bool)
    ensures
        b == texts_view(enabled@).contains(condition@),
{
    let mut k: usize = 0;
    while k < enabled.len()
        invariant
            k <= enabled@.len(),
            forall|m: int| 0 <= m < k ==> enabled@[m]@ != condition@,
        decreases enabled@.len() - k,
    {
        if enabled[k] == *condition {
            assert(texts_view(enabled@)[k as int] == condition@);
            return true;
        }
        k = k + 1;
    }
    proof {
        if texts_view(enabled@).contains(condition@) {
            let m = choose|m: int| 0 <= m < texts_view(enabled@).len() && texts_view(enabled@)[m] == condition@;
            assert(enabled@[m]@ == condition@);
        }
    }
    false
}

fn render_parts(parts: &Vec<Fragment>, enabled: &Vec<String>, out: &mut String)
    ensures
        final(out)@ == old(out)@ + render_model(fragments_model(parts@), texts_view(enabled@)),
    decreases parts@,
{
    let ghost en = texts_view(enabled@);
    let ghost start = out@;
    let n = parts.len();
    assert(parts@.take(0) =~= Seq::<Fragment>::empty());
    assert(out@ =~= start + render_model(fragments_model(parts@.take(0)), en));
    for k in 0..n
        invariant
            n == parts@.len(),
            en == texts_view(enabled@),
            out@ == start + render_model(fragments_model(parts@.take(k as int)), en),
    {
        let ghost before = out@;
        assert(parts@.take(k + 1).drop_last() =~= parts@.take(k as int));
        assert(fragments_model(parts@.take(k + 1)) == fragments_model(parts@.take(k as int)).push(
            fragment_model(parts@[k as int]),
        ));
        assert(fragments_model(parts@.take(k + 1)).drop_last() =~= fragments_model(parts@.take(k as int)));
        let ghost ms = fragments_model(parts@.take(k + 1));
        assert(ms.last() == fragment_model(parts@[k as int]));
        assert(render_model(ms, en) == render_model(fragments_model(parts@.take(k as int)), en)
            + render_piece(fragment_model(parts@[k as int]), en));
        match &parts[k] {
            Fragment::Text(s) => {
                out.append(s.as_str());
            },
            Fragment::When { condition, body } => {
                if is_enabled(enabled, condition) {
                    proof {
                        assert(decreases_to!(parts@ => parts@[k as int]));
                        assert(decreases_to!(parts@[k as int] => *body));
                        assert(decreases_to!(*body => body@));
                    }
                    render_parts(body, enabled, out);
                } else {
                    assert(out@ =~= before + Seq::<char>::empty());
                }
            },
        }
        assert(out@ =~= start + render_model(fragments_model(parts@.take(k + 1)), en));
    }
    assert(parts@.take(n as int) =~= parts@);
}

impl CypherTemplate {
    /// The query text for the given conditions: plain text is kept, and a
    /// conditional block is kept only when its condition is among `enabled`.
    pub fn render(&self, enabled: &Vec<String>) -> (query: String)
        ensures
            query@ == render_model(self@, texts_view(enabled@)),
    {
        let mut query = String::new();
        render_parts(&self.parts, enabled, &mut query);
        assert(query@ =~= render_model(self@, texts_view(enabled@)));
        query
    }

    /// The query text when each occurrence of a condition has its own value,
    /// as when the generated code evaluates each condition where it stands:
    /// `values[k]` is the value of the `k`-th condition in source order
    /// (nested ones counted where they stand, also inside blocks that are
    /// left out), and an occurrence without a value does not hold.
    pub fn render_with_values(&self, values: &Vec<bool>) -> (query: String)
        ensures
            query@ == render_occurrences(self@, values@, 0),
    {
        let mut query = String::new();
        let mut pos: usize = 0;
        render_parts_occurrences(&self.parts, values, &mut pos, &mut query, Ghost(0));
        assert(query@ =~= render_occurrences(self@, values@, 0));
        query
    }
}


/// How many conditional blocks a sequence of pieces holds, nested ones
/// included.
pub open spec fn conditions_in(ms: Seq<FragmentModel>) -> nat
    decreases ms,
{
    if ms.len() == 0 {
        0
    } else {
        conditions_in(ms.drop_last()) + conditions_in_piece(ms.last())
    }
}

/// How many conditional blocks a piece is or holds.
pub open spec fn conditions_in_piece(m: FragmentModel) -> nat
    decreases m,
{
    match m {
        FragmentModel::Text(_) => 0,
        FragmentModel::When(_, body) => 1 + conditions_in(body),
    }
}

/// Whether the condition occurrence numbered `k` holds: its value, where
/// one is given, and false otherwise.
pub open spec fn occurrence_holds(values: Seq<bool>, k: int) -> bool {
    0 <= k < values.len() && values[k]
}

/// The query that a sequence of pieces stands for when each occurrence of a
/// condition has a value of its own.  Occurrences are numbered from `base` in
/// source order: a block's condition, then those inside its block, then
/// those after it.
pub open spec fn render_occurrences(ms: Seq<FragmentModel>, values: Seq<bool>, base: int) -> Seq<char>
    decreases ms,
{
    if ms.len() == 0 {
        Seq::empty()
    } else {
        render_occurrences(ms.drop_last(), values, base)
            + render_piece_occurrences(ms.last(), values, base + conditions_in(ms.drop_last()))
    }
}

/// The text one piece stands for, its first occurrence numbered `base`.
pub open spec fn render_piece_occurrences(m: FragmentModel, values: Seq<bool>, base: int) -> Seq<char>
    decreases m,
{
    match m {
        FragmentModel::Text(s) => s,
        FragmentModel::When(_, body) => if occurrence_holds(values, base) {
            render_occurrences(body, values, base + 1)
        } else {
            Seq::empty()
        },
    }
}

/// The conditions of a sequence of pieces, one per occurrence, in the order
/// in which [`render_occurrences`] numbers them.
pub open spec fn conditions_of(ms: Seq<FragmentModel>) -> Seq<Seq<char>>
    decreases ms,
{
    if ms.len() == 0 {
        Seq::empty()
    } else {
        conditions_of(ms.drop_last()) + conditions_of_piece(ms.last())
    }
}

/// The conditions of one piece, its own first.
pub open spec fn conditions_of_piece(m: FragmentModel) -> Seq<Seq<char>>
    decreases m,
{
    match m {
        FragmentModel::Text(_) => Seq::empty(),
        FragmentModel::When(c, body) => seq![c] + conditions_of(body),
    }
}

proof fn lemma_conditions_count(ms: Seq<FragmentModel>)
    ensures
        conditions_of(ms).len() == conditions_in(ms),
    decreases ms,
{
    if ms.len() > 0 {
        lemma_conditions_count(ms.drop_last());
        lemma_conditions_count_piece(ms.last());
    }
}

proof fn lemma_conditions_count_piece(m: FragmentModel)
    ensures
        conditions_of_piece(m).len() == conditions_in_piece(m),
    decreases m,
{
    if let FragmentModel::When(_, body) = m {
        lemma_conditions_count(body);
    }
}

/// Rendering by condition texts is the case of rendering by occurrences in
/// which each occurrence holds exactly when its text is among those that
/// hold.
pub proof fn lemma_render_by_text(ms: Seq<FragmentModel>, enabled: Seq<Seq<char>>, values: Seq<bool>, base: int)
    requires
        forall|k: int| 0 <= k < conditions_of(ms).len() ==>
            occurrence_holds(values, base + k) == enabled.contains(#[trigger] conditions_of(ms)[k]),
    ensures
        render_occurrences(ms, values, base) == render_model(ms, enabled),
    decreases ms,
{
    if ms.len() > 0 {
        let pre = ms.drop_last();
        let cs = conditions_of(ms);
        let pc = conditions_of(pre);
        lemma_conditions_count(pre);
        assert forall|k: int| 0 <= k < pc.len() implies
            occurrence_holds(values, base + k) == enabled.contains(#[trigger] pc[k]) by {
            assert(cs[k] == pc[k]);
        }
        lemma_render_by_text(pre, enabled, values, base);
        let lc = conditions_of_piece(ms.last());
        assert forall|k: int| 0 <= k < lc.len() implies
            occurrence_holds(values, base + pc.len() + k) == enabled.contains(#[trigger] lc[k]) by {
            assert(cs[pc.len() + k] == lc[k]);
        }
        lemma_render_piece_by_text(ms.last(), enabled, values, base + pc.len());
    }
}

proof fn lemma_render_piece_by_text(m: FragmentModel, enabled: Seq<Seq<char>>, values: Seq<bool>, base: int)
    requires
        forall|k: int| 0 <= k < conditions_of_piece(m).len() ==>
            occurrence_holds(values, base + k) == enabled.contains(#[trigger] conditions_of_piece(m)[k]),
    ensures
        render_piece_occurrences(m, values, base) == render_piece(m, enabled),
    decreases m,
{
    if let FragmentModel::When(c, body) = m {
        let cs = conditions_of_piece(m);
        let bc = conditions_of(body);
        assert(cs[0] == c);
        assert forall|k: int| 0 <= k < bc.len() implies
            occurrence_holds(values, base + 1 + k) == enabled.contains(#[trigger] bc[k]) by {
            assert(cs[1 + k] == bc[k]);
        }
        lemma_render_by_text(body, enabled, values, base + 1);
    }
}

/// `k`, but no more than `n`.
pub open spec fn at_most(k: int, n: int) -> int {
    if k < n {
        k
    } else {
        n
    }
}

fn render_parts_occurrences(
    parts: &Vec<Fragment>,
    values: &Vec<bool>,
    pos: &mut usize,
    out: &mut String,
    Ghost(base): Ghost<int>,
)
    requires
        base >= 0,
        *old(pos) == at_most(base, values@.len() as int),
    ensures
        final(out)@ == old(out)@ + render_occurrences(fragments_model(parts@), values@, base),
        *final(pos) == at_most(base + conditions_in(fragments_model(parts@)), values@.len() as int),
    decreases parts@,
{
    let ghost start = out@;
    let ghost len = values@.len() as int;
    let n = parts.len();
    assert(parts@.take(0) =~= Seq::<Fragment>::empty());
    assert(out@ =~= start + render_occurrences(fragments_model(parts@.take(0)), values@, base));
    for k in 0..n
        invariant
            n == parts@.len(),
            base >= 0,
            len == values@.len(),
            out@ == start + render_occurrences(fragments_model(parts@.take(k as int)), values@, base),
            *pos == at_most(base + conditions_in(fragments_model(parts@.take(k as int))), len),
    {
        let ghost before = out@;
        let ghost prev = fragments_model(parts@.take(k as int));
        let ghost b = base + conditions_in(prev);
        assert(parts@.take(k + 1).drop_last() =~= parts@.take(k as int));
        let ghost ms = fragments_model(parts@.take(k + 1));
        assert(ms == prev.push(fragment_model(parts@[k as int])));
        assert(ms.drop_last() =~= prev);
        assert(ms.last() == fragment_model(parts@[k as int]));
        assert(conditions_in(ms) == conditions_in(prev) + conditions_in_piece(ms.last()));
        assert(render_occurrences(ms, values@, base) == render_occurrences(prev, values@, base)
            + render_piece_occurrences(ms.last(), values@, b));
        match &parts[k] {
            Fragment::Text(s) => {
                out.append(s.as_str());
            },
            Fragment::When { condition, body } => {
                assert(ms.last() == FragmentModel::When(condition@, fragments_model(body@)));
                proof {
                    assert(decreases_to!(parts@ => parts@[k as int]));
                    assert(decreases_to!(parts@[k as int] => *body));
                    assert(decreases_to!(*body => body@));
                }
                let holds = *pos < values.len() && values[*pos];
                assert(holds == occurrence_holds(values@, b));
                if *pos < values.len() {
                    *pos = *pos + 1;
                }
                if holds {
                    render_parts_occurrences(body, values, pos, out, Ghost(b + 1));
                } else {
                    let mut skipped = String::new();
                    render_parts_occurrences(body, values, pos, &mut skipped, Ghost(b + 1));
                    assert(out@ =~= before + Seq::<char>::empty());
                }
            },
        }
        assert(out@ =~= start + render_occurrences(fragments_model(parts@.take(k + 1)), values@, base));
    }
    assert(parts@.take(n as int) =~= parts@);
}

/// Rendering goes piece by piece: the rendering of two sequences of pieces,
/// one after the other, is the rendering of the first followed by that of
/// the second.
pub proof fn lemma_render_append(a: Seq<FragmentModel>, b: Seq<FragmentModel>, enabled: Seq<Seq<char>>)
    ensures
        render_model(a + b, enabled) == render_model(a, enabled) + render_model(b, enabled),
    decreases b.len(),
{
    if b.len() == 0 {
        assert(a + b =~= a);
        assert(render_model(a, enabled) + render_model(b, enabled) =~= render_model(a, enabled));
    } else {
        lemma_render_append(a, b.drop_last(), enabled);
        assert((a + b).drop_last() =~= a + b.drop_last());
        assert((a + b).last() == b.last());
        assert(render_model(a + b, enabled) =~= render_model(a, enabled) + render_model(b, enabled));
    }
}

proof fn lemma_render_single(m: FragmentModel, enabled: Seq<Seq<char>>)
    ensures
        render_model(seq![m], enabled) == render_piece(m, enabled),
{
    assert(seq![m].drop_last() =~= Seq::<FragmentModel>::empty());
    assert(render_model(Seq::<FragmentModel>::empty(), enabled) == Seq::<char>::empty());
    assert(render_model(seq![m], enabled) =~= render_piece(m, enabled));
}

proof fn lemma_closed_single(m: FragmentModel)
    ensures
        lines_closed(seq![m]) == piece_closed(m),
{
    assert(seq![m].drop_last() =~= Seq::<FragmentModel>::empty());
    assert(lines_closed(Seq::<FragmentModel>::empty()));
}

/// A conditional block contributes its body's rendering exactly when its
/// condition is among those that hold, and nothing otherwise; the pieces
/// around it are rendered either way.
pub proof fn lemma_render_condition(
    before: Seq<FragmentModel>,
    condition: Seq<char>,
    body: Seq<FragmentModel>,
    after: Seq<FragmentModel>,
    enabled: Seq<Seq<char>>,
)
    ensures
        render_model(before + seq![FragmentModel::When(condition, body)] + after, enabled) == render_model(before, enabled)
            + (if enabled.contains(condition) { render_model(body, enabled) } else { Seq::empty() })
            + render_model(after, enabled),
{
    let block = seq![FragmentModel::When(condition, body)];
    lemma_render_append(before + block, after, enabled);
    lemma_render_append(before, block, enabled);
    lemma_render_single(FragmentModel::When(condition, body), enabled);
}

proof fn lemma_expand_without_if(ts: Seq<Token>, i: int, accepted: Seq<Seq<char>>)
    requires
        0 <= i <= ts.len(),
        forall|k: int| 0 <= k < ts.len() ==> !is_if(#[trigger] ts[k]),
    ensures
        expand(ts, 0, i, accepted) == Ok::<Seq<FragmentModel>, CypherError>(flushed(ts, 0, ts.len() as int)),
    decreases ts.len() - i,
{
    if i < ts.len() {
        lemma_expand_without_if(ts, i + 1, accepted);
    }
}

/// A query without `if` is its tokens written out with their source spacing
/// and followed by a newline, whatever conditions hold; no tokens make an
/// empty query.
pub proof fn lemma_plain_query(ts: Seq<Token>, accepted: Seq<Seq<char>>, enabled: Seq<Seq<char>>)
    requires
        forall|k: int| 0 <= k < ts.len() ==> !is_if(#[trigger] ts[k]),
    ensures
        ts.len() > 0 ==> expand(ts, 0, 0, accepted) == Ok::<Seq<FragmentModel>, CypherError>(
            seq![FragmentModel::Text(fragment_text(ts, false).push('\n'))],
        ),
        ts.len() == 0 ==> expand(ts, 0, 0, accepted) == Ok::<Seq<FragmentModel>, CypherError>(Seq::empty()),
        ts.len() > 0 ==> render_model(seq![FragmentModel::Text(fragment_text(ts, false).push('\n'))], enabled)
            == fragment_text(ts, false).push('\n'),
{
    lemma_expand_without_if(ts, 0, accepted);
    assert(ts.subrange(0, ts.len() as int) =~= ts);
    lemma_render_single(FragmentModel::Text(fragment_text(ts, false).push('\n')), enabled);
}

/// Whether every text piece, also inside conditional blocks, is non-empty
/// and ends with a newline.
pub open spec fn lines_closed(ms: Seq<FragmentModel>) -> bool
    decreases ms,
{
    if ms.len() == 0 {
        true
    } else {
        lines_closed(ms.drop_last()) && piece_closed(ms.last())
    }
}

/// Whether a piece's texts are non-empty and end with a newline.
pub open spec fn piece_closed(m: FragmentModel) -> bool
    decreases m,
{
    match m {
        FragmentModel::Text(s) => s.len() > 0 && s.last() == '\n',
        FragmentModel::When(_, body) => lines_closed(body),
    }
}

proof fn lemma_closed_append(a: Seq<FragmentModel>, b: Seq<FragmentModel>)
    requires
        lines_closed(a),
        lines_closed(b),
    ensures
        lines_closed(a + b),
    decreases b.len(),
{
    if b.len() > 0 {
        lemma_closed_append(a, b.drop_last());
        assert((a + b).drop_last() =~= a + b.drop_last());
        assert((a + b).last() == b.last());
    } else {
        assert(a + b =~= a);
    }
}

proof fn lemma_expand_closed(ts: Seq<Token>, start: int, i: int, accepted: Seq<Seq<char>>)
    requires
        0 <= start,
    ensures
        expand(ts, start, i, accepted) matches Ok(ms) ==> lines_closed(ms),
    decreases ts, ts.len() - i,
{
    let f = flushed(ts, start, if i < 0 || i >= ts.len() { ts.len() as int } else { i });
    if start < (if i < 0 || i >= ts.len() { ts.len() as int } else { i }) {
        let text = fragment_text(ts.subrange(start, if i < 0 || i >= ts.len() { ts.len() as int } else { i }), false).push('\n');
        assert(piece_closed(FragmentModel::Text(text)));
        lemma_closed_single(FragmentModel::Text(text));
    }
    assert(lines_closed(f));
    if i < 0 || i >= ts.len() {
    } else if is_if(ts[i]) {
        let j = condition_end(ts, i + 1, 0);
        let cond = fragment_text(ts.subrange(i + 1, j), true);
        if condition_accepted(accepted, cond) && j < ts.len() {
            lemma_condition_end_bounds(ts, i + 1, 0);
            match ts[j].kind {
                TokenKind::Group(Delimiter::Brace, inner) => {
                    assert(decreases_to!(ts => ts[j]));
                    lemma_expand_closed(inner@, 0, 0, accepted);
                    lemma_expand_closed(ts, j + 1, j + 1, accepted);
                    match (expand(inner@, 0, 0, accepted), expand(ts, j + 1, j + 1, accepted)) {
                        (Ok(body), Ok(rest)) => {
                            let block = seq![FragmentModel::When(cond, body)];
                            lemma_closed_single(FragmentModel::When(cond, body));
                            lemma_closed_append(f, block);
                            lemma_closed_append(f + block, rest);
                        },
                        _ => {},
                    }
                },
                _ => {},
            }
        }
    } else {
        lemma_expand_closed(ts, start, i + 1, accepted);
    }
}

proof fn lemma_render_closed(ms: Seq<FragmentModel>, enabled: Seq<Seq<char>>)
    requires
        lines_closed(ms),
    ensures
        render_model(ms, enabled).len() == 0 || render_model(ms, enabled).last() == '\n',
    decreases ms,
{
    if ms.len() > 0 {
        lemma_render_closed(ms.drop_last(), enabled);
        assert(piece_closed(ms.last()));
        let head = render_model(ms.drop_last(), enabled);
        let tail = render_piece(ms.last(), enabled);
        match ms.last() {
            FragmentModel::Text(_) => {},
            FragmentModel::When(c, body) => {
                assert(lines_closed(body));
                lemma_render_closed(body, enabled);
            },
        }
        assert(render_model(ms, enabled) == head + tail);
        if tail.len() > 0 {
            assert((head + tail).last() == tail.last());
        } else {
            assert(head + tail =~= head);
        }
    }
}

/// Every line of text the macro writes is closed by a newline: the rendering
/// of accepted input is empty or ends with a newline, whatever conditions
/// hold.
pub proof fn lemma_rendering_ends_with_newline(ts: Seq<Token>, accepted: Seq<Seq<char>>, enabled: Seq<Seq<char>>)
    ensures
        expand(ts, 0, 0, accepted) matches Ok(ms) ==> (render_model(ms, enabled).len() == 0 || render_model(ms, enabled).last() == '\n'),
{
    lemma_expand_closed(ts, 0, 0, accepted);
    if let Ok(ms) = expand(ts, 0, 0, accepted) {
        lemma_render_closed(ms, enabled);
    }
}

/// Plain tokens are only collected: scanning past tokens that are no `if`
/// changes nothing of the outcome.
proof fn lemma_expand_skips_plain(ts: Seq<Token>, start: int, k: int, i: int, accepted: Seq<Seq<char>>)
    requires
        0 <= k <= i < ts.len(),
        forall|m: int| k <= m < i ==> !is_if(#[trigger] ts[m]),
    ensures
        expand(ts, start, k, accepted) == expand(ts, start, i, accepted),
    decreases i - k,
{
    if k < i {
        assert(!is_if(ts[k]));
        lemma_expand_skips_plain(ts, start, k + 1, i, accepted);
    }
}

/// An `if` followed at once by its block has an empty condition, which is no
/// expression: when it is the first `if` of the input, the input is rejected
/// whenever no accepted text is empty, as [`generate`] ensures of the texts
/// it accepts.
pub proof fn lemma_empty_condition_rejected(ts: Seq<Token>, i: int, accepted: Seq<Seq<char>>)
    requires
        0 <= i,
        i + 1 < ts.len(),
        is_if(ts[i]),
        is_brace_group(ts[i + 1]),
        forall|m: int| 0 <= m < i ==> !is_if(#[trigger] ts[m]),
        forall|k: int| 0 <= k < accepted.len() ==> (#[trigger] accepted[k]).len() > 0,
    ensures
        expand(ts, 0, 0, accepted) == Err::<Seq<FragmentModel>, CypherError>(CypherError::ConditionNotExpression),
{
    lemma_expand_skips_plain(ts, 0, 0, i, accepted);
    assert(condition_end(ts, i + 1, 0) == i + 1);
    assert(ts.subrange(i + 1, i + 1) =~= Seq::<Token>::empty());
    assert(fragment_text(ts.subrange(i + 1, i + 1), true) == Seq::<char>::empty());
    if accepted.contains(Seq::<char>::empty()) {
        let k = choose|k: int| 0 <= k < accepted.len() && accepted[k] == Seq::<char>::empty();
        assert(accepted[k].len() > 0);
    }
}

} // verus!
